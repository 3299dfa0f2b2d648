//! Setting a widget's visibility shows the flag on its card and leaves every
//! other card as it was.
use super::remove::{lemma_blocks_then, lemma_next_open};
use super::scan::{
    card, cards, lemma_block_span, lemma_cards_cons, lemma_open_shift, lemma_prefix_scan,
    lemma_slot_order, lemma_slots_shift, lemma_slots_tail,
};
use super::visible::{edit_ok, head_ok, lemma_visible_tag_edit};
use super::visible_tag::law_visible_tag_reads_back;
use crate::text::lemma_find_char_from;
use crate::widget_layout::{
    block_end, is_widget_open_at, lemma_block_end, lemma_tag_end_of, lemma_widget_open_from,
    open_tag, set_visible_spec, slot_at, slots_from, slots_of, tag_end_of, visible_tag,
    widget_open_from,
};
use vstd::prelude::*;

verus! {

/// Where a tag is read to end, measured after a prefix.
pub proof fn lemma_tag_end_shift(x: Seq<char>, y: Seq<char>, a: int, b: int)
    requires
        0 <= a <= b <= y.len(),
    ensures
        tag_end_of(x + y, x.len() + a, x.len() + b) == x.len() + tag_end_of(y, a, b),
{
    assert((x + y).take(x.len() + b) == x + y.take(b));
    super::scan::lemma_find_char_shift(x, y.take(b), '>', a);
}

/// The opening tag of block `i`, with the rest of the buffer after it, is the
/// head of a block.
pub proof fn lemma_block_head(s: Seq<char>, i: int)
    requires
        0 <= i < slots_of(s).len(),
    ensures
        ({
            let x = slots_of(s)[i];
            let te = tag_end_of(s, x.start, x.end);
            let t = s.subrange(x.start, te);
            let z = s.skip(te);
            &&& x.start <= te <= x.end
            &&& t + z == s.skip(x.start)
            &&& head_ok(t, t + z)
            &&& block_end(t + z, 0) == x.end - x.start
        }),
{
    let x = slots_of(s)[i];
    lemma_block_span(s, i);
    let start = x.start;
    let end = x.end;
    let te = tag_end_of(s, start, end);
    lemma_tag_end_of(s, start, end);
    let t = s.subrange(start, te);
    let z = s.skip(te);
    let y = s.skip(start);
    assert(t + z == y);
    assert(s == s.take(start) + y);
    super::scan::lemma_block_end_shift(s.take(start), y, 0);
    lemma_tag_end_shift(s.take(start), y, 0, end - start);
    assert(y.subrange(0, 9) == s.subrange(start, start + 9));
    if 9 < y.len() {
        assert(y[9] == s[start + 9]);
    }
    lemma_find_char_from(s.take(end), '>', start);
    assert forall|k: int| start <= k < start + 9 implies #[trigger] s.take(end)[k] != '>' by {
        assert(s.take(end)[k] == s.subrange(start, start + 9)[k - start]);
    }
    assert(t.take(9) == s.subrange(start, start + 9));
    assert forall|k: int| 0 <= k < t.len() - 1 implies #[trigger] t[k] != '>' by {
        assert(t[k] == s.take(end)[start + k]);
    }
    assert(start <= te <= end);
    assert(t.len() >= 9);
    assert(t.take(9) == open_tag());
    assert(is_widget_open_at(y, 0));
    assert(block_end(y, 0) == end - start);
    assert(tag_end_of(y, 0, end - start) == te - start);
    assert((t + z).take(t.len() as int) == t);
}

/// A block at the front of a text, then the cards of what follows it.
pub proof fn lemma_front_any(y: Seq<char>)
    requires
        y.len() >= 9,
        is_widget_open_at(y, 0),
    ensures
        cards(slots_of(y)) == seq![card(slot_at(y, 0, block_end(y, 0)))] + cards(
            slots_of(y.skip(block_end(y, 0))),
        ),
{
    lemma_widget_open_from(y, 0);
    assert(y.subrange(0, 9) == open_tag());
    crate::text::lemma_find_from_first(y, open_tag(), 0, 0);
    assert(widget_open_from(y, 0) == Some(0int));
    lemma_block_end(y, 0);
    let e = block_end(y, 0);
    assert(slots_from(y, 0) == seq![slot_at(y, 0, e)] + slots_from(y, e));
    lemma_cards_cons(slot_at(y, 0, e), slots_from(y, e));
    assert(y == y.take(e) + y.skip(e));
    lemma_slots_shift(y.take(e), y.skip(e), 0);
}

/// What follows a block reports the blocks after it.
pub proof fn lemma_after(s: Seq<char>, i: int)
    requires
        0 <= i < slots_of(s).len(),
    ensures
        cards(slots_of(s.skip(slots_of(s)[i].end))) == cards(slots_of(s).skip(i + 1)),
{
    lemma_block_span(s, i);
    let end = slots_of(s)[i].end;
    assert(s == s.take(end) + s.skip(end));
    lemma_slots_shift(s.take(end), s.skip(end), 0);
    lemma_slots_tail(s, 0, i);
}

/// Text before block `i`, then any text that starts with a real opening tag:
/// the cards of the blocks before `i`, then what that text reports.
#[verifier::spinoff_prover]
#[verifier::rlimit(40)]
pub proof fn lemma_before(s: Seq<char>, i: int, y: Seq<char>)
    requires
        0 <= i < slots_of(s).len(),
        y.len() >= 9,
        is_widget_open_at(y, 0),
    ensures
        cards(slots_of(s.take(slots_of(s)[i].start) + y)) == cards(slots_of(s).take(i)) + cards(
            slots_of(y),
        ),
{
    let sl = slots_of(s);
    lemma_block_span(s, i);
    let start = sl[i].start;
    lemma_next_open(s, i);
    assert(y.subrange(0, 9) == open_tag());
    if i == 0 {
        lemma_prefix_scan(s, s.take(start), y);
        assert(cards(sl.take(0)) =~= Seq::empty());
        assert(cards(sl.take(0)) + cards(slots_of(y)) == cards(slots_of(y)));
    } else {
        lemma_block_span(s, i - 1);
        lemma_slot_order(s, i - 1, i);
        let e = sl[i - 1].end;
        let gap = s.subrange(e, start);
        let r = gap + y;
        assert(s.take(start) + y =~= s.subrange(0, e) + r);
        lemma_blocks_then(s, 0, i, r);
        let sk = s.skip(e);
        assert(s == s.take(e) + sk);
        lemma_open_shift(s.take(e), sk, 0);
        assert(sk.take(gap.len() as int) == gap);
        assert(sk.subrange(gap.len() as int, gap.len() + 9int) == s.subrange(start, start + 9));
        lemma_prefix_scan(sk, gap, y);
        assert(sl.subrange(0, i) == sl.take(i));
    }
}

/// A block whose head was rewritten reports one card, with the rewritten
/// tag's flag, then the blocks after it.
#[verifier::spinoff_prover]
#[verifier::rlimit(40)]
pub proof fn lemma_rewritten_head(s: Seq<char>, i: int, t: Seq<char>, z: Seq<char>, nt: Seq<char>)
    requires
        0 <= i < slots_of(s).len(),
        t + z == s.skip(slots_of(s)[i].start),
        block_end(t + z, 0) == slots_of(s)[i].end - slots_of(s)[i].start,
        edit_ok(t, nt, z),
    ensures
        ({
            let y = nt + z;
            &&& y.len() >= 9
            &&& is_widget_open_at(y, 0)
            &&& cards(slots_of(y)).len() == 1 + cards(slots_of(s).skip(i + 1)).len()
            &&& cards(slots_of(y))[0].3 == crate::widget_layout::visible_flag(nt)
            &&& cards(slots_of(y))[0].0 == crate::widget_layout::attr_or(
                nt,
                crate::widget_layout::name_id(),
                Seq::empty(),
            )
            &&& cards(slots_of(y))[0].1 == crate::widget_layout::attr_or(
                nt,
                crate::widget_layout::name_type(),
                crate::widget_layout::default_type(),
            )
            &&& cards(slots_of(y))[0].2 == crate::widget_layout::attr_or(
                nt,
                crate::widget_layout::name_title(),
                Seq::empty(),
            )
            &&& cards(slots_of(y)).skip(1) == cards(slots_of(s).skip(i + 1))
        }),
{
    let sl = slots_of(s);
    lemma_block_span(s, i);
    let start = sl[i].start;
    let end = sl[i].end;
    let y = nt + z;
    lemma_front_any(y);
    let e2 = block_end(y, 0);
    assert(y.skip(e2) == s.skip(start).skip(end - start));
    assert(s.skip(start).skip(end - start) == s.skip(end));
    lemma_after(s, i);
    assert(y.take(nt.len() as int) == nt);
    assert(y.subrange(0, tag_end_of(y, 0, e2)) == nt);
    let c = cards(slots_of(y));
    assert(c.skip(1) =~= cards(sl.skip(i + 1)));
}

/// The rewritten block reports one card showing the flag, then the blocks
/// after it.
pub proof fn lemma_rewritten_block(s: Seq<char>, i: int, visible: bool)
    requires
        0 <= i < slots_of(s).len(),
    ensures
        ({
            let x = slots_of(s)[i];
            let te = tag_end_of(s, x.start, x.end);
            let y = visible_tag(s.subrange(x.start, te), visible) + s.skip(te);
            &&& y.len() >= 9
            &&& is_widget_open_at(y, 0)
            &&& cards(slots_of(y)).len() == 1 + cards(slots_of(s).skip(i + 1)).len()
            &&& cards(slots_of(y))[0].3 == visible
            &&& cards(slots_of(y)).skip(1) == cards(slots_of(s).skip(i + 1))
        }),
{
    let sl = slots_of(s);
    lemma_block_head(s, i);
    let start = sl[i].start;
    let end = sl[i].end;
    let te = tag_end_of(s, start, end);
    let t = s.subrange(start, te);
    let z = s.skip(te);
    lemma_visible_tag_edit(t, visible, z);
    law_visible_tag_reads_back(t, visible);
    lemma_rewritten_head(s, i, t, z, visible_tag(t, visible));
}

/// Setting widget `i`'s visibility shows the flag on its card: a reparse gives
/// the same number of cards, card `i` shows `visible`, and every other card is
/// unchanged.
#[verifier::spinoff_prover]
#[verifier::rlimit(40)]
pub proof fn law_set_visible_shows_flag(s: Seq<char>, i: int, visible: bool)
    requires
        0 <= i < slots_of(s).len(),
    ensures
        ({
            let c = cards(slots_of(set_visible_spec(s, i, visible)));
            let d = cards(slots_of(s));
            &&& c.len() == d.len()
            &&& c[i].3 == visible
            &&& forall|j: int| 0 <= j < d.len() && j != i ==> c[j] == d[j]
        }),
{
    let sl = slots_of(s);
    let x = sl[i];
    lemma_block_head(s, i);
    let te = tag_end_of(s, x.start, x.end);
    let y = visible_tag(s.subrange(x.start, te), visible) + s.skip(te);
    lemma_rewritten_block(s, i, visible);
    lemma_before(s, i, y);
    let out = set_visible_spec(s, i, visible);
    assert(out == s.take(x.start) + y);
    let c = cards(slots_of(out));
    let d = cards(sl);
    let cy = cards(slots_of(y));
    assert(c == cards(sl.take(i)) + cy);
    assert(cards(sl.take(i)).len() == i);
    assert forall|j: int| 0 <= j < d.len() && j != i implies c[j] == d[j] by {
        if j < i {
            assert(c[j] == cards(sl.take(i))[j]);
        } else {
            assert(c[j] == cy[j - i]);
            assert(cy[j - i] == cy.skip(1)[j - i - 1]);
            assert(cards(sl.skip(i + 1))[j - i - 1] == d[j]);
        }
    }
}

} // verus!
