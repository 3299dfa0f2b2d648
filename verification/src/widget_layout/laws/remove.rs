//! Removing a widget drops its card.
use super::scan::{
    card, cards, lemma_open_shift, lemma_slots_shift, lemma_plain_prefix, lemma_block_front,
    lemma_slots_tail, block_text, last_block_closed, lemma_block_span, lemma_slot_order,
    lemma_block_text_card, lemma_block_text, lemma_prefix_scan,
};
use crate::text::{
    find_from, ends_with, is_ws, lead_ws, lemma_find_from, lemma_trail_ws_char, lemma_ws_bounds, occurs_at,
    trail_ws, trim_end, trim_start,
};
use crate::widget_layout::{
    block_end, close_tag, is_widget_open_at, lemma_block_end, lemma_widget_open_from, open_tag,
    remove_spec, slot_at, slots_from, slots_of, widget_open_from,
};
use vstd::prelude::*;

verus! {

// ───────────────────────── remove ─────────────────────────

/// Trimming the end of `p + g`, where `p` does not end in whitespace, trims `g`.
pub proof fn lemma_trim_end_after(p: Seq<char>, g: Seq<char>)
    requires
        p.len() > 0,
        !is_ws(p.last()),
    ensures
        trim_end(p + g) == p + trim_end(g),
{
    lemma_ws_bounds(g);
    let n = trail_ws(g);
    let s = p + g;
    assert forall|k: int| s.len() - n <= k < s.len() implies is_ws(s[k]) by {
        assert(s[k] == g[k - p.len()]);
    }
    if n < g.len() {
        assert(s[s.len() - n - 1] == g[g.len() - n - 1]);
    } else {
        assert(s[s.len() - n - 1] == p.last());
    }
    lemma_trail_ws_char(s, n as int);
    assert(trim_end(p + g) =~= p + trim_end(g));
}

/// Positions without a real opening tag are skipped by the scan.
pub proof fn lemma_widget_open_skip(s: Seq<char>, from: int, to: int)
    requires
        0 <= from <= to,
        forall|k: int| from <= k < to ==> !is_widget_open_at(s, k),
    ensures
        widget_open_from(s, from) == widget_open_from(s, to),
        slots_from(s, from) == slots_from(s, to),
{
    lemma_widget_open_from(s, from);
    lemma_widget_open_from(s, to);
}

/// The scan from a block's end finds the next block.
pub proof fn lemma_next_open(s: Seq<char>, k: int)
    requires
        0 <= k < slots_of(s).len(),
    ensures
        widget_open_from(s, if k == 0 {
            0
        } else {
            slots_of(s)[k - 1].end
        }) == Some(slots_of(s)[k].start),
{
    let sl = slots_of(s);
    let c = if k == 0 {
        0
    } else {
        sl[k - 1].end
    };
    if k > 0 {
        lemma_block_span(s, k - 1);
        lemma_slots_tail(s, 0, k - 1);
    }
    assert(slots_from(s, c) == sl.skip(k));
    lemma_widget_open_from(s, c);
    let start = widget_open_from(s, c)->0;
    lemma_block_end(s, start);
    assert(slots_from(s, c)[0] == slot_at(s, start, block_end(s, start)));
}

/// One step of scanning a buffer's leading blocks: the gap before block `k`
/// is passed over and the block reported.
#[verifier::spinoff_prover]
#[verifier::rlimit(60)]
pub proof fn lemma_block_step(s: Seq<char>, k: int, stop: int, r: Seq<char>)
    requires
        0 <= k < slots_of(s).len(),
        slots_of(s)[k].end <= stop <= s.len(),
        k < slots_of(s).len() - 1 || last_block_closed(s),
    ensures
        ({
            let sl = slots_of(s);
            let e = if k == 0 {
                0
            } else {
                sl[k - 1].end
            };
            cards(slots_of(s.subrange(e, stop) + r)) == seq![card(sl[k])] + cards(
                slots_of(s.subrange(sl[k].end, stop) + r),
            )
        }),
{
    let sl = slots_of(s);
    let e = if k == 0 {
        0
    } else {
        sl[k - 1].end
    };
    lemma_block_span(s, k);
    if k > 0 {
        lemma_block_span(s, k - 1);
        lemma_slot_order(s, k - 1, k);
    }
    let start = sl[k].start;
    let end = sl[k].end;
    let g = s.subrange(e, start);
    let b = block_text(s, sl[k]);
    let rest = s.subrange(end, stop) + r;
    assert(s.subrange(e, stop) + r =~= g + (b + rest));
    lemma_next_open(s, k);
    let sk = s.skip(e);
    assert(s == s.take(e) + sk);
    lemma_open_shift(s.take(e), sk, 0);
    assert(sk.take(g.len() as int) == g);
    assert(sk.subrange(g.len() as int, g.len() + 9int) == s.subrange(start, start + 9));
    lemma_block_text(s, k);
    lemma_block_text_card(s, k);
    assert((b + rest).subrange(0, 9) == b.subrange(0, 9));
    assert((b + rest)[9] == b[9]);
    lemma_prefix_scan(sk, g, b + rest);
    lemma_block_front(b, rest);
}

/// Scanning a buffer's leading blocks, then any text: their cards, then what
/// the text reports.
pub proof fn lemma_blocks_then(s: Seq<char>, k: int, i: int, r: Seq<char>)
    requires
        0 <= k <= i < slots_of(s).len(),
        i >= 1,
    ensures
        ({
            let sl = slots_of(s);
            let e = if k == 0 {
                0
            } else {
                sl[k - 1].end
            };
            cards(slots_of(s.subrange(e, sl[i - 1].end) + r)) == cards(sl.subrange(k, i))
                + cards(slots_of(r))
        }),
    decreases i - k,
{
    let sl = slots_of(s);
    lemma_block_span(s, i - 1);
    if k == i {
        assert(s.subrange(sl[i - 1].end, sl[i - 1].end) + r == r);
        assert(cards(sl.subrange(k, i)) =~= Seq::empty());
        assert(cards(sl.subrange(k, i)) + cards(slots_of(r)) == cards(slots_of(r)));
    } else {
        if k < i - 1 {
            lemma_slot_order(s, k, i - 1);
        }
        lemma_block_span(s, k);
        lemma_block_step(s, k, sl[i - 1].end, r);
        lemma_blocks_then(s, k + 1, i, r);
        assert(cards(sl.subrange(k, i)) =~= seq![card(sl[k])] + cards(sl.subrange(k + 1, i)));
    }
}

/// A trimmed gap followed by a newline holds no real opening tag, unless it
/// ends with `<b:widget` itself.
pub proof fn lemma_gap_clear(s: Seq<char>, a: int, b: int, t: Seq<char>)
    requires
        0 <= a <= b,
        b + 9 <= s.len(),
        widget_open_from(s, a) == Some(b),
        !ends_with(trim_end(s.subrange(a, b)), open_tag()),
    ensures
        cards(slots_of(trim_end(s.subrange(a, b)) + (seq!['\n'] + t))) == cards(slots_of(t)),
{
    let g = trim_end(s.subrange(a, b));
    let nl = seq!['\n'];
    let x = g + (nl + t);
    lemma_ws_bounds(s.subrange(a, b));
    lemma_widget_open_from(s, a);
    assert forall|k: int| 0 <= k < g.len() implies !is_widget_open_at(x, k) by {
        if k + 9 < g.len() {
            assert(x.subrange(k, k + 9) == s.subrange(a + k, a + k + 9));
            assert(x[k + 9] == s[a + k + 9]);
            assert(!is_widget_open_at(s, a + k));
        } else if k + 9 == g.len() {
            assert(x.subrange(k, k + 9) == g.skip(k));
        } else if occurs_at(x, open_tag(), k) {
            assert(x.subrange(k, k + 9)[g.len() - k] == x[g.len() as int]);
        }
    }
    lemma_widget_open_skip(x, 0, g.len() as int);
    lemma_slots_shift(g, nl + t, 0);
    lemma_plain_prefix(nl, t);
}

/// Leading whitespace holds no widget.
pub proof fn lemma_trim_start_scan(u: Seq<char>)
    ensures
        cards(slots_of(trim_start(u))) == cards(slots_of(u)),
{
    lemma_ws_bounds(u);
    let w = u.take(lead_ws(u) as int);
    assert(u == w + trim_start(u));
    assert forall|i: int| 0 <= i < w.len() implies w[i] != '<' by {
        assert(is_ws(u[i]));
    }
    lemma_plain_prefix(w, trim_start(u));
}

/// What follows a removed block, once trimmed, reports the blocks after it.
pub proof fn lemma_after_block(s: Seq<char>, i: int)
    requires
        0 <= i < slots_of(s).len(),
    ensures
        cards(slots_of(trim_start(s.skip(slots_of(s)[i].end)))) == cards(slots_of(s).skip(i + 1)),
{
    let sl = slots_of(s);
    lemma_block_span(s, i);
    let end = sl[i].end;
    lemma_trim_start_scan(s.skip(end));
    assert(s == s.take(end) + s.skip(end));
    lemma_slots_shift(s.take(end), s.skip(end), 0);
    lemma_slots_tail(s, 0, i);
}

/// The text kept before a removed block that is not the first: the earlier
/// blocks, then the trimmed gap.
#[verifier::spinoff_prover]
#[verifier::rlimit(60)]
pub proof fn lemma_before_block(s: Seq<char>, i: int, t: Seq<char>)
    requires
        0 < i < slots_of(s).len(),
        !ends_with(trim_end(s.take(slots_of(s)[i].start)), open_tag()),
    ensures
        cards(slots_of(trim_end(s.take(slots_of(s)[i].start)) + (seq!['\n'] + t))) == cards(
            slots_of(s).take(i),
        ) + cards(slots_of(t)),
{
    let sl = slots_of(s);
    let nl = seq!['\n'];
    lemma_block_span(s, i);
    lemma_block_span(s, i - 1);
    lemma_slot_order(s, i - 1, i);
    lemma_next_open(s, i);
    let start = sl[i].start;
    let e = sl[i - 1].end;
    let p = s.subrange(0, e);
    let g = s.subrange(e, start);
    assert(s.take(start) == p + g);
    lemma_block_text(s, i - 1);
    let bt = block_text(s, sl[i - 1]);
    lemma_find_from(bt, close_tag(), 9);
    assert(bt.subrange(bt.len() - 11, bt.len() as int) == close_tag());
    assert(p.last() == bt.last());
    assert(bt.last() == bt.subrange(bt.len() - 11, bt.len() as int)[10]);
    lemma_trim_end_after(p, g);
    let gt = trim_end(g);
    if gt.len() >= 9 {
        assert((p + gt).skip((p + gt).len() - 9) == gt.skip(gt.len() - 9));
    }
    assert(!ends_with(gt, open_tag()));
    lemma_gap_clear(s, e, start, t);
    assert(trim_end(s.take(start)) + (nl + t) =~= p + (gt + (nl + t)));
    lemma_blocks_then(s, 0, i, gt + (nl + t));
    assert(sl.subrange(0, i) == sl.take(i));
}

/// Removing a widget drops its card: a reparse shows the other cards in order.
/// (Where the text kept before it, once trimmed, ends with `<b:widget`, the
/// joining newline turns that text into a widget, so such buffers are left out.)
pub proof fn law_remove_drops_card(s: Seq<char>, i: int)
    requires
        0 <= i < slots_of(s).len(),
        !ends_with(trim_end(s.take(slots_of(s)[i].start)), open_tag()),
    ensures
        cards(slots_of(remove_spec(s, i))) == cards(slots_of(s)).remove(i),
{
    let sl = slots_of(s);
    let nl = seq!['\n'];
    let t = trim_start(s.skip(sl[i].end));
    lemma_after_block(s, i);
    lemma_block_span(s, i);
    let out = remove_spec(s, i);
    assert(out == trim_end(s.take(sl[i].start)) + (nl + t));
    if i == 0 {
        lemma_next_open(s, 0);
        assert(s.take(sl[0].start) == s.subrange(0, sl[0].start));
        lemma_gap_clear(s, 0, sl[0].start, t);
        assert(cards(sl).remove(0) =~= cards(sl.skip(1)));
    } else {
        lemma_before_block(s, i, t);
        assert(cards(sl).remove(i) =~= cards(sl.take(i)) + cards(sl.skip(i + 1)));
    }
}

/// Every `<b:widget` text of the buffer lies inside a widget block.
pub open spec fn opens_in_blocks(s: Seq<char>) -> bool {
    forall|k: int|
        #[trigger] occurs_at(s, open_tag(), k) ==> exists|j: int|
            0 <= j < slots_of(s).len() && #[trigger] slots_of(s)[j].start <= k < slots_of(s)[j].end
}

/// Where every `<b:widget` text lies inside a block, the text kept before a
/// block never ends with `<b:widget` once trimmed.
#[verifier::spinoff_prover]
#[verifier::rlimit(40)]
pub proof fn lemma_no_open_before(s: Seq<char>, i: int)
    requires
        0 <= i < slots_of(s).len(),
        opens_in_blocks(s),
    ensures
        !ends_with(trim_end(s.take(slots_of(s)[i].start)), open_tag()),
{
    let sl = slots_of(s);
    lemma_block_span(s, i);
    let pre = s.take(sl[i].start);
    let tp = trim_end(pre);
    lemma_ws_bounds(pre);
    if ends_with(tp, open_tag()) {
        let l = tp.len() as int;
        let k = l - 9;
        assert(s.subrange(k, k + 9) =~= tp.skip(k)) by {
            assert forall|x: int| k <= x < k + 9 implies s[x] == tp[x] by {
                assert(tp[x] == pre[x]);
            }
        }
        assert(occurs_at(s, open_tag(), k));
        let j = choose|j: int|
            0 <= j < slots_of(s).len() && #[trigger] slots_of(s)[j].start <= k < slots_of(s)[j].end;
        lemma_block_span(s, j);
        if j >= i {
            if j > i {
                lemma_slot_order(s, i, j);
            }
        } else {
            lemma_slot_order(s, j, i);
            // block `j` is closed: it ends with `>`
            lemma_find_from(s, close_tag(), sl[j].start + 9);
            let c = find_from(s, close_tag(), sl[j].start + 9)->0;
            assert(s[c + 10] == s.subrange(c, c + 11)[10]);
            let e = sl[j].end;
            if e - 1 >= l {
                assert(is_ws(pre[e - 1]));
            } else {
                assert(s[e - 1] == s.subrange(k, k + 9)[e - 1 - k]);
            }
        }
    }
}

/// Removing a widget drops its card, where every `<b:widget` text of the
/// buffer lies inside a widget block: a reparse shows the other cards in order.
pub proof fn law_remove_drops_card_in_blocks(s: Seq<char>, i: int)
    requires
        0 <= i < slots_of(s).len(),
        opens_in_blocks(s),
    ensures
        cards(slots_of(remove_spec(s, i))) == cards(slots_of(s)).remove(i),
{
    lemma_no_open_before(s, i);
    law_remove_drops_card(s, i);
}

} // verus!
