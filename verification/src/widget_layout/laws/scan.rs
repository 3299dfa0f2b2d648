//! How the block scan behaves on concatenated text: a scan started at the join
//! of `x + y` sees exactly what a scan of `y` sees, and a complete block at the
//! front of a text is reported on its own.
use crate::text::{
    find_char_from, find_from, join, lemma_find_char_from, lemma_find_from, lemma_find_from_first,
    occurs_at,
};
use crate::widget_layout::{
    block_end, close_tag, is_tag_delim, is_widget_open_at, lemma_block_end, lemma_slots_from,
    lemma_tag_end_of, lemma_widget_open_from, open_tag, slot_at, slots_from, slots_of, tag_end_of,
    widget_open_from, SlotSpec,
};
use vstd::prelude::*;

verus! {

// ───────────────────────── cards ─────────────────────────

/// What a Layout card shows of a block: id, type, title and visibility.
pub open spec fn card(x: SlotSpec) -> (Seq<char>, Seq<char>, Seq<char>, bool) {
    (x.id, x.w_type, x.title, x.visible)
}

/// The cards of a list of blocks.
pub open spec fn cards(v: Seq<SlotSpec>) -> Seq<(Seq<char>, Seq<char>, Seq<char>, bool)> {
    v.map_values(|x: SlotSpec| card(x))
}

pub proof fn lemma_cards_cons(a: SlotSpec, rest: Seq<SlotSpec>)
    ensures
        cards(seq![a] + rest) == seq![card(a)] + cards(rest),
{
    assert(cards(seq![a] + rest) =~= seq![card(a)] + cards(rest));
}

// ───────────────────────── scanning after a prefix ─────────────────────────

pub proof fn lemma_occurs_shift(x: Seq<char>, y: Seq<char>, pat: Seq<char>, k: int)
    requires
        0 <= k,
    ensures
        occurs_at(x + y, pat, x.len() + k) == occurs_at(y, pat, k),
{
    if k + pat.len() <= y.len() {
        assert((x + y).subrange(x.len() + k, x.len() + k + pat.len()) == y.subrange(
            k,
            k + pat.len(),
        ));
    }
}

/// A search that starts after a prefix finds what the same search of the rest finds.
pub proof fn lemma_find_shift(x: Seq<char>, y: Seq<char>, pat: Seq<char>, k: int)
    requires
        0 <= k,
    ensures
        find_from(x + y, pat, x.len() + k) == match find_from(y, pat, k) {
            Some(p) => Some(x.len() + p),
            None => None::<int>,
        },
    decreases y.len() + 1 - k,
{
    lemma_occurs_shift(x, y, pat, k);
    if k + pat.len() > y.len() {
    } else if occurs_at(y, pat, k) {
    } else {
        lemma_find_shift(x, y, pat, k + 1);
    }
}

pub proof fn lemma_find_char_shift(x: Seq<char>, y: Seq<char>, c: char, k: int)
    requires
        0 <= k,
    ensures
        find_char_from(x + y, c, x.len() + k) == match find_char_from(y, c, k) {
            Some(p) => Some(x.len() + p),
            None => None::<int>,
        },
    decreases y.len() - k,
{
    if k < y.len() {
        assert((x + y)[x.len() + k] == y[k]);
        if y[k] != c {
            lemma_find_char_shift(x, y, c, k + 1);
        }
    }
}

pub proof fn lemma_open_shift(x: Seq<char>, y: Seq<char>, k: int)
    requires
        0 <= k,
    ensures
        widget_open_from(x + y, x.len() + k) == match widget_open_from(y, k) {
            Some(p) => Some(x.len() + p),
            None => None::<int>,
        },
    decreases y.len() + 1 - k,
{
    lemma_find_shift(x, y, open_tag(), k);
    lemma_find_from(y, open_tag(), k);
    match find_from(y, open_tag(), k) {
        None => {},
        Some(pos) => {
            if pos + 9 < y.len() {
                assert((x + y)[x.len() + pos + 9] == y[pos + 9]);
            }
            if !(pos + 9 >= y.len() || is_tag_delim(y[pos + 9])) {
                lemma_open_shift(x, y, pos + 9);
            }
        },
    }
}

pub proof fn lemma_block_end_shift(x: Seq<char>, y: Seq<char>, a: int)
    requires
        0 <= a,
    ensures
        block_end(x + y, x.len() + a) == x.len() + block_end(y, a),
{
    lemma_find_shift(x, y, close_tag(), a + 9);
}

pub proof fn lemma_slot_shift(x: Seq<char>, y: Seq<char>, a: int, b: int)
    requires
        0 <= a <= b <= y.len(),
    ensures
        card(slot_at(x + y, x.len() + a, x.len() + b)) == card(slot_at(y, a, b)),
{
    assert((x + y).take(x.len() + b) == x + y.take(b));
    lemma_find_char_shift(x, y.take(b), '>', a);
    lemma_find_char_from(y.take(b), '>', a);
    let te = tag_end_of(y, a, b);
    assert(tag_end_of(x + y, x.len() + a, x.len() + b) == x.len() + te);
    assert((x + y).subrange(x.len() + a, x.len() + te) == y.subrange(a, te));
}

/// A block scan started at the join of `x + y` reports the cards a scan of
/// `y` reports.
pub proof fn lemma_slots_shift(x: Seq<char>, y: Seq<char>, k: int)
    requires
        0 <= k,
    ensures
        cards(slots_from(x + y, x.len() + k)) == cards(slots_from(y, k)),
    decreases y.len() + 1 - k,
{
    lemma_open_shift(x, y, k);
    lemma_widget_open_from(y, k);
    match widget_open_from(y, k) {
        None => {
            assert(cards(slots_from(x + y, x.len() + k)) == cards(slots_from(y, k)));
        },
        Some(start) => {
            lemma_block_end(y, start);
            lemma_block_end_shift(x, y, start);
            let end = block_end(y, start);
            lemma_slot_shift(x, y, start, end);
            lemma_slots_shift(x, y, end);
            let l = slots_from(x + y, x.len() + k);
            let r = slots_from(y, k);
            assert(l == seq![slot_at(x + y, x.len() + start, x.len() + end)] + slots_from(
                x + y,
                x.len() + end,
            ));
            assert(r == seq![slot_at(y, start, end)] + slots_from(y, end));
            lemma_cards_cons(slot_at(x + y, x.len() + start, x.len() + end), slots_from(x + y, x.len() + end));
            lemma_cards_cons(slot_at(y, start, end), slots_from(y, end));
        },
    }
}

// ───────────────────────── scanning a block at the front ─────────────────────────

/// Positions without an occurrence are skipped by a search.
pub proof fn lemma_find_skip(s: Seq<char>, pat: Seq<char>, from: int, to: int)
    requires
        0 <= from <= to,
        forall|j: int| from <= j < to ==> !occurs_at(s, pat, j),
    ensures
        find_from(s, pat, from) == find_from(s, pat, to),
    decreases to - from,
{
    if from < to {
        lemma_find_skip(s, pat, from + 1, to);
        if from + pat.len() > s.len() {
            lemma_find_from(s, pat, to);
        }
    }
}

/// Text without `<` holds no widget, so a scan passes over it.
pub proof fn lemma_plain_prefix(w: Seq<char>, t: Seq<char>)
    requires
        forall|i: int| 0 <= i < w.len() ==> w[i] != '<',
    ensures
        cards(slots_of(w + t)) == cards(slots_of(t)),
{
    let s = w + t;
    assert forall|j: int| 0 <= j < w.len() implies !occurs_at(s, open_tag(), j) by {
        if occurs_at(s, open_tag(), j) {
            assert(s.subrange(j, j + 9)[0] == s[j]);
            assert(s[j] == w[j]);
        }
    }
    lemma_find_skip(s, open_tag(), 0, w.len() as int);
    assert(widget_open_from(s, 0) == widget_open_from(s, w.len() as int));
    assert(slots_from(s, 0) == slots_from(s, w.len() as int));
    lemma_slots_shift(w, t, 0);
}

/// An occurrence found in `b` is found in any extension of `b`.
pub proof fn lemma_find_extend(b: Seq<char>, r: Seq<char>, pat: Seq<char>, k: int)
    requires
        0 <= k,
        find_from(b, pat, k) is Some,
    ensures
        find_from(b + r, pat, k) == find_from(b, pat, k),
{
    lemma_find_from(b, pat, k);
    let p = find_from(b, pat, k)->0;
    assert((b + r).subrange(p, p + pat.len()) == b.subrange(p, p + pat.len()));
    assert forall|j: int| k <= j < p implies !occurs_at(b + r, pat, j) by {
        assert(!occurs_at(b, pat, j));
        assert(j + pat.len() <= b.len());
        assert((b + r).subrange(j, j + pat.len()) == b.subrange(j, j + pat.len()));
    }
    lemma_find_from_first(b + r, pat, k, p);
}

/// A complete block: a real widget opening tag at the front and its first
/// closing tag at the very end.
pub open spec fn closed_block(b: Seq<char>) -> bool {
    &&& b.len() >= 20
    &&& is_widget_open_at(b, 0)
    &&& find_from(b, close_tag(), 9) == Some(b.len() - 11)
}

/// A block that runs to the end of the buffer: a real widget opening tag at the
/// front and no closing tag after it.
pub open spec fn open_block(b: Seq<char>) -> bool {
    &&& b.len() >= 9
    &&& is_widget_open_at(b, 0)
    &&& find_from(b, close_tag(), 9) is None
}

/// The card of a block text.
pub open spec fn block_card(b: Seq<char>) -> (Seq<char>, Seq<char>, Seq<char>, bool) {
    card(slot_at(b, 0, b.len() as int))
}

/// A complete block at the front of a text is reported first, on its own.
pub proof fn lemma_block_front(b: Seq<char>, r: Seq<char>)
    requires
        closed_block(b),
    ensures
        cards(slots_of(b + r)) == seq![block_card(b)] + cards(slots_of(r)),
{
    let s = b + r;
    assert(s.subrange(0, 9) == b.subrange(0, 9));
    assert(s[9] == b[9]);
    assert(find_from(s, open_tag(), 0) == Some(0int));
    assert(widget_open_from(s, 0) == Some(0int));
    lemma_find_extend(b, r, close_tag(), 9);
    assert(block_end(s, 0) == b.len());
    assert(s.take(b.len() as int) == b);
    assert(b.take(b.len() as int) == b);
    lemma_tag_end_of(b, 0, b.len() as int);
    let te = tag_end_of(b, 0, b.len() as int);
    assert(tag_end_of(s, 0, b.len() as int) == te);
    assert(s.subrange(0, te) == b.subrange(0, te));
    assert(slot_at(s, 0, b.len() as int) == slot_at(b, 0, b.len() as int));
    assert(slots_from(s, 0) == seq![slot_at(s, 0, b.len() as int)] + slots_from(s, b.len() as int));
    lemma_cards_cons(slot_at(s, 0, b.len() as int), slots_from(s, b.len() as int));
    lemma_slots_shift(b, r, 0);
}

/// A block running to the end of the buffer is reported on its own.
pub proof fn lemma_block_alone(b: Seq<char>)
    requires
        open_block(b),
    ensures
        cards(slots_of(b)) == seq![block_card(b)],
{
    assert(b.subrange(0, 9) == open_tag());
    assert(find_from(b, open_tag(), 0) == Some(0int));
    assert(widget_open_from(b, 0) == Some(0int));
    assert(block_end(b, 0) == b.len());
    lemma_find_from(b, open_tag(), b.len() as int);
    assert(widget_open_from(b, b.len() as int) is None);
    assert(slots_from(b, b.len() as int) == Seq::<SlotSpec>::empty());
    assert(slots_from(b, 0) == seq![slot_at(b, 0, b.len() as int)]);
    assert(cards(seq![slot_at(b, 0, b.len() as int)]) =~= seq![block_card(b)]);
}

/// The first real widget opening tag at or after `from` is what the scan finds.
pub proof fn lemma_widget_open_first(s: Seq<char>, from: int, p: int)
    requires
        0 <= from <= p,
        is_widget_open_at(s, p),
        forall|k: int| from <= k < p ==> !is_widget_open_at(s, k),
    ensures
        widget_open_from(s, from) == Some(p),
{
    lemma_widget_open_from(s, from);
}

// ───────────────────────── scanning joined blocks ─────────────────────────

/// Joining splits off the first part.
pub proof fn lemma_join_front(bs: Seq<Seq<char>>, sep: Seq<char>)
    requires
        bs.len() >= 2,
    ensures
        join(bs, sep) == bs[0] + sep + join(bs.skip(1), sep),
    decreases bs.len(),
{
    let rest = bs.skip(1);
    if bs.len() == 2 {
        assert(bs.drop_last().len() == 1);
        assert(join(bs.drop_last(), sep) == bs.drop_last()[0]);
        assert(bs.drop_last()[0] == bs[0]);
        assert(rest.len() == 1);
        assert(join(rest, sep) == rest[0]);
        assert(rest[0] == bs.last());
    } else {
        lemma_join_front(bs.drop_last(), sep);
        assert(bs.drop_last().skip(1) == rest.drop_last());
        assert(bs.drop_last()[0] == bs[0]);
        assert(rest.last() == bs.last());
        let a = join(rest.drop_last(), sep);
        assert(join(bs, sep) == join(bs.drop_last(), sep) + sep + bs.last());
        assert(join(rest, sep) == a + sep + rest.last());
        assert(join(bs, sep) =~= bs[0] + sep + join(rest, sep));
    }
}

/// A complete block, a newline, then more text: the block's card, then what
/// the text reports.
pub proof fn lemma_block_then_text(b: Seq<char>, tail: Seq<char>)
    requires
        closed_block(b),
    ensures
        cards(slots_of(b + (seq!['\n'] + tail))) == seq![block_card(b)] + cards(slots_of(tail)),
{
    let nl = seq!['\n'];
    lemma_block_front(b, nl + tail);
    lemma_plain_prefix(nl, tail);
}

/// Blocks joined by newlines, followed by text without widgets, are reported
/// one card per block, in order.
#[verifier::spinoff_prover]
#[verifier::rlimit(40)]
pub proof fn lemma_blocks_parse(bs: Seq<Seq<char>>, post: Seq<char>)
    requires
        bs.len() >= 1,
        forall|i: int| 0 <= i < bs.len() - 1 ==> closed_block(#[trigger] bs[i]),
        (closed_block(bs.last()) && slots_of(post).len() == 0) || (open_block(bs.last())
            && post.len() == 0),
    ensures
        cards(slots_of(join(bs, seq!['\n']) + post)) == bs.map_values(|b: Seq<char>| block_card(b)),
    decreases bs.len(),
{
    let nl = seq!['\n'];
    if bs.len() == 1 {
        assert(join(bs, nl) == bs[0]);
        if closed_block(bs.last()) {
            lemma_block_front(bs[0], post);
            assert(cards(slots_of(post)) =~= Seq::empty());
        } else {
            assert(bs[0] + post == bs[0]);
            lemma_block_alone(bs[0]);
        }
        assert(bs.map_values(|b: Seq<char>| block_card(b)) =~= seq![block_card(bs[0])]);
    } else {
        let rest = bs.skip(1);
        lemma_join_front(bs, nl);
        let tail = join(rest, nl) + post;
        assert(join(bs, nl) + post =~= bs[0] + (nl + tail));
        lemma_block_then_text(bs[0], tail);
        assert forall|i: int| 0 <= i < rest.len() - 1 implies closed_block(#[trigger] rest[i]) by {
            assert(rest[i] == bs[i + 1]);
        }
        assert(rest.last() == bs.last());
        lemma_blocks_parse(rest, post);
        assert(bs.map_values(|b: Seq<char>| block_card(b)) =~= seq![block_card(bs[0])]
            + rest.map_values(|b: Seq<char>| block_card(b)));
    }
}

// ───────────────────────── the blocks of a buffer ─────────────────────────

/// The scan after a block continues with the blocks that follow it.
pub proof fn lemma_slots_tail(s: Seq<char>, cursor: int, i: int)
    requires
        0 <= cursor,
        0 <= i < slots_from(s, cursor).len(),
    ensures
        slots_from(s, slots_from(s, cursor)[i].end) == slots_from(s, cursor).skip(i + 1),
    decreases i,
{
    lemma_widget_open_from(s, cursor);
    let start = widget_open_from(s, cursor)->0;
    lemma_block_end(s, start);
    let end = block_end(s, start);
    let all = slots_from(s, cursor);
    assert(all == seq![slot_at(s, start, end)] + slots_from(s, end));
    if i == 0 {
        assert(all.skip(1) == slots_from(s, end));
    } else {
        assert(slots_from(s, end)[i - 1] == all[i]);
        lemma_slots_tail(s, end, i - 1);
        assert(slots_from(s, end).skip(i) == all.skip(i + 1));
    }
}

/// An occurrence found in an extension of `y`, lying inside `y`, is found in `y`.
pub proof fn lemma_find_restrict(y: Seq<char>, z: Seq<char>, pat: Seq<char>, k: int, p: int)
    requires
        0 <= k,
        find_from(y + z, pat, k) == Some(p),
        p + pat.len() <= y.len(),
    ensures
        find_from(y, pat, k) == Some(p),
{
    lemma_find_from(y + z, pat, k);
    assert((y + z).subrange(p, p + pat.len()) == y.subrange(p, p + pat.len()));
    assert forall|j: int| k <= j < p implies !occurs_at(y, pat, j) by {
        if occurs_at(y, pat, j) {
            assert(j + pat.len() <= y.len());
            assert((y + z).subrange(j, j + pat.len()) == y.subrange(j, j + pat.len()));
            assert(occurs_at(y + z, pat, j));
        }
    }
    lemma_find_from_first(y, pat, k, p);
}

/// A slot read in an extension of `b`, inside `b`, reads the same in `b`.
pub proof fn lemma_slot_prefix(b: Seq<char>, r: Seq<char>, e: int)
    requires
        0 <= e <= b.len(),
    ensures
        slot_at(b + r, 0, e) == slot_at(b, 0, e),
{
    assert((b + r).take(e) == b.take(e));
    lemma_tag_end_of(b, 0, e);
    let te = tag_end_of(b, 0, e);
    assert((b + r).subrange(0, te) == b.subrange(0, te));
}

/// The text of a buffer's block.
pub open spec fn block_text(s: Seq<char>, x: SlotSpec) -> Seq<char> {
    s.subrange(x.start, x.end)
}

/// Whether the last block of the buffer has its closing tag.
pub open spec fn last_block_closed(s: Seq<char>) -> bool {
    let sl = slots_of(s);
    sl.len() > 0 && find_from(s, close_tag(), sl.last().start + 9) is Some
}

/// The span of a block: where it starts and ends, and that it starts with a
/// real widget opening tag and ends at its block end.
pub proof fn lemma_block_span(s: Seq<char>, i: int)
    requires
        0 <= i < slots_of(s).len(),
    ensures
        ({
            let sl = slots_of(s);
            &&& 0 <= sl[i].start
            &&& sl[i].start + 9 <= sl[i].end <= s.len()
            &&& is_widget_open_at(s, sl[i].start)
            &&& sl[i].end == block_end(s, sl[i].start)
            &&& sl[i] == slot_at(s, sl[i].start, sl[i].end)
            &&& i < sl.len() - 1 ==> sl[i].end < s.len()
        }),
{
    let sl = slots_of(s);
    lemma_slots_from(s, 0);
    assert(sl[i] == slots_from(s, 0)[i]);
    if i < sl.len() - 1 {
        assert(sl[i + 1] == slots_from(s, 0)[i + 1]);
        assert(sl[i].end <= sl[i + 1].start);
    }
}

/// Blocks come in order and do not overlap.
pub proof fn lemma_slot_order(s: Seq<char>, a: int, b: int)
    requires
        0 <= a < b < slots_of(s).len(),
    ensures
        slots_of(s)[a].end <= slots_of(s)[b].start,
{
    lemma_slots_from(s, 0);
    assert(slots_of(s)[a] == slots_from(s, 0)[a]);
    assert(slots_of(s)[b] == slots_from(s, 0)[b]);
}

/// Each block's text carries the block's card.
pub proof fn lemma_block_text_card(s: Seq<char>, i: int)
    requires
        0 <= i < slots_of(s).len(),
    ensures
        block_card(block_text(s, slots_of(s)[i])) == card(slots_of(s)[i]),
{
    let sl = slots_of(s);
    lemma_block_span(s, i);
    let start = sl[i].start;
    let end = sl[i].end;
    let x = s.take(start);
    let y = s.subrange(start, end);
    let z = s.skip(end);
    assert(s == x + (y + z));
    lemma_slot_shift(x, y + z, 0, y.len() as int);
    lemma_slot_prefix(y, z, y.len() as int);
}

/// Each block's text is a complete block; only the last one may run to the
/// end of the buffer, where it has no closing tag.
pub proof fn lemma_block_text(s: Seq<char>, i: int)
    requires
        0 <= i < slots_of(s).len(),
    ensures
        ({
            let sl = slots_of(s);
            let y = block_text(s, sl[i]);
            &&& (i < sl.len() - 1 || last_block_closed(s)) ==> closed_block(y)
            &&& (i == sl.len() - 1 && !last_block_closed(s)) ==> open_block(y) && sl[i].end
                == s.len()
        }),
{
    let sl = slots_of(s);
    lemma_block_span(s, i);
    let start = sl[i].start;
    let end = sl[i].end;
    let x = s.take(start);
    let y = s.subrange(start, end);
    let z = s.skip(end);
    assert(s == x + (y + z));
    lemma_find_shift(x, y + z, close_tag(), 9);
    lemma_find_from(s, close_tag(), start + 9);
    assert(y.subrange(0, 9) == s.subrange(start, start + 9));
    match find_from(s, close_tag(), start + 9) {
        Some(c) => {
            assert(end == c + 11);
            lemma_find_restrict(y, z, close_tag(), 9, c - start);
            assert(y[9] == s[start + 9]);
        },
        None => {
            assert(end == s.len());
            assert(z.len() == 0);
            assert(y + z == y);
            if 9 < y.len() {
                assert(y[9] == s[start + 9]);
            }
        },
    }
}

/// Text before the first widget is passed over by a scan, whatever block follows it.
pub proof fn lemma_prefix_scan(s: Seq<char>, pre: Seq<char>, t: Seq<char>)
    requires
        s.len() >= pre.len() + 9,
        s.take(pre.len() as int) == pre,
        widget_open_from(s, 0) == Some(pre.len() as int),
        s.subrange(pre.len() as int, pre.len() + 9int) == open_tag(),
        t.len() >= 9,
        is_widget_open_at(t, 0),
    ensures
        cards(slots_of(pre + t)) == cards(slots_of(t)),
{
    let out = pre + t;
    let c: int = pre.len() + 9int;
    lemma_widget_open_from(s, 0);
    assert(t.subrange(0, 9) == open_tag());
    assert(out.take(c) == s.take(c)) by {
        assert(out.take(c) =~= pre + open_tag());
        assert(s.take(c) =~= s.take(pre.len() as int) + s.subrange(pre.len() as int, c));
    }
    assert forall|k: int| 0 <= k < pre.len() implies !is_widget_open_at(out, k) by {
        assert(out.subrange(k, k + 9) == s.subrange(k, k + 9)) by {
            assert(out.subrange(k, k + 9) == out.take(c).subrange(k, k + 9));
            assert(s.subrange(k, k + 9) == s.take(c).subrange(k, k + 9));
        }
        assert(out[k + 9] == out.take(c)[k + 9]);
        assert(s[k + 9] == s.take(c)[k + 9]);
        assert(!is_widget_open_at(s, k));
        assert(k + 9 < out.len());
        assert(k + 9 < s.len());
        assert(occurs_at(out, open_tag(), k) == occurs_at(s, open_tag(), k));
    }
    lemma_occurs_shift(pre, t, open_tag(), 0);
    if 9 < t.len() {
        assert(out[pre.len() + 9int] == t[9]);
    }
    assert(is_widget_open_at(out, pre.len() as int));
    lemma_widget_open_first(out, 0, pre.len() as int);
    lemma_widget_open_first(out, pre.len() as int, pre.len() as int);
    assert(slots_from(out, 0) == slots_from(out, pre.len() as int));
    lemma_slots_shift(pre, t, 0);
}

/// After the last block the buffer holds no widget.
#[verifier::spinoff_prover]
#[verifier::rlimit(40)]
pub proof fn lemma_no_slots_after_last(s: Seq<char>)
    requires
        slots_of(s).len() > 0,
    ensures
        slots_of(s.skip(slots_of(s).last().end)).len() == 0,
{
    let sl = slots_of(s);
    let n = sl.len();
    lemma_block_span(s, n - 1);
    let end = sl.last().end;
    lemma_slots_tail(s, 0, n - 1);
    assert(sl.skip(n as int) == Seq::<SlotSpec>::empty());
    assert(s == s.take(end) + s.skip(end));
    lemma_slots_shift(s.take(end), s.skip(end), 0);
    assert(cards(slots_from(s, end)).len() == 0);
}

} // verus!
