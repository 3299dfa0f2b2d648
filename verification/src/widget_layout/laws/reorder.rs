//! Moving a widget moves its card.
use super::scan::{
    card, cards, closed_block, open_block, block_card, lemma_join_front, lemma_blocks_parse,
    block_text, last_block_closed, lemma_block_span, lemma_block_text_card, lemma_block_text,
    lemma_prefix_scan, lemma_no_slots_after_last,
};
use crate::text::join;
use crate::widget_layout::{
    block_texts, lemma_move_item_index, lemma_slots_from, lemma_widget_open_from, move_item,
    moved_source, reorder_spec, slots_of, widget_open_from,
};
use vstd::prelude::*;

verus! {

// ───────────────────────── reorder ─────────────────────────

/// The moved blocks meet what `lemma_blocks_parse` asks of them.
pub proof fn lemma_moved_blocks(s: Seq<char>, from: int, to: int)
    requires
        0 <= from < slots_of(s).len(),
        0 <= to < slots_of(s).len(),
        from != to,
        last_block_closed(s) || (from != slots_of(s).len() - 1 && to != slots_of(s).len() - 1),
    ensures
        ({
            let sl = slots_of(s);
            let bs = move_item(block_texts(s, sl), from, to);
            let post = s.skip(sl.last().end);
            &&& bs.len() == sl.len()
            &&& forall|i: int| 0 <= i < bs.len() - 1 ==> closed_block(#[trigger] bs[i])
            &&& (closed_block(bs.last()) && slots_of(post).len() == 0) || (open_block(bs.last())
                && post.len() == 0)
        }),
{
    let sl = slots_of(s);
    let n = sl.len();
    let texts = block_texts(s, sl);
    let bs = move_item(texts, from, to);
    let post = s.skip(sl.last().end);
    assert forall|i: int| 0 <= i < bs.len() - 1 implies closed_block(#[trigger] bs[i]) by {
        lemma_move_item_index(texts, from, to, i);
        let j = moved_source(i, from, to);
        lemma_block_text(s, j);
        assert(texts[j] == block_text(s, sl[j]));
    }
    lemma_move_item_index(texts, from, to, n - 1);
    let j = moved_source(n - 1, from, to);
    lemma_block_text(s, j);
    assert(texts[j] == block_text(s, sl[j]));
    assert(bs.last() == bs[n - 1]);
    lemma_no_slots_after_last(s);
    if !last_block_closed(s) {
        assert(j == n - 1);
        assert(post.len() == 0);
    }
}

/// Moving a widget in the buffer moves its card: a reparse shows the cards in
/// the new order. (A last widget without its closing tag swallows whatever is
/// moved behind it, so such a move is left out.)
#[verifier::spinoff_prover]
#[verifier::rlimit(60)]
pub proof fn law_reorder_moves_card(s: Seq<char>, from: int, to: int)
    requires
        0 <= from < slots_of(s).len(),
        0 <= to < slots_of(s).len(),
        from == to || last_block_closed(s) || (from != slots_of(s).len() - 1 && to
            != slots_of(s).len() - 1),
    ensures
        cards(slots_of(reorder_spec(s, from, to))) == move_item(cards(slots_of(s)), from, to),
{
    let sl = slots_of(s);
    let n = sl.len();
    if from == to {
        assert(move_item(cards(sl), from, to) =~= cards(sl));
        return;
    }
    let texts = block_texts(s, sl);
    let bs = move_item(texts, from, to);
    let nl = seq!['\n'];
    let pre = s.take(sl[0].start);
    let post = s.skip(sl.last().end);
    let j = join(bs, nl);
    let out = reorder_spec(s, from, to);
    assert(out == pre + (j + post));
    lemma_moved_blocks(s, from, to);
    lemma_blocks_parse(bs, post);
    // the first block of the result starts with a real opening tag
    lemma_move_item_index(texts, from, to, 0);
    lemma_block_text(s, moved_source(0, from, to));
    assert(bs[0] == block_text(s, sl[moved_source(0, from, to)]));
    if bs.len() >= 2 {
        lemma_join_front(bs, nl);
        assert(j + post == bs[0] + (nl + join(bs.skip(1), nl) + post));
    } else {
        assert(j == bs[0]);
    }
    assert((j + post).subrange(0, 9) == bs[0].subrange(0, 9));
    if 9 < bs[0].len() {
        assert((j + post)[9] == bs[0][9]);
    }
    // the text before the first widget
    lemma_block_span(s, 0);
    lemma_slots_from(s, 0);
    lemma_widget_open_from(s, 0);
    assert(widget_open_from(s, 0) == Some(sl[0].start));
    lemma_prefix_scan(s, pre, j + post);
    // cards of the moved blocks
    let got = bs.map_values(|b: Seq<char>| block_card(b));
    let want = move_item(cards(sl), from, to);
    assert forall|i: int| 0 <= i < n implies #[trigger] got[i] == want[i] by {
        lemma_move_item_index(texts, from, to, i);
        lemma_move_item_index(cards(sl), from, to, i);
        let k = moved_source(i, from, to);
        lemma_block_text_card(s, k);
        assert(texts[k] == block_text(s, sl[k]));
    }
    lemma_move_item_index(cards(sl), from, to, 0);
    assert(got =~= want);
}

} // verus!
