//! The widget parts of a module are its Layout cards: `parse_parts` lists
//! one `Widget` part per block `parse_slots` finds, numbered in order, where
//! no widget hides inside a section's tag or a `{{…}}` token and every token
//! the walk meets before the last widget is closed.
use super::scan::{card, cards, lemma_cards_cons, lemma_widget_open_first};
use crate::text::{find_char_from, find_from, lemma_find_char_from, lemma_find_from};
use crate::widget_layout::parts::{
    lemma_nearest_at, nearest_at, parts_from, section_close, section_open, token_close, PartSpec,
};
use crate::widget_layout::{
    block_end, is_widget_open_at, lemma_block_end, lemma_widget_open_from, slot_at, slots_from,
    slots_of, widget_open_from,
};
use vstd::prelude::*;

verus! {

/// No real widget opening tag starts in `s[a..b]`.
pub open spec fn no_open_in(s: Seq<char>, a: int, b: int) -> bool {
    forall|k: int| a <= k < b ==> !#[trigger] is_widget_open_at(s, k)
}

/// The parts walk from `cursor` passes no widget: every section tag and
/// `{{…}}` token it steps over holds no real widget opening tag, and a token
/// left unclosed has no widget after it.
pub open spec fn walk_clean(s: Seq<char>, cursor: int) -> bool
    decreases s.len() + 1 - cursor,
{
    if cursor < 0 || cursor >= s.len() {
        true
    } else {
        proof {
            lemma_nearest_at(s, cursor);
        }
        match nearest_at(s, cursor) {
            None => true,
            Some(c) => {
                let pos = c.0;
                if c.1 == 0 {
                    proof {
                        lemma_widget_open_from(s, cursor);
                        lemma_block_end(s, pos);
                    }
                    walk_clean(s, block_end(s, pos))
                } else if c.1 == 1 {
                    proof {
                        lemma_find_from(s, section_open(), cursor);
                        lemma_find_char_from(s, '>', pos);
                    }
                    let close = section_close(s, pos);
                    no_open_in(s, pos, close) && walk_clean(s, close)
                } else {
                    match find_from(s, token_close(), pos) {
                        None => widget_open_from(s, pos) is None,
                        Some(p) => {
                            proof {
                                lemma_find_from(s, token_close(), pos);
                            }
                            no_open_in(s, pos, p + 2) && walk_clean(s, p + 2)
                        },
                    }
                }
            },
        }
    }
}

/// A Layout card with its number.
pub type NumberedCard = (int, (Seq<char>, Seq<char>, Seq<char>, bool));

/// A `Widget` part as its slot number and card; nothing for another part.
pub open spec fn own_card(x: PartSpec) -> Seq<NumberedCard> {
    match x {
        PartSpec::Widget { slot, id, w_type, title, visible } => seq![
            (slot, (id, w_type, title, visible)),
        ],
        _ => Seq::empty(),
    }
}

/// The `Widget` parts, each as its slot number and card.
pub open spec fn widget_cards(ps: Seq<PartSpec>) -> Seq<NumberedCard>
    decreases ps.len(),
{
    if ps.len() == 0 {
        Seq::empty()
    } else {
        own_card(ps[0]) + widget_cards(ps.drop_first())
    }
}

/// Cards numbered from `k`.
pub open spec fn numbered(cs: Seq<(Seq<char>, Seq<char>, Seq<char>, bool)>, k: int) -> Seq<NumberedCard> {
    Seq::new(cs.len(), |j: int| (k + j, cs[j]))
}

/// Stepping over text without a real widget opening tag finds the same next
/// widget.
pub proof fn lemma_open_skip(s: Seq<char>, a: int, b: int)
    requires
        0 <= a <= b,
        no_open_in(s, a, b),
    ensures
        widget_open_from(s, a) == widget_open_from(s, b),
        slots_from(s, a) == slots_from(s, b),
{
    lemma_widget_open_from(s, a);
    lemma_widget_open_from(s, b);
    if widget_open_from(s, a) is Some {
        let p = widget_open_from(s, a)->0;
        if p < b {
            assert(!is_widget_open_at(s, p));
        }
        lemma_widget_open_first(s, b, p);
    } else if widget_open_from(s, b) is Some {
        let p = widget_open_from(s, b)->0;
        assert(!is_widget_open_at(s, p));
    }
}

/// A part followed by others: its widget card, if any, then theirs.
pub proof fn lemma_widget_cards_cons(x: PartSpec, rest: Seq<PartSpec>)
    ensures
        widget_cards(seq![x] + rest) == own_card(x) + widget_cards(rest),
{
    assert((seq![x] + rest)[0] == x);
    assert((seq![x] + rest).drop_first() =~= rest);
}

/// From any cursor of a clean walk, the widget parts are the cards of the
/// blocks from there, numbered from the walk's slot.
#[verifier::spinoff_prover]
#[verifier::rlimit(60)]
pub proof fn lemma_walk_cards(s: Seq<char>, cursor: int, k: int)
    requires
        0 <= cursor,
        walk_clean(s, cursor),
    ensures
        widget_cards(parts_from(s, cursor, k)) == numbered(cards(slots_from(s, cursor)), k),
    decreases s.len() + 1 - cursor,
{
    lemma_widget_open_from(s, cursor);
    if cursor >= s.len() {
        assert(widget_open_from(s, cursor) is None);
        assert(numbered(cards(slots_from(s, cursor)), k) =~= Seq::empty());
    } else {
        lemma_nearest_at(s, cursor);
        match nearest_at(s, cursor) {
            None => {
                assert(widget_open_from(s, cursor) is None);
                assert(numbered(cards(slots_from(s, cursor)), k) =~= Seq::empty());
            },
            Some(c) => {
                let pos = c.0;
                if c.1 == 0 {
                    lemma_block_end(s, pos);
                    let end = block_end(s, pos);
                    lemma_walk_cards(s, end, k + 1);
                    let x = slot_at(s, pos, end);
                    let w = parts_from(s, cursor, k)[0];
                    let rest = parts_from(s, end, k + 1);
                    assert(parts_from(s, cursor, k) == seq![w] + rest);
                    lemma_widget_cards_cons(w, rest);
                    assert(slots_from(s, cursor) == seq![x] + slots_from(s, end));
                    lemma_cards_cons(x, slots_from(s, end));
                    assert(numbered(cards(slots_from(s, cursor)), k) =~= seq![(k, card(x))] + numbered(
                        cards(slots_from(s, end)),
                        k + 1,
                    ));
                } else {
                    // no widget before `pos`: the nearest would have been one
                    assert(no_open_in(s, cursor, pos + 1)) by {
                        assert forall|j: int| cursor <= j < pos + 1 implies !#[trigger] is_widget_open_at(s, j) by {
                            if is_widget_open_at(s, j) {
                                let w = widget_open_from(s, cursor)->0;
                                assert(widget_open_from(s, cursor) is Some);
                                assert(w <= j);
                            }
                        }
                    }
                    if c.1 == 1 {
                        lemma_find_from(s, section_open(), cursor);
                        lemma_find_char_from(s, '>', pos);
                        let close = section_close(s, pos);
                        assert(no_open_in(s, cursor, close));
                        lemma_open_skip(s, cursor, close);
                        lemma_walk_cards(s, close, k);
                        let sec = parts_from(s, cursor, k)[0];
                        let rest = parts_from(s, close, k);
                        assert(parts_from(s, cursor, k) == seq![sec] + rest);
                        lemma_widget_cards_cons(sec, rest);
                        assert(widget_cards(parts_from(s, cursor, k)) =~= widget_cards(rest));
                    } else {
                        lemma_find_from(s, token_close(), pos);
                        match find_from(s, token_close(), pos) {
                            None => {
                                lemma_widget_open_from(s, pos);
                                assert(no_open_in(s, cursor, pos));
                                lemma_open_skip(s, cursor, pos);
                                assert(numbered(cards(slots_from(s, cursor)), k) =~= Seq::empty());
                            },
                            Some(p) => {
                                assert(no_open_in(s, cursor, p + 2));
                                lemma_open_skip(s, cursor, p + 2);
                                lemma_walk_cards(s, p + 2, k);
                                let tok = parts_from(s, cursor, k)[0];
                                let rest = parts_from(s, p + 2, k);
                                assert(parts_from(s, cursor, k) == seq![tok] + rest);
                                lemma_widget_cards_cons(tok, rest);
                                assert(widget_cards(parts_from(s, cursor, k)) =~= widget_cards(rest));
                            },
                        }
                    }
                }
            },
        }
    }
}

/// The widget parts are the Layout cards: where no widget hides inside a
/// section's tag or a `{{…}}` token (and a token left unclosed comes after
/// the last widget), `parse_parts` lists one `Widget` part per block of
/// `parse_slots`, in order, the `k`-th numbered `k` and showing that block's
/// id, type, title and visibility.
pub proof fn law_widget_parts_are_cards(s: Seq<char>)
    requires
        walk_clean(s, 0),
    ensures
        widget_cards(parts_from(s, 0, 0)) == numbered(cards(slots_of(s)), 0),
{
    lemma_walk_cards(s, 0, 0);
}

} // verus!
