//! Reading an attribute of a tag whose span `lo..hi` was rewritten: where the
//! reading lies clear of the span, it reads the same.
use super::field_edit::{lemma_find_char_moved, lemma_find_char_prefix, lemma_moved};
use super::title::lemma_find_same_prefix;
use crate::text::{
    find_char_from, find_from, lemma_find_char_from, lemma_find_from, lemma_find_from_first,
    lemma_find_from_none, occurs_at,
};
use crate::widget_layout::{attr_or, attr_pat, attr_q, attr_value};
use vstd::prelude::*;

verus! {

/// No occurrence of `pat` in `t` touches the span `lo..hi` (for an empty span,
/// straddles the point `lo`).
pub open spec fn untouched(t: Seq<char>, pat: Seq<char>, lo: int, hi: int) -> bool {
    forall|k: int| #[trigger] occurs_at(t, pat, k) ==> k >= hi || k + pat.len() <= lo
}

/// The reading of `name=q` in `t` lies clear of the span `lo..hi`: no
/// occurrence of the pattern touches the span, and the first one, if any,
/// starts after the span or is read, to its closing quote, before it.
pub open spec fn reads_clear(t: Seq<char>, name: Seq<char>, q: char, lo: int, hi: int) -> bool {
    let pat = attr_pat(name, q);
    &&& untouched(t, pat, lo, hi)
    &&& match find_from(t, pat, 0) {
        None => true,
        Some(p) => p >= hi || (find_char_from(t, q, p + pat.len()) matches Some(e) && e < lo),
    }
}

/// Both quotings of an attribute are read clear of the span.
pub open spec fn attr_clear(t: Seq<char>, name: Seq<char>, lo: int, hi: int) -> bool {
    reads_clear(t, name, '\'', lo, hi) && reads_clear(t, name, '"', lo, hi)
}

/// A quoted reading clear of a rewritten span reads the same after it, where
/// the new text brings no occurrence of the pattern across it.
pub proof fn lemma_reading_kept(t: Seq<char>, u: Seq<char>, m: Seq<char>, lo: int, hi: int, name: Seq<char>, q: char)
    requires
        0 <= lo <= hi <= t.len(),
        u == t.take(lo) + m + t.skip(hi),
        reads_clear(t, name, q, lo, hi),
        untouched(u, attr_pat(name, q), lo, lo + m.len()),
    ensures
        attr_q(u, name, q) == attr_q(t, name, q),
{
    let pat = attr_pat(name, q);
    let l = pat.len() as int;
    let d = m.len() - (hi - lo);
    lemma_moved(t, u, m, lo, hi);
    lemma_find_from(t, pat, 0);
    assert(u.take(lo) =~= t.take(lo));
    match find_from(t, pat, 0) {
        None => {
            assert forall|k: int| 0 <= k implies !occurs_at(u, pat, k) by {
                if occurs_at(u, pat, k) {
                    if k + l <= lo {
                        assert(u.subrange(k, k + l) =~= t.subrange(k, k + l));
                        assert(occurs_at(t, pat, k));
                    } else {
                        assert(u.subrange(k, k + l) =~= t.subrange(k - d, k - d + l));
                        assert(occurs_at(t, pat, k - d));
                    }
                }
            }
            lemma_find_from_none(u, pat, 0);
        },
        Some(p) => {
            if p >= hi {
                assert(u.subrange(p + d, p + d + l) =~= t.subrange(p, p + l));
                assert forall|k: int| 0 <= k < p + d implies !occurs_at(u, pat, k) by {
                    if occurs_at(u, pat, k) {
                        if k + l <= lo {
                            assert(u.subrange(k, k + l) =~= t.subrange(k, k + l));
                            assert(occurs_at(t, pat, k));
                        } else {
                            assert(u.subrange(k, k + l) =~= t.subrange(k - d, k - d + l));
                            assert(occurs_at(t, pat, k - d));
                        }
                    }
                }
                lemma_find_from_first(u, pat, 0, p + d);
                lemma_find_char_moved(t, u, m, lo, hi, q, p + l);
                lemma_find_char_from(t, q, p + l);
                if find_char_from(t, q, p + l) is Some {
                    let e = find_char_from(t, q, p + l)->0;
                    assert(u.subrange(p + d + l, e + d) =~= t.subrange(p + l, e));
                }
            } else {
                lemma_find_char_from(t, q, p + l);
                assert(u.take(p + l) =~= t.take(p + l));
                lemma_find_same_prefix(t, u, pat, p);
                lemma_find_char_prefix(t, u, q, p + l, lo);
                let e = find_char_from(t, q, p + l)->0;
                assert(u.subrange(p + l, e) =~= t.subrange(p + l, e));
            }
        },
    }
}

/// An attribute read clear of a rewritten span, in both quotings, reads the
/// same after it.
pub proof fn lemma_attr_kept(t: Seq<char>, u: Seq<char>, m: Seq<char>, lo: int, hi: int, name: Seq<char>)
    requires
        0 <= lo <= hi <= t.len(),
        u == t.take(lo) + m + t.skip(hi),
        attr_clear(t, name, lo, hi),
        untouched(u, attr_pat(name, '\''), lo, lo + m.len()),
        untouched(u, attr_pat(name, '"'), lo, lo + m.len()),
    ensures
        attr_value(u, name) == attr_value(t, name),
        forall|dflt: Seq<char>| attr_or(u, name, dflt) == attr_or(t, name, dflt),
{
    lemma_reading_kept(t, u, m, lo, hi, name, '\'');
    lemma_reading_kept(t, u, m, lo, hi, name, '"');
}

} // verus!
