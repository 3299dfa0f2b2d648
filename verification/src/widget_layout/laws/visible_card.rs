//! Setting a widget's visibility keeps the rest of its card: id, type and
//! title read as before, where the tag names `visible` once and those
//! readings lie clear of the rewritten span.
use super::reading::{attr_clear, lemma_attr_kept, untouched};
use super::scan::cards;
use super::set_visible::{lemma_before, lemma_block_head, lemma_rewritten_head, law_set_visible_shows_flag};
use super::title_card::{bare_name, lemma_untouched_between, lemma_untouched_inserted};
use super::title::avoids;
use super::visible::lemma_visible_tag_edit;
use super::visible_tag::{flag_word, lemma_flag_word, lemma_occ_char};
use crate::text::{
    find_char_from, find_from, lemma_find_char_from, lemma_find_from, lemma_find_from_first,
    lemma_find_from_none, occurs_at,
};
use crate::widget_layout::{
    attr_or, attr_pat, attr_q, attr_value, default_type, name_id, name_title, name_type, name_visible, open_tag,
    quoted_attr, replace_first, set_visible_spec, slots_of, tag_end_of, visible_tag,
};
use vstd::prelude::*;

verus! {

/// The tag names `visible` at most once.
pub open spec fn single_visible(tag: Seq<char>) -> bool {
    forall|k1: int, k2: int|
        #![trigger occurs_at(tag, name_visible(), k1), occurs_at(tag, name_visible(), k2)]
        occurs_at(tag, name_visible(), k1) && occurs_at(tag, name_visible(), k2) ==> k1 == k2
}

/// The quote the tag's `visible` value is read with.
pub open spec fn visible_quote(tag: Seq<char>) -> char {
    if attr_q(tag, name_visible(), '\'') is Some {
        '\''
    } else {
        '"'
    }
}

/// Where a visibility edit rewrites the tag: the value's span, or the point
/// after `<b:widget` where the attribute is inserted.
pub open spec fn visible_span(tag: Seq<char>) -> (int, int) {
    if attr_value(tag, name_visible()) is None {
        (9, 9)
    } else {
        let q = visible_quote(tag);
        let p = find_from(tag, attr_pat(name_visible(), q), 0)->0;
        (p + 9, find_char_from(tag, q, p + 9)->0)
    }
}

/// Where the rewritten value is read: the first `visible=q`, up to the next `q`.
pub proof fn lemma_visible_read(t: Seq<char>)
    requires
        attr_value(t, name_visible()) is Some,
    ensures
        ({
            let q = visible_quote(t);
            let pat = attr_pat(name_visible(), q);
            let p = find_from(t, pat, 0)->0;
            let e = find_char_from(t, q, p + 9)->0;
            &&& find_from(t, pat, 0) is Some
            &&& 0 <= p
            &&& occurs_at(t, pat, p)
            &&& find_char_from(t, q, p + 9) is Some
            &&& p + 9 <= e < t.len()
            &&& t[e] == q
            &&& forall|k: int| 0 <= k < p ==> !occurs_at(t, pat, k)
        }),
{
    let q = visible_quote(t);
    let pat = attr_pat(name_visible(), q);
    lemma_find_from(t, pat, 0);
    let p = find_from(t, pat, 0)->0;
    lemma_find_char_from(t, q, p + 9);
}

/// An attribute pattern of `visible` holds the name.
pub proof fn lemma_name_in_pattern(t: Seq<char>, pat: Seq<char>, k: int)
    requires
        pat.len() >= 7,
        pat.take(7) == name_visible(),
        occurs_at(t, pat, k),
    ensures
        occurs_at(t, name_visible(), k),
{
    assert(t.subrange(k, k + 7) =~= t.subrange(k, k + pat.len()).take(7));
}

/// After the value in the read quoting is rewritten, the other quoting of the
/// old value occurs nowhere in the tag.
#[verifier::spinoff_prover]
#[verifier::rlimit(40)]
pub proof fn lemma_other_quoting_absent(
    t: Seq<char>,
    t1: Seq<char>,
    p: int,
    pq: Seq<char>,
    with: Seq<char>,
    po: Seq<char>,
)
    requires
        single_visible(t),
        0 <= p,
        occurs_at(t, name_visible(), p),
        occurs_at(t, pq, p),
        t1 == t.take(p) + with + t.skip(p + pq.len()),
        with.len() >= 9,
        pq.len() >= 9,
        with.take(9) == pq.take(9),
        forall|j: int| 1 <= j < with.len() ==> #[trigger] with[j] != 'v',
        po.len() >= 9,
        po.take(7) == name_visible(),
        po[8] != pq[8],
        forall|k: int| !#[trigger] occurs_at(t, po, k),
    ensures
        forall|k: int| !#[trigger] occurs_at(t1, po, k),
{
    let d = with.len() - pq.len();
    assert forall|k: int| !#[trigger] occurs_at(t1, po, k) by {
        if occurs_at(t1, po, k) {
            lemma_occ_char(t1, po, k, k);
            assert(po[0] == 'v');
            if k + po.len() <= p {
                assert(t1.subrange(k, k + po.len()) =~= t.subrange(k, k + po.len()));
                assert(occurs_at(t, po, k));
            } else if k < p {
                assert(t.subrange(p, p + pq.len()) == pq);
                assert forall|j: int| k <= j < k + 7 implies t1[j] == t[j] by {
                    if j < p {
                        assert(t1[j] == t.take(p)[j]);
                    } else {
                        assert(t1[j] == with[j - p]);
                        assert(with[j - p] == with.take(9)[j - p]);
                        assert(t[j] == t.subrange(p, p + pq.len())[j - p]);
                        assert(pq[j - p] == pq.take(9)[j - p]);
                    }
                }
                assert forall|j: int| k <= j < k + 7 implies t[j] == name_visible()[j - k] by {
                    lemma_occ_char(t1, po, k, j);
                    assert(po[j - k] == po.take(7)[j - k]);
                }
                assert(t.subrange(k, k + 7) =~= name_visible());
                assert(occurs_at(t, name_visible(), k));
            } else if k == p {
                lemma_occ_char(t1, po, k, k + 8);
                assert(t1[p + 8] == with[8]);
                assert(with[8] == with.take(9)[8]);
                assert(pq[8] == pq.take(9)[8]);
            } else if k < p + with.len() {
                assert(t1[k] == with[k - p]);
            } else {
                assert(t1.subrange(k, k + po.len()) =~= t.subrange(k - d, k - d + po.len()));
                assert(occurs_at(t, po, k - d));
            }
        }
    }
}

/// In a tag naming `visible` once, the rewritten value is the only change:
/// the tag reads `t[..lo] + word + t[hi..]`.
#[verifier::spinoff_prover]
#[verifier::rlimit(60)]
pub proof fn lemma_visible_replaced(t: Seq<char>, v: bool)
    requires
        attr_value(t, name_visible()) is Some,
        single_visible(t),
    ensures
        ({
            let (lo, hi) = visible_span(t);
            &&& 9 <= lo <= hi < t.len()
            &&& (t[lo - 1] == '\'' || t[lo - 1] == '"')
            &&& (t[hi] == '\'' || t[hi] == '"')
            &&& visible_tag(t, v) == t.take(lo) + flag_word(v) + t.skip(hi)
        }),
{
    let q = visible_quote(t);
    let oq = if q == '\'' {
        '"'
    } else {
        '\''
    };
    lemma_visible_read(t);
    let pat = attr_pat(name_visible(), q);
    let p = find_from(t, pat, 0)->0;
    let e = find_char_from(t, q, p + 9)->0;
    let cur = t.subrange(p + 9, e);
    let want = flag_word(v);
    lemma_flag_word(v);
    let with = quoted_attr(name_visible(), q, want);
    let pq = quoted_attr(name_visible(), q, cur);
    let po = quoted_attr(name_visible(), oq, cur);
    assert(pat.take(7) =~= name_visible());
    lemma_name_in_pattern(t, pat, p);
    assert(t.subrange(p, p + 9) == pat);
    assert(t.subrange(p, e + 1) =~= pq);
    assert(occurs_at(t, pq, p));
    assert(pq.take(9) =~= pat);
    assert forall|k: int| 0 <= k < p implies !occurs_at(t, pq, k) by {
        if occurs_at(t, pq, k) {
            assert(t.subrange(k, k + 9) =~= t.subrange(k, k + pq.len()).take(9));
            assert(occurs_at(t, pat, k));
        }
    }
    lemma_find_from_first(t, pq, 0, p);
    let t1 = t.take(p) + with + t.skip(e + 1);
    assert(po.take(7) =~= name_visible());
    assert(with.take(9) =~= pq.take(9));
    assert forall|k: int| !#[trigger] occurs_at(t, po, k) by {
        if occurs_at(t, po, k) {
            lemma_name_in_pattern(t, po, k);
            assert(t[k + 8] == t.subrange(k, k + po.len())[8]);
            assert(t[p + 8] == t.subrange(p, p + 9)[8]);
        }
    }
    assert forall|j: int| 1 <= j < with.len() implies #[trigger] with[j] != 'v' by {
        if 9 <= j < 9 + want.len() {
            assert(with[j] == want[j - 9]);
            if v {
                assert(want =~= seq!['t', 'r', 'u', 'e']);
            } else {
                assert(want =~= seq!['f', 'a', 'l', 's', 'e']);
            }
        }
    }
    lemma_other_quoting_absent(t, t1, p, pq, with, po);
    assert(attr_value(t, name_visible()) == Some(cur));
    assert(t[p + 8] == pat[8]);
    lemma_find_from_none(t, po, 0);
    lemma_find_from_none(t1, po, 0);
    assert(replace_first(t, pq, with) =~= t1);
    if q == '\'' {
        assert(visible_tag(t, v) == replace_first(t1, po, quoted_attr(name_visible(), oq, want)));
    } else {
        assert(attr_q(t, name_visible(), '\'') is None);
        assert(visible_tag(t, v) == replace_first(replace_first(t, po, quoted_attr(name_visible(), oq, want)), pq, with));
    }
    assert(t1 =~= t.take(p + 9) + want + t.skip(e));
}

/// The tag with a `visible` attribute inserted after `<b:widget`.
pub proof fn lemma_visible_inserted_shape(t: Seq<char>, v: bool)
    requires
        t.len() >= 9,
        t.take(9) == open_tag(),
        attr_value(t, name_visible()) is None,
    ensures
        visible_tag(t, v) == t.take(9) + (seq![' '] + quoted_attr(name_visible(), '\'', flag_word(v)))
            + t.skip(9),
{
    assert(occurs_at(t, open_tag(), 0));
    lemma_find_from_first(t, open_tag(), 0, 0);
    assert(visible_tag(t, v) =~= t.take(9) + (seq![' '] + quoted_attr(
        name_visible(),
        '\'',
        flag_word(v),
    )) + t.skip(9));
}

/// An inserted `visible` attribute touches no pattern of a bare name other
/// than `visible`.
#[verifier::spinoff_prover]
#[verifier::rlimit(60)]
pub proof fn lemma_visible_inserted(t: Seq<char>, v: bool, name: Seq<char>, q: char)
    requires
        t.len() >= 9,
        t.take(9) == open_tag(),
        attr_value(t, name_visible()) is None,
        bare_name(name),
        name.len() > 17 || (open_tag() + seq![' '] + name_visible()).subrange(17 - name.len(), 17)
            != name,
        q == '\'' || q == '"',
    ensures
        ({
            let nt = visible_tag(t, v);
            let m = nt.subrange(9, nt.len() - (t.len() - 9));
            &&& 9 <= nt.len() - (t.len() - 9)
            &&& nt == t.take(9) + m + t.skip(9)
            &&& untouched(nt, attr_pat(name, q), 9, 9 + m.len() as int)
        }),
{
    let nt = visible_tag(t, v);
    let want = flag_word(v);
    lemma_flag_word(v);
    assert(avoids(want, '=')) by {
        if v {
            assert(want =~= seq!['t', 'r', 'u', 'e']);
        } else {
            assert(want =~= seq!['f', 'a', 'l', 's', 'e']);
        }
    }
    let with1 = quoted_attr(name_visible(), '\'', want);
    lemma_visible_inserted_shape(t, v);
    let m = seq![' '] + with1;
    assert(nt.subrange(9, nt.len() - (t.len() - 9)) =~= m);
    let h = open_tag() + seq![' '] + name_visible();
    assert(h =~= seq!['<', 'b', ':', 'w', 'i', 'd', 'g', 'e', 't', ' ', 'v', 'i', 's', 'i', 'b', 'l', 'e']);
    assert(nt.take(18) =~= h + seq!['=']);
    if name.len() <= 17 {
        assert forall|i: int| 17 - name.len() <= i < 17 implies nt[i] == h[i] by {
            assert(nt[i] == nt.take(18)[i]);
            assert(nt.take(18)[i] == (h + seq!['='])[i]);
        }
        assert(nt.subrange(17 - name.len(), 17) =~= h.subrange(17 - name.len(), 17));
    }
    assert(nt.subrange(19, 19 + want.len() as int) =~= want);
    lemma_untouched_inserted(nt, name_visible(), want, name, q);
}

/// A rewritten `visible` value touches no pattern of a bare name.
#[verifier::spinoff_prover]
pub proof fn lemma_visible_value_untouched(t: Seq<char>, v: bool, name: Seq<char>, q: char)
    requires
        attr_value(t, name_visible()) is Some,
        single_visible(t),
        bare_name(name),
        q == '\'' || q == '"',
    ensures
        ({
            let (lo, hi) = visible_span(t);
            let nt = visible_tag(t, v);
            let m = nt.subrange(lo, nt.len() - (t.len() - hi));
            &&& 0 <= lo <= hi <= t.len()
            &&& lo <= nt.len() - (t.len() - hi)
            &&& nt == t.take(lo) + m + t.skip(hi)
            &&& untouched(nt, attr_pat(name, q), lo, lo + m.len())
        }),
{
    let (lo, hi) = visible_span(t);
    let nt = visible_tag(t, v);
    let want = flag_word(v);
    lemma_flag_word(v);
    assert(avoids(want, '=')) by {
        if v {
            assert(want =~= seq!['t', 'r', 'u', 'e']);
        } else {
            assert(want =~= seq!['f', 'a', 'l', 's', 'e']);
        }
    }
    lemma_visible_replaced(t, v);
    assert(nt.subrange(lo, nt.len() - (t.len() - hi)) =~= want);
    assert(nt[lo - 1] == t[lo - 1]);
    assert(nt[lo + want.len()] == t[hi]);
    lemma_untouched_between(nt, lo, want.len() as int, name, q);
}

/// A visibility edit keeps an attribute read clear of its span.
pub proof fn lemma_visible_keeps(t: Seq<char>, v: bool, name: Seq<char>)
    requires
        t.len() >= 9,
        t.take(9) == open_tag(),
        single_visible(t),
        bare_name(name),
        name.len() > 17 || (open_tag() + seq![' '] + name_visible()).subrange(17 - name.len(), 17)
            != name,
        ({
            let (lo, hi) = visible_span(t);
            attr_clear(t, name, lo, hi)
        }),
    ensures
        forall|dflt: Seq<char>| attr_or(visible_tag(t, v), name, dflt) == attr_or(t, name, dflt),
{
    let (lo, hi) = visible_span(t);
    let nt = visible_tag(t, v);
    if attr_value(t, name_visible()) is None {
        lemma_visible_inserted(t, v, name, '\'');
        lemma_visible_inserted(t, v, name, '"');
    } else {
        lemma_visible_value_untouched(t, v, name, '\'');
        lemma_visible_value_untouched(t, v, name, '"');
    }
    let m = nt.subrange(lo, nt.len() - (t.len() - hi));
    lemma_attr_kept(t, nt, m, lo, hi, name);
}

/// The names read besides `visible` are bare and do not end `<b:widget visible`.
pub proof fn lemma_other_names()
    ensures
        bare_name(name_id()),
        bare_name(name_type()),
        bare_name(name_title()),
        (open_tag() + seq![' '] + name_visible()).subrange(17 - 2, 17) != name_id(),
        (open_tag() + seq![' '] + name_visible()).subrange(17 - 4, 17) != name_type(),
        (open_tag() + seq![' '] + name_visible()).subrange(17 - 5, 17) != name_title(),
{
    let h = open_tag() + seq![' '] + name_visible();
    assert(h =~= seq!['<', 'b', ':', 'w', 'i', 'd', 'g', 'e', 't', ' ', 'v', 'i', 's', 'i', 'b', 'l', 'e']);
    assert(h.subrange(15, 17)[0] != name_id()[0]);
    assert(h.subrange(13, 17)[0] != name_type()[0]);
    assert(h.subrange(12, 17)[0] != name_title()[0]);
}

/// The tag of block `i`.
pub open spec fn block_tag(s: Seq<char>, i: int) -> Seq<char> {
    let x = slots_of(s)[i];
    s.subrange(x.start, tag_end_of(s, x.start, x.end))
}

/// Card `i` after a visibility edit shows what the rewritten tag reads; before
/// it, what the tag read.
#[verifier::spinoff_prover]
#[verifier::rlimit(60)]
pub proof fn lemma_card_of_edit(s: Seq<char>, i: int, visible: bool)
    requires
        0 <= i < slots_of(s).len(),
    ensures
        ({
            let c = cards(slots_of(set_visible_spec(s, i, visible)));
            let d = cards(slots_of(s));
            let t = block_tag(s, i);
            let nt = visible_tag(t, visible);
            &&& c.len() == d.len()
            &&& c[i].0 == attr_or(nt, name_id(), Seq::empty())
            &&& c[i].1 == attr_or(nt, name_type(), default_type())
            &&& c[i].2 == attr_or(nt, name_title(), Seq::empty())
            &&& d[i].0 == attr_or(t, name_id(), Seq::empty())
            &&& d[i].1 == attr_or(t, name_type(), default_type())
            &&& d[i].2 == attr_or(t, name_title(), Seq::empty())
            &&& t.len() >= 9
            &&& t.take(9) == open_tag()
        }),
{
    law_set_visible_shows_flag(s, i, visible);
    let sl = slots_of(s);
    let x = sl[i];
    lemma_block_head(s, i);
    let te = tag_end_of(s, x.start, x.end);
    let t = s.subrange(x.start, te);
    let z = s.skip(te);
    let nt = visible_tag(t, visible);
    lemma_visible_tag_edit(t, visible, z);
    lemma_rewritten_head(s, i, t, z, nt);
    let y = nt + z;
    lemma_before(s, i, y);
    let out = set_visible_spec(s, i, visible);
    assert(out == s.take(x.start) + y);
    let c = cards(slots_of(out));
    let cy = cards(slots_of(y));
    assert(c == cards(sl.take(i)) + cy);
    assert(cards(sl.take(i)).len() == i);
    assert(c[i] == cy[0]);
    super::scan::lemma_block_span(s, i);
    assert(cards(sl)[i] == super::scan::card(sl[i]));
    assert(t == block_tag(s, i));
}

/// Setting widget `i`'s visibility keeps its card's id, type and title, where
/// its tag names `visible` once and those readings lie clear of the rewritten
/// span (an `id='` inside the old value, say, changes with it); with the law
/// of the flag, the whole card reads as before but for the flag.
#[verifier::spinoff_prover]
#[verifier::rlimit(40)]
pub proof fn law_set_visible_keeps_card(s: Seq<char>, i: int, visible: bool)
    requires
        0 <= i < slots_of(s).len(),
        single_visible(block_tag(s, i)),
        attr_clear(block_tag(s, i), name_id(), visible_span(block_tag(s, i)).0, visible_span(block_tag(s, i)).1),
        attr_clear(block_tag(s, i), name_type(), visible_span(block_tag(s, i)).0, visible_span(block_tag(s, i)).1),
        attr_clear(block_tag(s, i), name_title(), visible_span(block_tag(s, i)).0, visible_span(block_tag(s, i)).1),
    ensures
        ({
            let c = cards(slots_of(set_visible_spec(s, i, visible)));
            let d = cards(slots_of(s));
            &&& c.len() == d.len()
            &&& c[i] == (d[i].0, d[i].1, d[i].2, visible)
            &&& forall|j: int| 0 <= j < d.len() && j != i ==> c[j] == d[j]
        }),
{
    law_set_visible_shows_flag(s, i, visible);
    lemma_card_of_edit(s, i, visible);
    let t = block_tag(s, i);
    lemma_other_names();
    lemma_visible_keeps(t, visible, name_id());
    lemma_visible_keeps(t, visible, name_type());
    lemma_visible_keeps(t, visible, name_title());
}

} // verus!
