//! Rewriting a tag's `visible` attribute: the rewritten tag reads back the
//! flag that was written.
use crate::text::{
    find_char_from, find_from, lemma_find_char_from, lemma_find_from, lemma_find_from_first,
    occurs_at,
};
use crate::widget_layout::{
    attr_pat, attr_q, attr_value, name_visible, open_tag, quoted_attr, replace_first, visible_flag,
    visible_tag, word_false, word_true,
};
use vstd::prelude::*;

verus! {

/// `pat` does not occur anywhere in `x`.
pub open spec fn no_occ(x: Seq<char>, pat: Seq<char>) -> bool {
    forall|q: int| !#[trigger] occurs_at(x, pat, q)
}

/// An occurrence spells the pattern.
pub proof fn lemma_occ_char(x: Seq<char>, pat: Seq<char>, q: int, j: int)
    requires
        occurs_at(x, pat, q),
        q <= j < q + pat.len(),
    ensures
        x[j] == pat[j - q],
{
    assert(x.subrange(q, q + pat.len())[j - q] == x[j]);
}

/// A window of `x` without occurrences has none.
pub proof fn lemma_no_occ_window(x: Seq<char>, pat: Seq<char>, a: int, b: int)
    requires
        0 <= a <= b <= x.len(),
        forall|q: int| a <= q && q + pat.len() <= b ==> !occurs_at(x, pat, q),
    ensures
        no_occ(x.subrange(a, b), pat),
{
    let w = x.subrange(a, b);
    assert forall|q: int| !#[trigger] occurs_at(w, pat, q) by {
        if occurs_at(w, pat, q) {
            assert(w.subrange(q, q + pat.len()) == x.subrange(a + q, a + q + pat.len()));
            assert(occurs_at(x, pat, a + q));
        }
    }
}

/// Where `w` starts with the pattern after text without it, and the pattern's
/// first character recurs nowhere in it, the first occurrence is at `w`.
pub proof fn lemma_first_at(a: Seq<char>, w: Seq<char>, z: Seq<char>, pat: Seq<char>)
    requires
        no_occ(a, pat),
        pat.len() > 0,
        w.len() >= pat.len(),
        w.take(pat.len() as int) == pat,
        forall|j: int| 0 < j < pat.len() ==> #[trigger] pat[j] != pat[0],
    ensures
        find_from(a + w + z, pat, 0) == Some(a.len() as int),
{
    let u = a + w + z;
    let n = a.len() as int;
    assert(u.subrange(n, n + pat.len()) == w.take(pat.len() as int));
    assert forall|q: int| 0 <= q < n implies !occurs_at(u, pat, q) by {
        if occurs_at(u, pat, q) {
            if q + pat.len() <= n {
                assert(u.subrange(q, q + pat.len()) == a.subrange(q, q + pat.len()));
                assert(occurs_at(a, pat, q));
            } else {
                lemma_occ_char(u, pat, q, n);
                assert(u[n] == w[0]);
                assert(w[0] == pat[0]);
            }
        }
    }
    lemma_find_from_first(u, pat, 0, n);
}

/// A value without the quote, then the quote: the quote closes the value.
pub proof fn lemma_quote_after(u: Seq<char>, r: int, v: Seq<char>, q: char)
    requires
        0 <= r,
        r + v.len() < u.len(),
        u.subrange(r, r + v.len()) == v,
        u[r + v.len()] == q,
        forall|k: int| 0 <= k < v.len() ==> v[k] != q,
    ensures
        find_char_from(u, q, r) == Some(r + v.len()),
{
    lemma_find_char_from(u, q, r);
    assert forall|k: int| r <= k < r + v.len() implies u[k] != q by {
        assert(u[k] == u.subrange(r, r + v.len())[k - r]);
    }
}

/// `name='`, the opening of a single-quoted `visible` value.
pub open spec fn vis_single() -> Seq<char> {
    attr_pat(name_visible(), '\'')
}

/// `name="`, the opening of a double-quoted `visible` value.
pub open spec fn vis_double() -> Seq<char> {
    attr_pat(name_visible(), '"')
}

/// The written flag's word.
pub open spec fn flag_word(v: bool) -> Seq<char> {
    if v {
        word_true()
    } else {
        word_false()
    }
}

/// A tag holding `visible='w'` after text without `visible='` reads `w`.
pub proof fn lemma_reads_single(x: Seq<char>, w: Seq<char>, z: Seq<char>)
    requires
        no_occ(x, vis_single()),
        forall|k: int| 0 <= k < w.len() ==> w[k] != '\'',
    ensures
        attr_q(x + quoted_attr(name_visible(), '\'', w) + z, name_visible(), '\'') == Some(w),
{
    let m = quoted_attr(name_visible(), '\'', w);
    let u = x + m + z;
    assert(m.take(9) == vis_single());
    lemma_first_at(x, m, z, vis_single());
    let r: int = x.len() + 9int;
    assert(u.subrange(r, r + w.len()) == w);
    assert(u[r + w.len()] == '\'');
    lemma_quote_after(u, r, w, '\'');
}

/// A tag holding `visible="w"` after text without `visible="` reads `w` as its
/// double-quoted value.
pub proof fn lemma_reads_double(x: Seq<char>, w: Seq<char>, z: Seq<char>)
    requires
        no_occ(x, vis_double()),
        forall|k: int| 0 <= k < w.len() ==> w[k] != '"',
    ensures
        attr_q(x + quoted_attr(name_visible(), '"', w) + z, name_visible(), '"') == Some(w),
{
    let m = quoted_attr(name_visible(), '"', w);
    let u = x + m + z;
    assert(m.take(9) == vis_double());
    lemma_first_at(x, m, z, vis_double());
    let r: int = x.len() + 9int;
    assert(u.subrange(r, r + w.len()) == w);
    assert(u[r + w.len()] == '"');
    lemma_quote_after(u, r, w, '"');
}

/// No single-quoted `visible` value of `x` is ever closed.
pub open spec fn unclosed_single(x: Seq<char>) -> bool {
    forall|q: int, j: int|
        #![trigger occurs_at(x, vis_single(), q), x[j]]
        occurs_at(x, vis_single(), q) && q + 9 <= j < x.len() ==> x[j] != '\''
}

/// Without a closed single-quoted value there is no single-quoted reading.
pub proof fn lemma_unclosed_single(x: Seq<char>)
    ensures
        unclosed_single(x) <==> attr_q(x, name_visible(), '\'') is None,
{
    lemma_find_from(x, vis_single(), 0);
    match find_from(x, vis_single(), 0) {
        None => {},
        Some(p) => {
            lemma_find_char_from(x, '\'', p + 9);
            if unclosed_single(x) {
                assert forall|j: int| p + 9 <= j < x.len() implies x[j] != '\'' by {
                    assert(occurs_at(x, vis_single(), p));
                }
            }
            if attr_q(x, name_visible(), '\'') is None {
                assert forall|q: int, j: int|
                    occurs_at(x, vis_single(), q) && q + 9 <= j < x.len() implies x[j]
                    != '\'' by {
                    assert(p <= q);
                }
            }
        },
    }
}

/// `visible='` cannot occur across a double-quoted `visible` attribute.
pub proof fn lemma_single_not_across(a: Seq<char>, w: Seq<char>, b: Seq<char>, q: int)
    requires
        forall|k: int| 0 <= k < w.len() ==> w[k] != '\'',
        occurs_at(a + quoted_attr(name_visible(), '"', w) + b, vis_single(), q),
    ensures
        q + 9 <= a.len() || q >= a.len() + quoted_attr(name_visible(), '"', w).len(),
{
    let m = quoted_attr(name_visible(), '"', w);
    let u = a + m + b;
    let n = a.len() as int;
    if !(q + 9 <= n || q >= n + m.len()) {
        lemma_occ_char(u, vis_single(), q, q + 8);
        if q + 8 < n + m.len() {
            assert(u[q + 8] == m[q + 8 - n]);
            if q + 8 - n < 9 {
                assert(m[q + 8 - n] == vis_double()[q + 8 - n]);
            } else if q + 8 - n < 9 + w.len() {
                assert(m[q + 8 - n] == w[q + 8 - n - 9]);
            }
        } else {
            lemma_occ_char(u, vis_single(), q, n + m.len() - 1);
            assert(u[n + m.len() - 1] == m[m.len() - 1]);
        }
    }
}

/// A double-quoted `visible` attribute between texts without `visible='`
/// adds none.
pub proof fn lemma_no_single_around(a: Seq<char>, w: Seq<char>, b: Seq<char>)
    requires
        no_occ(a, vis_single()),
        no_occ(b, vis_single()),
        forall|k: int| 0 <= k < w.len() ==> w[k] != '\'',
    ensures
        no_occ(a + quoted_attr(name_visible(), '"', w) + b, vis_single()),
{
    let m = quoted_attr(name_visible(), '"', w);
    let u = a + m + b;
    let n = a.len() as int;
    assert forall|q: int| !#[trigger] occurs_at(u, vis_single(), q) by {
        if occurs_at(u, vis_single(), q) {
            lemma_single_not_across(a, w, b, q);
            if q + 9 <= n {
                assert(u.subrange(q, q + 9) == a.subrange(q, q + 9));
                assert(occurs_at(a, vis_single(), q));
            } else {
                assert(u.subrange(q, q + 9) == b.subrange(q - n - m.len(), q - n - m.len() + 9));
                assert(occurs_at(b, vis_single(), q - n - m.len()));
            }
        }
    }
}

/// An inserted `visible='w'` right after `<b:widget ` is what the tag reads.
pub proof fn lemma_tag_inserted(tag: Seq<char>, v: bool)
    requires
        tag.len() >= 9,
        tag.take(9) == open_tag(),
        attr_value(tag, name_visible()) is None,
    ensures
        visible_flag(visible_tag(tag, v)) == v,
{
    let want = flag_word(v);
    let head = open_tag() + seq![' '];
    assert(occurs_at(tag, open_tag(), 0));
    lemma_find_from_first(tag, open_tag(), 0, 0);
    let vt = visible_tag(tag, v);
    assert(vt == head + quoted_attr(name_visible(), '\'', want) + tag.skip(9));
    assert forall|q: int| !#[trigger] occurs_at(head, vis_single(), q) by {
        if occurs_at(head, vis_single(), q) {
            lemma_occ_char(head, vis_single(), q, q);
        }
    }
    lemma_reads_single(head, want, tag.skip(9));
    assert(word_true().len() != word_false().len());
}

/// The flag words hold no quote and no `v`.
pub proof fn lemma_flag_word(v: bool)
    ensures
        forall|k: int|
            0 <= k < flag_word(v).len() ==> #[trigger] flag_word(v)[k] != '\'' && flag_word(v)[k]
                != '"' && flag_word(v)[k] != 'v',
        v ==> flag_word(v) != word_false(),
        !v ==> flag_word(v) == word_false(),
{
    assert(word_true().len() != word_false().len());
    assert forall|k: int| 0 <= k < flag_word(v).len() implies #[trigger] flag_word(v)[k] != '\''
        && flag_word(v)[k] != '"' && flag_word(v)[k] != 'v' by {
        if v {
            assert(k == 0 || k == 1 || k == 2 || k == 3);
        } else {
            assert(k == 0 || k == 1 || k == 2 || k == 3 || k == 4);
        }
    }
}

/// The first `visible='` of a tag, its closing quote and its value.
pub proof fn lemma_single_reading(tag: Seq<char>)
    requires
        attr_q(tag, name_visible(), '\'') is Some,
    ensures
        ({
            let p = find_from(tag, vis_single(), 0)->0;
            let e = find_char_from(tag, '\'', p + 9)->0;
            &&& find_from(tag, vis_single(), 0) is Some
            &&& find_char_from(tag, '\'', p + 9) is Some
            &&& 0 <= p && p + 9 <= e < tag.len()
            &&& tag[e] == '\''
            &&& no_occ(tag.take(p), vis_single())
            &&& attr_q(tag, name_visible(), '\'') == Some(tag.subrange(p + 9, e))
            &&& forall|k: int| 0 <= k < tag.subrange(p + 9, e).len() ==> #[trigger] tag.subrange(
                p + 9,
                e,
            )[k] != '\''
            &&& quoted_attr(name_visible(), '\'', tag.subrange(p + 9, e)) == tag.subrange(p, e + 1)
            &&& find_from(tag, quoted_attr(name_visible(), '\'', tag.subrange(p + 9, e)), 0) == Some(p)
        }),
{
    lemma_find_from(tag, vis_single(), 0);
    let p = find_from(tag, vis_single(), 0)->0;
    lemma_find_char_from(tag, '\'', p + 9);
    let e = find_char_from(tag, '\'', p + 9)->0;
    let cur = tag.subrange(p + 9, e);
    assert(tag.take(p) == tag.subrange(0, p));
    lemma_no_occ_window(tag, vis_single(), 0, p);
    assert forall|k: int| 0 <= k < cur.len() implies #[trigger] cur[k] != '\'' by {
        assert(cur[k] == tag[p + 9 + k]);
    }
    let pat1 = quoted_attr(name_visible(), '\'', cur);
    assert(tag.subrange(p, p + 9) == vis_single());
    assert(pat1 =~= tag.subrange(p, e + 1));
    assert forall|q: int| 0 <= q < p implies !occurs_at(tag, pat1, q) by {
        if occurs_at(tag, pat1, q) {
            assert(pat1.subrange(0, 9) == vis_single());
            assert(tag.subrange(q, q + 9) == tag.subrange(q, q + pat1.len()).subrange(0, 9));
            assert(occurs_at(tag, vis_single(), q));
        }
    }
    lemma_find_from_first(tag, pat1, 0, p);
}

/// `visible="cur"` cannot overlap a freshly written `visible='w'`.
pub proof fn lemma_no_overlap(t1: Seq<char>, p: int, w: Seq<char>, cur: Seq<char>, q2: int)
    requires
        0 <= p,
        p + quoted_attr(name_visible(), '\'', w).len() <= t1.len(),
        t1.subrange(p, p + quoted_attr(name_visible(), '\'', w).len()) == quoted_attr(
            name_visible(),
            '\'',
            w,
        ),
        forall|k: int| 0 <= k < w.len() ==> #[trigger] w[k] != '\'' && w[k] != 'v',
        forall|k: int| 0 <= k < cur.len() ==> #[trigger] cur[k] != '\'',
        occurs_at(t1, quoted_attr(name_visible(), '"', cur), q2),
    ensures
        q2 + quoted_attr(name_visible(), '"', cur).len() <= p || q2 >= p + quoted_attr(
            name_visible(),
            '\'',
            w,
        ).len(),
{
    let m = quoted_attr(name_visible(), '\'', w);
    let pat2 = quoted_attr(name_visible(), '"', cur);
    if !(q2 + pat2.len() <= p || q2 >= p + m.len()) {
        if q2 >= p {
            lemma_occ_char(t1, pat2, q2, q2);
            assert(t1[q2] == m[q2 - p]);
            if q2 > p {
                if q2 - p < 9 {
                    assert(m[q2 - p] == vis_single()[q2 - p]);
                } else if q2 - p < 9 + w.len() {
                    assert(m[q2 - p] == w[q2 - p - 9]);
                }
            }
            lemma_occ_char(t1, pat2, q2, q2 + 8);
            assert(t1[p + 8] == m[8]);
        } else {
            if p + 8 < q2 + pat2.len() {
                lemma_occ_char(t1, pat2, q2, p + 8);
                assert(t1[p + 8] == m[8]);
                let j = p + 8 - q2;
                if j < 9 {
                    assert(pat2[j] == vis_double()[j]);
                } else if j < 9 + cur.len() {
                    assert(pat2[j] == cur[j - 9]);
                }
            } else {
                let l = q2 + pat2.len() - 1;
                lemma_occ_char(t1, pat2, q2, l);
                assert(t1[l] == m[l - p]);
                assert(m[l - p] == vis_single()[l - p]);
            }
        }
    }
}

/// Rewriting a single-quoted `visible` value: the tag then reads the flag.
pub proof fn lemma_tag_single(tag: Seq<char>, v: bool)
    requires
        attr_q(tag, name_visible(), '\'') is Some,
    ensures
        visible_flag(visible_tag(tag, v)) == v,
{
    lemma_single_reading(tag);
    lemma_find_from(tag, vis_single(), 0);
    lemma_flag_word(v);
    let want = flag_word(v);
    let p = find_from(tag, vis_single(), 0)->0;
    let e = find_char_from(tag, '\'', p + 9)->0;
    let cur = tag.subrange(p + 9, e);
    let pat1 = quoted_attr(name_visible(), '\'', cur);
    let with1 = quoted_attr(name_visible(), '\'', want);
    let pat2 = quoted_attr(name_visible(), '"', cur);
    let with2 = quoted_attr(name_visible(), '"', want);
    let a = tag.take(p);
    let z = tag.skip(e + 1);
    let t1 = replace_first(tag, pat1, with1);
    assert(t1 == a + with1 + z);
    let t2 = replace_first(t1, pat2, with2);
    assert(visible_tag(tag, v) == t2);
    lemma_find_from(t1, pat2, 0);
    match find_from(t1, pat2, 0) {
        None => {
            lemma_reads_single(a, want, z);
        },
        Some(q2) => {
            assert(t1.subrange(p, p + with1.len()) == with1);
            lemma_no_overlap(t1, p, want, cur, q2);
            if q2 + pat2.len() <= p {
                let mid = tag.subrange(q2 + pat2.len(), p);
                let x = tag.take(q2) + with2 + mid;
                assert(t1.take(q2) == tag.take(q2));
                assert(t1.skip(q2 + pat2.len()) =~= mid + with1 + z);
                assert(t2 =~= x + with1 + z);
                lemma_no_occ_window(tag, vis_single(), 0, q2);
                assert(tag.subrange(0, q2) == tag.take(q2));
                lemma_no_occ_window(tag, vis_single(), q2 + pat2.len(), p);
                lemma_no_single_around(tag.take(q2), want, mid);
                lemma_reads_single(x, want, z);
            } else {
                let z2 = t1.subrange(p + with1.len(), q2) + with2 + t1.skip(q2 + pat2.len());
                assert(t2 =~= a + with1 + z2);
                lemma_reads_single(a, want, z2);
            }
        },
    }
}

/// The first `visible="` of a tag, its closing quote and its value.
pub proof fn lemma_double_reading(tag: Seq<char>)
    requires
        attr_q(tag, name_visible(), '"') is Some,
    ensures
        ({
            let p = find_from(tag, vis_double(), 0)->0;
            let e = find_char_from(tag, '"', p + 9)->0;
            &&& find_from(tag, vis_double(), 0) is Some
            &&& find_char_from(tag, '"', p + 9) is Some
            &&& 0 <= p && p + 9 <= e < tag.len()
            &&& tag[e] == '"'
            &&& no_occ(tag.take(p), vis_double())
            &&& attr_q(tag, name_visible(), '"') == Some(tag.subrange(p + 9, e))
            &&& quoted_attr(name_visible(), '"', tag.subrange(p + 9, e)) == tag.subrange(p, e + 1)
            &&& find_from(tag, quoted_attr(name_visible(), '"', tag.subrange(p + 9, e)), 0) == Some(p)
        }),
{
    lemma_find_from(tag, vis_double(), 0);
    let p = find_from(tag, vis_double(), 0)->0;
    lemma_find_char_from(tag, '"', p + 9);
    let e = find_char_from(tag, '"', p + 9)->0;
    let cur = tag.subrange(p + 9, e);
    assert(tag.take(p) == tag.subrange(0, p));
    lemma_no_occ_window(tag, vis_double(), 0, p);
    let pat = quoted_attr(name_visible(), '"', cur);
    assert(tag.subrange(p, p + 9) == vis_double());
    assert(pat =~= tag.subrange(p, e + 1));
    assert forall|q: int| 0 <= q < p implies !occurs_at(tag, pat, q) by {
        if occurs_at(tag, pat, q) {
            assert(pat.subrange(0, 9) == vis_double());
            assert(tag.subrange(q, q + 9) == tag.subrange(q, q + pat.len()).subrange(0, 9));
            assert(occurs_at(tag, vis_double(), q));
        }
    }
    lemma_find_from_first(tag, pat, 0, p);
}

/// A single-quoted attribute with value `cur` cannot occur where no
/// single-quoted value is ever closed.
pub proof fn lemma_no_closed_single(tag: Seq<char>, cur: Seq<char>)
    requires
        unclosed_single(tag),
    ensures
        find_from(tag, quoted_attr(name_visible(), '\'', cur), 0) is None,
{
    let pat = quoted_attr(name_visible(), '\'', cur);
    assert forall|k: int| 0 <= k implies !occurs_at(tag, pat, k) by {
        if occurs_at(tag, pat, k) {
            assert(pat.subrange(0, 9) == vis_single());
            assert(tag.subrange(k, k + 9) == tag.subrange(k, k + pat.len()).subrange(0, 9));
            assert(occurs_at(tag, vis_single(), k));
            lemma_occ_char(tag, pat, k, k + pat.len() - 1);
            assert(tag[k + pat.len() - 1] == '\'');
        }
    }
    crate::text::lemma_find_from_none(tag, pat, 0);
}

/// Writing a double-quoted value leaves no closed single-quoted value behind.
pub proof fn lemma_still_unclosed(tag: Seq<char>, p: int, e: int, w: Seq<char>)
    requires
        unclosed_single(tag),
        0 <= p <= e < tag.len(),
        forall|k: int| 0 <= k < w.len() ==> #[trigger] w[k] != '\'',
    ensures
        unclosed_single(tag.take(p) + quoted_attr(name_visible(), '"', w) + tag.skip(e + 1)),
{
    let a = tag.take(p);
    let m = quoted_attr(name_visible(), '"', w);
    let b = tag.skip(e + 1);
    let t2 = a + m + b;
    let n = a.len() as int;
    let shift = e + 1 - n - m.len();
    assert forall|q: int, j: int|
        occurs_at(t2, vis_single(), q) && q + 9 <= j < t2.len() implies t2[j] != '\'' by {
        lemma_single_not_across(a, w, b, q);
        let qt = if q + 9 <= n {
            q
        } else {
            q + shift
        };
        assert(t2.subrange(q, q + 9) == tag.subrange(qt, qt + 9));
        assert(occurs_at(tag, vis_single(), qt));
        if j < n {
            assert(t2[j] == tag[j]);
        } else if j < n + m.len() {
            assert(t2[j] == m[j - n]);
            if j - n >= 9 && j - n < 9 + w.len() {
                assert(m[j - n] == w[j - n - 9]);
            } else if j - n < 9 {
                assert(m[j - n] == vis_double()[j - n]);
            }
        } else {
            assert(t2[j] == tag[j + shift]);
        }
    }
}

/// Rewriting a double-quoted `visible` value (with no single-quoted one to
/// read): the tag then reads the flag.
pub proof fn lemma_tag_double(tag: Seq<char>, v: bool)
    requires
        attr_q(tag, name_visible(), '\'') is None,
        attr_q(tag, name_visible(), '"') is Some,
    ensures
        visible_flag(visible_tag(tag, v)) == v,
{
    lemma_double_reading(tag);
    lemma_flag_word(v);
    lemma_unclosed_single(tag);
    let want = flag_word(v);
    let p = find_from(tag, vis_double(), 0)->0;
    let e = find_char_from(tag, '"', p + 9)->0;
    let cur = tag.subrange(p + 9, e);
    let pat1 = quoted_attr(name_visible(), '\'', cur);
    let with1 = quoted_attr(name_visible(), '\'', want);
    let pat2 = quoted_attr(name_visible(), '"', cur);
    let with2 = quoted_attr(name_visible(), '"', want);
    lemma_no_closed_single(tag, cur);
    assert(replace_first(tag, pat1, with1) == tag);
    let a = tag.take(p);
    let z = tag.skip(e + 1);
    let t2 = a + with2 + z;
    assert(visible_tag(tag, v) == t2);
    lemma_reads_double(a, want, z);
    lemma_still_unclosed(tag, p, e, want);
    lemma_unclosed_single(t2);
}

/// A rewritten opening tag reads back the flag that was written: its `visible`
/// attribute now says exactly `visible`.
pub proof fn law_visible_tag_reads_back(tag: Seq<char>, v: bool)
    requires
        tag.len() >= 9,
        tag.take(9) == open_tag(),
    ensures
        visible_flag(visible_tag(tag, v)) == v,
{
    if attr_q(tag, name_visible(), '\'') is Some {
        lemma_tag_single(tag, v);
    } else if attr_q(tag, name_visible(), '"') is Some {
        lemma_tag_double(tag, v);
    } else {
        lemma_tag_inserted(tag, v);
    }
}

} // verus!
