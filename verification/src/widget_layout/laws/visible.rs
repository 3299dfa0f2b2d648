//! Setting a widget's visibility: a reparse shows the flag on that card and
//! every other card unchanged.
use crate::text::{find_char_from, find_from, lemma_find_char_from, lemma_find_from, occurs_at};
use crate::widget_layout::{
    attr_q, attr_value, block_end, close_tag, is_widget_open_at, name_visible, open_tag,
    quoted_attr, replace_first, tag_end_of, visible_tag,
};
use super::visible_tag::{
    flag_word, lemma_double_reading, lemma_flag_word, lemma_no_closed_single, lemma_single_reading,
    lemma_unclosed_single, vis_double, vis_single,
};
use super::scan::{lemma_find_extend, lemma_find_shift, lemma_find_skip};
use vstd::prelude::*;

verus! {

/// A span rewritten inside an opening tag: it ends with a quote and holds no
/// `>`, so no closing tag can overlap it.
pub open spec fn tame(w: Seq<char>) -> bool {
    &&& w.len() > 0
    &&& (w.last() == '\'' || w.last() == '"')
    &&& forall|k: int| 0 <= k < w.len() ==> #[trigger] w[k] != '>'
}

/// A closing tag cannot overlap a tame span: its `>` would fall inside the
/// span, or it would cover the span's closing quote.
pub proof fn lemma_close_clear_of(a: Seq<char>, w: Seq<char>, z: Seq<char>, q: int)
    requires
        tame(w),
        occurs_at(a + w + z, close_tag(), q),
    ensures
        q + 11 <= a.len() || q >= a.len() + w.len(),
{
    let x = a + w + z;
    let n = a.len() as int;
    if !(q + 11 <= n || q >= n + w.len()) {
        assert(x.subrange(q, q + 11) == close_tag());
        if q + 10 < n + w.len() {
            assert(x[q + 10] == x.subrange(q, q + 11)[10]);
            assert(x[q + 10] == w[q + 10 - n]);
        } else {
            let l = n + w.len() - 1;
            assert(x[l] == x.subrange(q, q + 11)[l - q]);
            assert(x[l] == w.last());
        }
    }
}

/// The closing tag searched from `k` in `a + w + z`, where none overlaps `w`:
/// found in `a`, or else found after `w`.
pub proof fn lemma_close_around(a: Seq<char>, w: Seq<char>, z: Seq<char>, k: int)
    requires
        0 <= k <= a.len(),
        forall|q: int|
            occurs_at(a + w + z, close_tag(), q) ==> q + 11 <= a.len() || q >= a.len() + w.len(),
    ensures
        find_from(a + w + z, close_tag(), k) == match find_from(a, close_tag(), k) {
            Some(c) => Some(c),
            None => match find_from(z, close_tag(), 0) {
                Some(c) => Some(a.len() + w.len() + c),
                None => None::<int>,
            },
        },
{
    let x = a + w + z;
    lemma_find_from(a, close_tag(), k);
    if find_from(a, close_tag(), k) is Some {
        assert(x == a + (w + z));
        lemma_find_extend(a, w + z, close_tag(), k);
    } else {
        assert forall|j: int| k <= j < a.len() + w.len() implies !occurs_at(x, close_tag(), j) by {
            if occurs_at(x, close_tag(), j) {
                assert(j + 11 <= a.len());
                assert(x.subrange(j, j + 11) == a.subrange(j, j + 11));
                assert(occurs_at(a, close_tag(), j));
            }
        }
        lemma_find_skip(x, close_tag(), k, (a.len() + w.len()) as int);
        assert(x == (a + w) + z);
        lemma_find_shift(a + w, z, close_tag(), 0);
    }
}

/// The text from a block's start: its opening tag `t` (holding `>` at most as
/// its last character), then the rest of the buffer; the tag ends where the
/// block's tag is read to end.
pub open spec fn head_ok(t: Seq<char>, x: Seq<char>) -> bool {
    &&& t.len() >= 9
    &&& x.len() >= t.len()
    &&& x.take(t.len() as int) == t
    &&& t.take(9) == open_tag()
    &&& is_widget_open_at(x, 0)
    &&& forall|k: int| 0 <= k < t.len() - 1 ==> #[trigger] t[k] != '>'
    &&& t.len() <= block_end(x, 0)
    &&& tag_end_of(x, 0, block_end(x, 0)) == t.len()
}

/// `u` is `t` with the span `r` after `a` rewritten to `m`, where the rewrite
/// keeps the tag's name and delimiter and touches no `>`.
pub open spec fn clean_edit(
    t: Seq<char>,
    u: Seq<char>,
    a: Seq<char>,
    r: Seq<char>,
    m: Seq<char>,
    b: Seq<char>,
) -> bool {
    &&& t == a + r + b
    &&& u == a + m + b
    &&& tame(m)
    &&& ((a.len() >= 10 && tame(r)) || (a.len() == 9 && r.len() == 0 && m[0] == ' '))
}

/// The block end after a clean rewrite of the tag moves with the tag's length.
pub proof fn lemma_edit_block_end(
    t: Seq<char>,
    u: Seq<char>,
    a: Seq<char>,
    r: Seq<char>,
    m: Seq<char>,
    b: Seq<char>,
    z: Seq<char>,
)
    requires
        head_ok(t, t + z),
        clean_edit(t, u, a, r, m, b),
    ensures
        block_end(u + z, 0) == block_end(t + z, 0) + u.len() - t.len(),
{
    let x = t + z;
    let y = u + z;
    let rest = b + z;
    assert(x == a + r + rest);
    assert(y == a + m + rest);
    assert forall|q: int| occurs_at(a + m + rest, close_tag(), q) implies q + 11 <= a.len() || q
        >= a.len() + m.len() by {
        lemma_close_clear_of(a, m, rest, q);
    }
    assert forall|q: int| occurs_at(a + r + rest, close_tag(), q) implies q + 11 <= a.len() || q
        >= a.len() + r.len() by {
        if r.len() > 0 {
            lemma_close_clear_of(a, r, rest, q);
        } else if q < a.len() && q + 11 > a.len() {
            assert(x.subrange(q, q + 11) == close_tag());
            assert(x[q] == x.subrange(q, q + 11)[0]);
            assert(a.take(9) == open_tag());
            assert(x[q] == a[q]);
            if q > 0 {
                assert(a[q] == open_tag()[q]);
            } else {
                assert(x[1] == x.subrange(q, q + 11)[1]);
                assert(x[1] == a[1]);
            }
        }
    }
    lemma_close_around(a, m, rest, 9);
    lemma_close_around(a, r, rest, 9);
    lemma_find_from(a, close_tag(), 9);
    if find_from(a, close_tag(), 9) is Some {
        let c = find_from(a, close_tag(), 9)->0;
        assert(block_end(x, 0) == c + 11);
        assert(c + 11 <= a.len());
        assert(false);
    }
}

/// After a clean rewrite the block still starts with a real opening tag, its
/// tag still ends at the rewritten tag's end, and what follows is unchanged.
pub proof fn lemma_edit_step(
    t: Seq<char>,
    u: Seq<char>,
    a: Seq<char>,
    r: Seq<char>,
    m: Seq<char>,
    b: Seq<char>,
    z: Seq<char>,
)
    requires
        head_ok(t, t + z),
        clean_edit(t, u, a, r, m, b),
    ensures
        head_ok(u, u + z),
        block_end(u + z, 0) == block_end(t + z, 0) + u.len() - t.len(),
        (u + z).skip(block_end(u + z, 0)) == (t + z).skip(block_end(t + z, 0)),
{
    let x = t + z;
    let y = u + z;
    lemma_edit_block_end(t, u, a, r, m, b, z);
    let e = block_end(x, 0);
    let e2 = block_end(y, 0);
    assert(y.take(u.len() as int) == u);
    assert(u.take(9) == open_tag()) by {
        assert(u.take(9) == a.take(9));
        assert(t.take(9) == a.take(9));
    }
    // the delimiter after the name
    assert(y.subrange(0, 9) == open_tag());
    if a.len() >= 10 {
        assert(y[9] == a[9]);
        assert(x[9] == a[9]);
    } else {
        assert(y[9] == m[0]);
    }
    assert(is_widget_open_at(y, 0));
    // no `>` before the tag's last character
    assert forall|k: int| 0 <= k < u.len() - 1 implies #[trigger] u[k] != '>' by {
        if k < a.len() {
            assert(u[k] == t[k]);
        } else if k < a.len() + m.len() {
            assert(u[k] == m[k - a.len()]);
        } else {
            assert(u[k] == t[k - m.len() + r.len()]);
        }
    }
    // where the tag is read to end
    crate::widget_layout::lemma_block_end(y, 0);
    crate::widget_layout::lemma_block_end(x, 0);
    assert(e2 >= u.len());
    assert(y.take(e2).take(u.len() as int) == u);
    lemma_find_char_from(x.take(e), '>', 0);
    lemma_find_char_from(y.take(e2), '>', 0);
    if t.last() == '>' {
        assert(b.len() > 0);
        assert(u.last() == t.last());
        assert(y.take(e2)[u.len() - 1] == y.take(e2).take(u.len() as int)[u.len() - 1]);
        assert(y.take(e2)[u.len() - 1] == '>');
        assert forall|k: int| 0 <= k < u.len() - 1 implies y.take(e2)[k] != '>' by {
            assert(y.take(e2)[k] == y.take(e2).take(u.len() as int)[k]);
        }
    } else {
        assert(x.take(e)[t.len() - 1] == t.last());
        assert(e == t.len());
        assert forall|k: int| 0 <= k < u.len() implies y.take(e2)[k] != '>' by {
            assert(y.take(e2)[k] == y.take(e2).take(u.len() as int)[k]);
            if k == u.len() - 1 {
                if b.len() > 0 {
                    assert(u[k] == t.last());
                } else {
                    assert(u[k] == m.last());
                }
            }
        }
    }
    assert(y.skip(e2) =~= x.skip(e));
}

/// Where the first `visible` pattern of a real widget tag can start: after the
/// name and its delimiter.
pub proof fn lemma_pattern_late(t: Seq<char>, z: Seq<char>, pat: Seq<char>, p: int)
    requires
        head_ok(t, t + z),
        pat.len() == 9,
        pat[0] == 'v',
        occurs_at(t, pat, p),
    ensures
        p >= 10,
{
    assert(t.subrange(p, p + 9)[0] == t[p]);
    if p < 9 {
        assert(t[p] == t.take(9)[p]);
        assert(open_tag()[p] != 'v');
    } else if p == 9 {
        assert((t + z)[9] == t[9]);
    }
}

/// A span of the tag up to a quote before its end holds no `>`.
pub proof fn lemma_span_tame(t: Seq<char>, z: Seq<char>, p: int, e: int)
    requires
        head_ok(t, t + z),
        0 <= p <= e < t.len(),
        t[e] == '\'' || t[e] == '"',
    ensures
        tame(t.subrange(p, e + 1)),
{
    let r = t.subrange(p, e + 1);
    assert forall|k: int| 0 <= k < r.len() implies #[trigger] r[k] != '>' by {
        assert(r[k] == t[p + k]);
    }
}

/// `u` has the shape of `t` as the head of a block followed by `z`: same
/// kind of head, block end moved by the change in length, same text after.
pub open spec fn edit_ok(t: Seq<char>, u: Seq<char>, z: Seq<char>) -> bool {
    &&& head_ok(u, u + z)
    &&& block_end(u + z, 0) == block_end(t + z, 0) + u.len() - t.len()
    &&& (u + z).skip(block_end(u + z, 0)) == (t + z).skip(block_end(t + z, 0))
}

/// The written attributes are tame.
pub proof fn lemma_written_tame(v: bool)
    ensures
        tame(quoted_attr(name_visible(), '\'', flag_word(v))),
        tame(quoted_attr(name_visible(), '"', flag_word(v))),
        tame(seq![' '] + quoted_attr(name_visible(), '\'', flag_word(v))),
{
    lemma_flag_word(v);
    let want = flag_word(v);
    let with1 = quoted_attr(name_visible(), '\'', want);
    let with2 = quoted_attr(name_visible(), '"', want);
    let m = seq![' '] + with1;
    assert forall|k: int| 0 <= k < with1.len() implies #[trigger] with1[k] != '>' by {
        if 9 <= k < 9 + want.len() {
            assert(with1[k] == want[k - 9]);
        }
    }
    assert forall|k: int| 0 <= k < with2.len() implies #[trigger] with2[k] != '>' by {
        if 9 <= k < 9 + want.len() {
            assert(with2[k] == want[k - 9]);
        }
    }
    assert forall|k: int| 0 <= k < m.len() implies #[trigger] m[k] != '>' by {
        if k > 0 {
            assert(m[k] == with1[k - 1]);
        }
    }
}

/// The second rewrite of a single-quoted case, where `visible="cur"` is found.
#[verifier::spinoff_prover]
pub proof fn lemma_edit_single_second(t: Seq<char>, t1: Seq<char>, v: bool, z: Seq<char>, p: int, e: int)
    requires
        head_ok(t, t + z),
        head_ok(t1, t1 + z),
        0 <= p,
        p + 9 <= e < t.len(),
        forall|k: int| p + 9 <= k < e ==> #[trigger] t[k] != '>',
        find_from(t1, quoted_attr(name_visible(), '"', t.subrange(p + 9, e)), 0) is Some,
    ensures
        ({
            let cur = t.subrange(p + 9, e);
            let pat2 = quoted_attr(name_visible(), '"', cur);
            let with2 = quoted_attr(name_visible(), '"', flag_word(v));
            edit_ok(t1, replace_first(t1, pat2, with2), z)
        }),
{
    lemma_written_tame(v);
    let cur = t.subrange(p + 9, e);
    let pat2 = quoted_attr(name_visible(), '"', cur);
    let with2 = quoted_attr(name_visible(), '"', flag_word(v));
    lemma_find_from(t1, pat2, 0);
    let q2 = find_from(t1, pat2, 0)->0;
    let a2 = t1.take(q2);
    let b2 = t1.skip(q2 + pat2.len());
    assert(t1 == a2 + pat2 + b2);
    assert(pat2.subrange(0, 9) == vis_double());
    assert(t1.subrange(q2, q2 + 9) == t1.subrange(q2, q2 + pat2.len()).subrange(0, 9));
    assert(occurs_at(t1, vis_double(), q2));
    lemma_pattern_late(t1, z, vis_double(), q2);
    assert forall|k: int| 0 <= k < pat2.len() implies #[trigger] pat2[k] != '>' by {
        if 9 <= k < 9 + cur.len() {
            assert(pat2[k] == cur[k - 9]);
            assert(cur[k - 9] == t[p + k]);
            assert(t[p + k] != '>');
        }
    }
    lemma_edit_step(t1, replace_first(t1, pat2, with2), a2, pat2, with2, b2, z);
}

/// A single-quoted `visible` value is rewritten cleanly.
#[verifier::spinoff_prover]
pub proof fn lemma_edit_single(t: Seq<char>, v: bool, z: Seq<char>)
    requires
        head_ok(t, t + z),
        attr_q(t, name_visible(), '\'') is Some,
    ensures
        edit_ok(t, visible_tag(t, v), z),
{
    lemma_written_tame(v);
    lemma_single_reading(t);
    let want = flag_word(v);
    let with1 = quoted_attr(name_visible(), '\'', want);
    let with2 = quoted_attr(name_visible(), '"', want);
    let p = find_from(t, vis_single(), 0)->0;
    let e = find_char_from(t, '\'', p + 9)->0;
    let cur = t.subrange(p + 9, e);
    let pat1 = quoted_attr(name_visible(), '\'', cur);
    let pat2 = quoted_attr(name_visible(), '"', cur);
    lemma_find_from(t, vis_single(), 0);
    lemma_pattern_late(t, z, vis_single(), p);
    assert(t[p] == t.subrange(p, p + 9)[0]);
    lemma_span_tame(t, z, p, e);
    let a = t.take(p);
    let b = t.skip(e + 1);
    let t1 = a + with1 + b;
    assert(t == a + pat1 + b);
    assert(replace_first(t, pat1, with1) == t1);
    lemma_edit_step(t, t1, a, pat1, with1, b, z);
    if find_from(t1, pat2, 0) is Some {
        lemma_edit_single_second(t, t1, v, z, p, e);
    } else {
        assert(visible_tag(t, v) == t1);
    }
}

/// A double-quoted `visible` value (with no single-quoted one read) is
/// rewritten cleanly.
#[verifier::spinoff_prover]
pub proof fn lemma_edit_double(t: Seq<char>, v: bool, z: Seq<char>)
    requires
        head_ok(t, t + z),
        attr_q(t, name_visible(), '\'') is None,
        attr_q(t, name_visible(), '"') is Some,
    ensures
        edit_ok(t, visible_tag(t, v), z),
{
    lemma_written_tame(v);
    lemma_double_reading(t);
    lemma_unclosed_single(t);
    let want = flag_word(v);
    let with1 = quoted_attr(name_visible(), '\'', want);
    let with2 = quoted_attr(name_visible(), '"', want);
    let p = find_from(t, vis_double(), 0)->0;
    let e = find_char_from(t, '"', p + 9)->0;
    let cur = t.subrange(p + 9, e);
    let pat1 = quoted_attr(name_visible(), '\'', cur);
    let pat2 = quoted_attr(name_visible(), '"', cur);
    lemma_no_closed_single(t, cur);
    assert(replace_first(t, pat1, with1) == t);
    lemma_find_from(t, vis_double(), 0);
    lemma_pattern_late(t, z, vis_double(), p);
    assert(t[p] == t.subrange(p, p + 9)[0]);
    lemma_span_tame(t, z, p, e);
    let a = t.take(p);
    let b = t.skip(e + 1);
    assert(t == a + pat2 + b);
    assert(visible_tag(t, v) == a + with2 + b);
    lemma_edit_step(t, visible_tag(t, v), a, pat2, with2, b, z);
}

/// A tag without a `visible` attribute gets one inserted cleanly.
#[verifier::spinoff_prover]
pub proof fn lemma_edit_inserted(t: Seq<char>, v: bool, z: Seq<char>)
    requires
        head_ok(t, t + z),
        attr_value(t, name_visible()) is None,
    ensures
        edit_ok(t, visible_tag(t, v), z),
{
    lemma_written_tame(v);
    let with1 = quoted_attr(name_visible(), '\'', flag_word(v));
    let a = t.take(9);
    let b = t.skip(9);
    let m = seq![' '] + with1;
    assert(occurs_at(t, open_tag(), 0));
    crate::text::lemma_find_from_first(t, open_tag(), 0, 0);
    assert(visible_tag(t, v) == a + m + b);
    assert(t == a + Seq::<char>::empty() + b);
    lemma_edit_step(t, visible_tag(t, v), a, Seq::<char>::empty(), m, b, z);
}

/// The rewritten `visible` attribute keeps the block's shape: a real opening
/// tag read to the rewritten tag's end, the block end moved by the change in
/// length, and the text after the block unchanged.
pub proof fn lemma_visible_tag_edit(t: Seq<char>, v: bool, z: Seq<char>)
    requires
        head_ok(t, t + z),
    ensures
        edit_ok(t, visible_tag(t, v), z),
{
    if attr_q(t, name_visible(), '\'') is Some {
        lemma_edit_single(t, v, z);
    } else if attr_q(t, name_visible(), '"') is Some {
        lemma_edit_double(t, v, z);
    } else {
        lemma_edit_inserted(t, v, z);
    }
}

} // verus!
