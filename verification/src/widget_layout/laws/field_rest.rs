//! Writing an editable field leaves the other fields alone: a reparse lists as
//! many fields, and every other field reads as before.
use super::field_edit::{
    lemma_attr_after, lemma_attr_before, lemma_find_char_moved, lemma_find_prefix,
    lemma_find_char_prefix, lemma_mark_prefix, lemma_moved, lemma_nth_agree, lemma_nth_set,
    lemma_nth_split, lemma_none_stays, lemma_occ_char_at, lemma_rfind_pin, lemma_text_case,
    attr_span, nth_from, nth_mark, plain_value, tidy_before, tidy_field,
};
use super::title::avoids;
use crate::text::{
    find_char_from, find_from, lemma_find_char_from, lemma_find_from, lemma_find_from_first,
    lemma_find_from_none, lemma_rfind_char_before, occurs_at, rfind_char_before,
};
use crate::widget_layout::fields::{
    fields_from, field_mark, lemma_mark_at, mark_at, mark_value, replace_attr_spec,
    set_field_from, text_end, word_text, FieldSpec, MarkSpec,
};
use vstd::prelude::*;

verus! {

// ───────────────────────── reading past an edit ─────────────────────────

/// A search for a pattern from past an edited stretch finds what it found
/// before, moved by the change in length.
pub proof fn lemma_find_moved(
    s: Seq<char>,
    out: Seq<char>,
    v: Seq<char>,
    p: int,
    q0: int,
    pat: Seq<char>,
    a: int,
)
    requires
        0 <= p <= q0 <= a,
        q0 <= s.len(),
        out == s.take(p) + v + s.skip(q0),
    ensures
        find_from(out, pat, a + v.len() - (q0 - p)) == match find_from(s, pat, a) {
            Some(x) => Some(x + v.len() - (q0 - p)),
            None => None::<int>,
        },
{
    let x = s.take(p) + v;
    let dd = s.skip(q0);
    assert(out =~= x + dd);
    assert(s =~= s.take(q0) + dd);
    super::scan::lemma_find_shift(x, dd, pat, a - q0);
    super::scan::lemma_find_shift(s.take(q0), dd, pat, a - q0);
}

/// A backward search that stops past an edited stretch finds what it found
/// before, moved by the change in length.
pub proof fn lemma_rfind_moved(
    s: Seq<char>,
    out: Seq<char>,
    v: Seq<char>,
    p: int,
    q0: int,
    c: char,
    end: int,
    y: int,
)
    requires
        0 <= p <= q0 <= y < end <= s.len(),
        out == s.take(p) + v + s.skip(q0),
        rfind_char_before(s, c, end) == Some(y),
    ensures
        rfind_char_before(out, c, end + v.len() - (q0 - p)) == Some(y + v.len() - (q0 - p)),
{
    let d = v.len() - (q0 - p);
    lemma_moved(s, out, v, p, q0);
    lemma_rfind_char_before(s, c, end);
    assert(out[y + d] == s[y]);
    assert forall|k: int| y + d < k < end + d implies out[k] != c by {
        assert(out[k] == s[k - d]);
    }
    lemma_rfind_pin(out, c, end + d, y + d);
}

/// A stretch past an edit reads the same, moved by the change in length.
pub proof fn lemma_span_moved(s: Seq<char>, out: Seq<char>, v: Seq<char>, p: int, q0: int, a: int, b: int)
    requires
        0 <= p <= q0 <= a <= b <= s.len(),
        out == s.take(p) + v + s.skip(q0),
    ensures
        out.subrange(a + v.len() - (q0 - p), b + v.len() - (q0 - p)) == s.subrange(a, b),
{
    let d = v.len() - (q0 - p);
    lemma_moved(s, out, v, p, q0);
    assert forall|k: int| 0 <= k < b - a implies out.subrange(a + d, b + d)[k] == s.subrange(a, b)[k] by {
        assert(s[a + k] == out[a + k + d]);
    }
    assert(out.subrange(a + d, b + d) =~= s.subrange(a, b));
}

/// One character past an edit, moved by the change in length.
pub proof fn lemma_char_moved(s: Seq<char>, out: Seq<char>, v: Seq<char>, p: int, q0: int, k: int)
    requires
        0 <= p <= q0 <= k < s.len(),
        out == s.take(p) + v + s.skip(q0),
    ensures
        out.len() == s.len() + v.len() - (q0 - p),
        out[k + v.len() - (q0 - p)] == s[k],
{
    assert(out[k + v.len() - (q0 - p)] == s.skip(q0)[k - q0]);
}

/// A marker past an edit, with a `<` between the edit and the marker, is
/// read the same, moved by the change in length.
#[verifier::spinoff_prover]
#[verifier::rlimit(40)]
pub proof fn lemma_mark_shifted(s: Seq<char>, out: Seq<char>, v: Seq<char>, p: int, q0: int, c: int, pos: int)
    requires
        0 <= p <= q0 <= c < pos,
        pos + 15 <= s.len(),
        s[c] == '<',
        out == s.take(p) + v + s.skip(q0),
    ensures
        ({
            let d = v.len() - (q0 - p);
            match mark_at(s, pos) {
                None => mark_at(out, pos + d) is None,
                Some(m) => mark_at(out, pos + d) == Some(
                    MarkSpec {
                        attr: m.attr,
                        label: m.label,
                        options: m.options,
                        lt: m.lt + d,
                        gt: m.gt + d,
                    },
                ),
            }
        }),
{
    let d = v.len() - (q0 - p);
    let vs = pos + 15;
    lemma_char_moved(s, out, v, p, q0, pos);
    if vs < s.len() {
        lemma_char_moved(s, out, v, p, q0, vs);
        let q = s[vs];
        if q == '\'' || q == '"' {
            lemma_find_char_moved(s, out, v, p, q0, q, vs + 1);
            lemma_find_char_from(s, q, vs + 1);
            if find_char_from(s, q, vs + 1) is Some {
                let e = find_char_from(s, q, vs + 1)->0;
                lemma_span_moved(s, out, v, p, q0, vs + 1, e);
                lemma_rfind_char_before(s, '<', pos);
                let lt = rfind_char_before(s, '<', pos)->0;
                assert(c <= lt);
                lemma_rfind_moved(s, out, v, p, q0, '<', pos, lt);
                lemma_find_char_moved(s, out, v, p, q0, '>', pos);
            }
        }
    }
}

/// A marker moved past an edit shows the value it showed.
#[verifier::spinoff_prover]
pub proof fn lemma_value_shifted(s: Seq<char>, out: Seq<char>, v: Seq<char>, p: int, q0: int, m: MarkSpec)
    requires
        0 <= p <= q0 <= m.lt < m.gt < s.len(),
        out == s.take(p) + v + s.skip(q0),
    ensures
        ({
            let d = v.len() - (q0 - p);
            mark_value(
                out,
                MarkSpec { attr: m.attr, label: m.label, options: m.options, lt: m.lt + d, gt: m.gt + d },
            ) == mark_value(s, m)
        }),
{
    let d = v.len() - (q0 - p);
    lemma_char_moved(s, out, v, p, q0, m.gt);
    lemma_find_char_moved(s, out, v, p, q0, '<', m.gt + 1);
    lemma_find_char_from(s, '<', m.gt + 1);
    lemma_span_moved(s, out, v, p, q0, m.gt + 1, text_end(s, m.gt));
    lemma_span_moved(s, out, v, p, q0, m.lt, m.gt + 1);
}

/// The fields listed from past an edit, with a `<` between the edit and the
/// first marker, are those listed before, the search moved by the change in
/// length.
#[verifier::spinoff_prover]
#[verifier::rlimit(40)]
pub proof fn lemma_fields_moved(
    s: Seq<char>,
    out: Seq<char>,
    v: Seq<char>,
    p: int,
    q0: int,
    c: int,
    search: int,
)
    requires
        0 <= p <= q0 <= search,
        q0 <= c <= s.len(),
        c < s.len() ==> s[c] == '<',
        out == s.take(p) + v + s.skip(q0),
        find_from(s, field_mark(), search) matches Some(x) ==> c < x,
    ensures
        fields_from(out, search + v.len() - (q0 - p)) == fields_from(s, search),
    decreases s.len() + 1 - search,
{
    let d = v.len() - (q0 - p);
    let mk = field_mark();
    lemma_find_moved(s, out, v, p, q0, mk, search);
    lemma_find_from(s, mk, search);
    if find_from(s, mk, search) is Some {
        let x = find_from(s, mk, search)->0;
        lemma_mark_at(s, x);
        lemma_mark_shifted(s, out, v, p, q0, c, x);
        lemma_find_from(s, mk, x + 15);
        match mark_at(s, x) {
            None => {
                lemma_fields_moved(s, out, v, p, q0, c, x + 15);
                assert(fields_from(out, search + d) == fields_from(out, x + 15 + d));
            },
            Some(m) => {
                lemma_find_from(s, mk, m.gt + 1);
                lemma_fields_moved(s, out, v, p, q0, c, m.gt + 1);
                lemma_rfind_char_before(s, '<', x);
                assert(c <= m.lt);
                lemma_value_shifted(s, out, v, p, q0, m);
                let m2 = mark_at(out, x + d)->0;
                assert(fields_from(out, search + d) == seq![
                    FieldSpec { label: m2.label, value: mark_value(out, m2), options: m2.options },
                ] + fields_from(out, m.gt + 1 + d));
            },
        }
    }
}

/// With no marker in `a..b`, the fields listed from `a` are those listed
/// from `b`.
pub proof fn lemma_fields_skip(x: Seq<char>, a: int, b: int)
    requires
        0 <= a <= b,
        forall|k: int| a <= k < b ==> !occurs_at(x, field_mark(), k),
    ensures
        fields_from(x, a) == fields_from(x, b),
{
    let mk = field_mark();
    lemma_find_from(x, mk, a);
    lemma_find_from(x, mk, b);
    if find_from(x, mk, b) is Some {
        let y = find_from(x, mk, b)->0;
        assert forall|k: int| a <= k < y implies !occurs_at(x, mk, k) by {
            if k >= b {
            }
        }
        lemma_find_from_first(x, mk, a, y);
    } else {
        assert forall|k: int| a <= k implies !occurs_at(x, mk, k) by {
            if k >= b {
            }
        }
        lemma_find_from_none(x, mk, a);
    }
    assert(find_from(x, mk, a) == find_from(x, mk, b));
}

/// Text written in place of an element's text, before a `<` or the end of
/// the buffer, holds no marker, and none runs out of it.
pub proof fn lemma_no_mark_written(s: Seq<char>, out: Seq<char>, v: Seq<char>, p: int, q0: int, k: int)
    requires
        0 <= p <= q0 <= s.len(),
        q0 < s.len() ==> s[q0] == '<',
        out == s.take(p) + v + s.skip(q0),
        plain_value(v),
        p <= k < p + v.len(),
    ensures
        !occurs_at(out, field_mark(), k),
{
    let mk = field_mark();
    lemma_moved(s, out, v, p, q0);
    lemma_find_from(v, mk, 0);
    if occurs_at(out, mk, k) {
        if k + 15 <= p + v.len() {
            assert(out.subrange(k, k + 15) =~= v.subrange(k - p, k - p + 15));
            assert(occurs_at(v, mk, k - p));
        } else {
            lemma_occ_char_at(out, mk, k, p + v.len());
            assert(out[p + v.len()] == s[q0]);
        }
    }
}

// ───────────────────────── the fields before ─────────────────────────

/// The field scan of an edited buffer lists the fields before the
/// `index`-th one as the buffer's scan does, where the edit lies past the
/// `<` that opens the `index`-th field's tag and writes no quote.
#[verifier::spinoff_prover]
#[verifier::rlimit(40)]
pub proof fn lemma_fields_before(
    s: Seq<char>,
    t: Seq<char>,
    w: Seq<char>,
    p: int,
    q0: int,
    search: int,
    i: int,
    index: int,
    lt0: int,
)
    requires
        0 <= search,
        i <= index,
        nth_from(s, search, i, index) matches Some(r) && r <= lt0 && nth_from(t, r, index, index)
            == Some(r) && find_char_from(s, '>', r) is Some,
        lt0 < p,
        s[lt0] == '<',
        tidy_before(s, search, i, index),
        p <= q0 <= s.len(),
        t == s.take(p) + w + s.skip(q0),
        avoids(w, '\''),
        avoids(w, '"'),
    ensures
        fields_from(t, search).len() >= index - i,
        fields_from(s, search).len() >= index - i,
        fields_from(t, search).take(index - i) == fields_from(s, search).take(index - i),
    decreases s.len() + 1 - search,
{
    let r = nth_from(s, search, i, index)->0;
    lemma_nth_split(s, search, i, index);
    lemma_nth_agree(s, t, w, p, q0, search, i, index);
    lemma_nth_split(t, search, i, index);
    assert(t.take(p) =~= s.take(p));
    lemma_find_from(s, field_mark(), search);
    let pos = find_from(s, field_mark(), search)->0;
    lemma_mark_at(s, pos);
    lemma_find_char_from(s, '>', r);
    let x = find_char_from(s, '>', r)->0;
    lemma_find_char_from(s, '>', pos);
    assert(s[x] == '>');
    match mark_at(s, pos) {
        None => {
            lemma_nth_split(s, pos + 15, i, index);
            lemma_find_prefix(s, t, field_mark(), search, p);
            lemma_none_stays(s, t, w, p, q0, pos);
            lemma_fields_before(s, t, w, p, q0, pos + 15, i, index, lt0);
        },
        Some(m) => {
            if i < index {
                lemma_nth_split(s, m.gt + 1, i + 1, index);
                lemma_find_prefix(s, t, field_mark(), search, p);
                lemma_mark_prefix(s, t, pos, p);
                lemma_fields_before(s, t, w, p, q0, m.gt + 1, i + 1, index, lt0);
                // the field's value lies before the next tag's `<`
                lemma_find_char_from(s, '<', m.gt + 1);
                lemma_find_char_prefix(s, t, '<', m.gt + 1, p);
                let te = text_end(s, m.gt);
                assert(te <= lt0);
                assert(text_end(t, m.gt) == te);
                assert(t.subrange(m.gt + 1, te) == t.take(p).subrange(m.gt + 1, te));
                assert(s.subrange(m.gt + 1, te) == s.take(p).subrange(m.gt + 1, te));
                assert(t.subrange(m.lt, m.gt + 1) == t.take(p).subrange(m.lt, m.gt + 1));
                assert(s.subrange(m.lt, m.gt + 1) == s.take(p).subrange(m.lt, m.gt + 1));
                assert(mark_value(t, m) == mark_value(s, m));
                let fs = FieldSpec { label: m.label, value: mark_value(s, m), options: m.options };
                let rs = fields_from(s, m.gt + 1);
                let rt = fields_from(t, m.gt + 1);
                assert(fields_from(s, search) == seq![fs] + rs);
                assert(fields_from(t, search) == seq![fs] + rt);
                assert((seq![fs] + rs).take(index - i) =~= seq![fs] + rs.take(index - i - 1));
                assert((seq![fs] + rt).take(index - i) =~= seq![fs] + rt.take(index - i - 1));
            } else {
                assert(fields_from(t, search).take(0) =~= fields_from(s, search).take(0));
            }
        },
    }
}

// ───────────────────────── the law ─────────────────────────

/// No marker sits in the text right after the `index`-th field's tag, before
/// the next `<`.
pub open spec fn text_clear(s: Seq<char>, index: int) -> bool {
    match nth_mark(s, index) {
        None => false,
        Some((_r, _pos, m)) => find_from(s, field_mark(), m.gt + 1) matches Some(x) ==> text_end(
            s,
            m.gt,
        ) <= x,
    }
}

/// The fields listed from just past the `index`-th field's tag of an edited
/// buffer are those listed past it before, where the edit rewrote text
/// holding no marker up to the next `<`.
#[verifier::spinoff_prover]
#[verifier::rlimit(40)]
pub proof fn lemma_fields_after(
    s: Seq<char>,
    out: Seq<char>,
    v: Seq<char>,
    p: int,
    q0: int,
    gt: int,
    text: bool,
)
    requires
        0 <= gt,
        gt < s.len(),
        find_from(s, field_mark(), gt + 1) matches Some(x) ==> text_end(s, gt) <= x,
        out == s.take(p) + v + s.skip(q0),
        plain_value(v),
        text ==> p == gt + 1 && q0 == text_end(s, gt),
        !text ==> 0 <= p <= q0 <= gt,
    ensures
        fields_from(out, gt + 1 + (if text { 0 } else { v.len() - (q0 - p) })) == fields_from(
            s,
            gt + 1,
        ),
{
    let mk = field_mark();
    let c = text_end(s, gt);
    lemma_find_char_from(s, '<', gt + 1);
    lemma_find_from(s, mk, gt + 1);
    if find_from(s, mk, gt + 1) is Some {
        let x = find_from(s, mk, gt + 1)->0;
        lemma_occ_char_at(s, mk, x, x);
    }
    if text {
        let d = v.len() - (q0 - p);
        lemma_moved(s, out, v, p, q0);
        assert forall|k: int| gt + 1 <= k < c implies !occurs_at(s, mk, k) by {
            if find_from(s, mk, gt + 1) is Some {
                let x = find_from(s, mk, gt + 1)->0;
                assert(k < x);
            }
        }
        lemma_fields_skip(s, gt + 1, c);
        assert forall|k: int| gt + 1 <= k < gt + 1 + v.len() implies !occurs_at(out, mk, k) by {
            lemma_no_mark_written(s, out, v, p, q0, k);
        }
        lemma_fields_skip(out, gt + 1, gt + 1 + v.len());
        lemma_find_from(s, mk, c);
        if find_from(s, mk, c) is Some {
            let x = find_from(s, mk, c)->0;
            lemma_occ_char_at(s, mk, x, x);
        }
        lemma_fields_moved(s, out, v, p, q0, c, c);
        assert(c + d == gt + 1 + v.len());
    } else {
        lemma_fields_moved(s, out, v, p, q0, c, gt + 1);
    }
}

/// Writing a field leaves the others alone: a reparse lists as many fields,
/// every other field reads as before, and the written field keeps its label
/// and options. This holds for a plain value and a tidy field whose tag is
/// followed by text holding no marker (a marker there is read from inside
/// the written text, or looks back for its tag into the written one).
#[verifier::spinoff_prover]
#[verifier::rlimit(60)]
pub proof fn law_set_field_keeps_other_fields(s: Seq<char>, index: int, v: Seq<char>)
    requires
        0 <= index < fields_from(s, 0).len(),
        tidy_field(s, index),
        text_clear(s, index),
        plain_value(v),
    ensures
        ({
            let out = set_field_from(s, 0, 0, index, v);
            let f = fields_from(s, 0);
            let g = fields_from(out, 0);
            &&& g.len() == f.len()
            &&& g[index].label == f[index].label
            &&& g[index].options == f[index].options
            &&& forall|j: int| 0 <= j < f.len() && j != index ==> #[trigger] g[j] == f[j]
        }),
{
    lemma_nth_split(s, 0, 0, index);
    let r = nth_from(s, 0, 0, index)->0;
    lemma_find_from(s, field_mark(), r);
    let pos = find_from(s, field_mark(), r)->0;
    lemma_mark_at(s, pos);
    let m = mark_at(s, pos)->0;
    lemma_nth_set(s, 0, 0, index, v);
    let out = set_field_from(s, 0, 0, index, v);
    let tag = s.subrange(m.lt, m.gt + 1);
    lemma_find_char_from(s, '>', r);
    lemma_find_char_from(s, '>', pos);
    let f = fields_from(s, 0);
    let fi = FieldSpec { label: m.label, value: mark_value(s, m), options: m.options };
    assert(fields_from(s, r) == seq![fi] + fields_from(s, m.gt + 1));
    assert(f.skip(index) == fields_from(s, r));
    if m.attr != word_text() && replace_attr_spec(tag, m.attr, v) is None {
        assert(out == s);
    } else {
        let text = m.attr == word_text();
        let (p, q0) = if text {
            lemma_text_case(s, r, index, v, pos, m);
            (m.gt + 1, text_end(s, m.gt))
        } else {
            let (a, e) = attr_span(tag, m.attr);
            super::field_edit::lemma_attr_span(tag, m.attr, v);
            assert(replace_attr_spec(tag, m.attr, Seq::empty()) is Some);
            if m.lt + e <= pos {
                lemma_attr_before(s, r, index, v, pos, m);
            } else {
                lemma_attr_after(s, r, index, v, pos, m);
            }
            (m.lt + a, m.lt + e)
        };
        lemma_find_char_from(s, '<', m.gt + 1);
        lemma_fields_after(s, out, v, p, q0, m.gt, text);
        let gt2 = m.gt + 1 + (if text { 0 } else { v.len() - (q0 - p) });
        assert(fields_from(out, r).skip(1) == fields_from(out, gt2));
        lemma_nth_agree(s, out, v, p, q0, 0, 0, index);
        lemma_fields_before(s, out, v, p, q0, 0, 0, index, m.lt);
        lemma_nth_split(out, 0, 0, index);
        let g = fields_from(out, 0);
        let gr = fields_from(out, r);
        let sr = fields_from(s, r);
        assert(g.skip(index) == gr);
        assert(gr.skip(1) == sr.skip(1));
        assert(g.len() == f.len());
        assert(g[index] == gr[0]);
        assert(f[index] == sr[0]);
        assert forall|j: int| 0 <= j < f.len() && j != index implies #[trigger] g[j] == f[j] by {
            if j < index {
                assert(g[j] == g.take(index)[j]);
                assert(f[j] == f.take(index)[j]);
            } else {
                assert(g[j] == gr[j - index]);
                assert(f[j] == sr[j - index]);
                assert(gr[j - index] == gr.skip(1)[j - index - 1]);
                assert(sr[j - index] == sr.skip(1)[j - index - 1]);
            }
        }
    }
}

} // verus!
