//! Writing an editable field: a reparse shows the written value on that field,
//! with its label and options, at the same index.
use super::title::{avoids, lemma_find_same_prefix, lemma_no_occ_join};
use super::visible_tag::{lemma_quote_after, no_occ};
use crate::text::{
    contains, find_char_from, find_from, lemma_find_char_from, lemma_find_from,
    lemma_find_from_first, lemma_rfind_char_before, occurs_at, replace_char, rfind_char_before,
    trim,
};
use crate::widget_layout::fields::{
    escape_attr_spec, escape_text_spec, fields_from, field_mark, lemma_mark_at, mark_at, mark_value,
    replace_attr_spec, set_field_from, text_end, word_text, FieldSpec, MarkSpec,
};
use crate::widget_layout::{attr_pat, attr_q, attr_value};
use vstd::prelude::*;

verus! {

// ───────────────────────── following the scan ─────────────────────────

/// The search position from which the field scan (counting from `i` at
/// `search`) reaches the `index`-th field, or none.
pub open spec fn nth_from(s: Seq<char>, search: int, i: int, index: int) -> Option<int>
    decreases s.len() + 1 - search,
{
    if search < 0 {
        None
    } else {
        match find_from(s, field_mark(), search) {
            None => None,
            Some(pos) => {
                proof {
                    lemma_find_from(s, field_mark(), search);
                    lemma_mark_at(s, pos);
                }
                match mark_at(s, pos) {
                    None => nth_from(s, pos + 15, i, index),
                    Some(m) => if i == index {
                        Some(search)
                    } else {
                        nth_from(s, m.gt + 1, i + 1, index)
                    },
                }
            },
        }
    }
}

/// The quoted spec of the marker at `mp` closes before `gt`.
pub open spec fn spec_closes(s: Seq<char>, mp: int, gt: int) -> bool {
    match find_char_from(s, s[mp + 15], mp + 16) {
        Some(e) => e < gt,
        None => false,
    }
}

/// Every marker the field scan reads before the `index`-th closes its quoted
/// spec before its tag's `>`.
pub open spec fn tidy_before(s: Seq<char>, search: int, i: int, index: int) -> bool
    decreases s.len() + 1 - search,
{
    if search < 0 {
        true
    } else {
        match find_from(s, field_mark(), search) {
            None => true,
            Some(pos) => {
                proof {
                    lemma_find_from(s, field_mark(), search);
                    lemma_mark_at(s, pos);
                }
                match mark_at(s, pos) {
                    None => tidy_before(s, pos + 15, i, index),
                    Some(m) => if i == index {
                        true
                    } else {
                        spec_closes(s, pos, m.gt) && tidy_before(s, m.gt + 1, i + 1, index)
                    },
                }
            },
        }
    }
}

/// The fields the scan lists split where it reaches the `index`-th one, and
/// it reaches it whenever it lists that many.
pub proof fn lemma_nth_split(s: Seq<char>, search: int, i: int, index: int)
    requires
        0 <= search,
        i <= index,
    ensures
        nth_from(s, search, i, index) matches Some(r) ==> {
            &&& search <= r
            &&& nth_from(s, r, index, index) == Some(r)
            &&& fields_from(s, search).len() == (index - i) + fields_from(s, r).len()
            &&& fields_from(s, search).skip(index - i) == fields_from(s, r)
        },
        fields_from(s, search).len() > index - i ==> nth_from(s, search, i, index) is Some,
    decreases s.len() + 1 - search,
{
    lemma_find_from(s, field_mark(), search);
    match find_from(s, field_mark(), search) {
        None => {},
        Some(pos) => {
            lemma_mark_at(s, pos);
            match mark_at(s, pos) {
                None => {
                    lemma_nth_split(s, pos + 15, i, index);
                },
                Some(m) => {
                    if i == index {
                        assert(fields_from(s, search).skip(0) == fields_from(s, search));
                    } else {
                        lemma_nth_split(s, m.gt + 1, i + 1, index);
                        let f = FieldSpec {
                            label: m.label,
                            value: crate::widget_layout::fields::mark_value(s, m),
                            options: m.options,
                        };
                        let rest = fields_from(s, m.gt + 1);
                        assert(fields_from(s, search) == seq![f] + rest);
                        if nth_from(s, m.gt + 1, i + 1, index) is Some {
                            let r = nth_from(s, m.gt + 1, i + 1, index)->0;
                            assert((seq![f] + rest).skip(index - i) =~= rest.skip(index - i - 1));
                        }
                    }
                },
            }
        },
    }
}

/// Writing a field follows the scan to the field it writes.
pub proof fn lemma_nth_set(s: Seq<char>, search: int, i: int, index: int, v: Seq<char>)
    requires
        0 <= search,
        i <= index,
        nth_from(s, search, i, index) is Some,
    ensures
        set_field_from(s, search, i, index, v) == set_field_from(
            s,
            nth_from(s, search, i, index)->0,
            index,
            index,
            v,
        ),
    decreases s.len() + 1 - search,
{
    lemma_find_from(s, field_mark(), search);
    let pos = find_from(s, field_mark(), search)->0;
    lemma_mark_at(s, pos);
    match mark_at(s, pos) {
        None => {
            lemma_nth_set(s, pos + 15, i, index, v);
        },
        Some(m) => {
            if i < index {
                lemma_nth_set(s, m.gt + 1, i + 1, index, v);
            }
        },
    }
}

// ───────────────────────── reading a shared prefix ─────────────────────────

/// A search whose result lies inside a shared prefix finds it in either text.
pub proof fn lemma_find_prefix(s: Seq<char>, t: Seq<char>, pat: Seq<char>, from: int, p: int)
    requires
        0 <= from,
        find_from(s, pat, from) matches Some(x) && x + pat.len() <= p,
        p <= s.len(),
        p <= t.len(),
        t.take(p) == s.take(p),
    ensures
        find_from(t, pat, from) == find_from(s, pat, from),
{
    lemma_find_from(s, pat, from);
    let x = find_from(s, pat, from)->0;
    let l = pat.len() as int;
    assert(t.subrange(x, x + l) == t.take(p).subrange(x, x + l));
    assert(s.subrange(x, x + l) == s.take(p).subrange(x, x + l));
    assert forall|k: int| from <= k < x implies !occurs_at(t, pat, k) by {
        if occurs_at(t, pat, k) {
            assert(t.subrange(k, k + l) == t.take(p).subrange(k, k + l));
            assert(s.subrange(k, k + l) == s.take(p).subrange(k, k + l));
            assert(occurs_at(s, pat, k));
        }
    }
    lemma_find_from_first(t, pat, from, x);
}

/// A character search whose result lies inside a shared prefix finds it in
/// either text.
pub proof fn lemma_find_char_prefix(s: Seq<char>, t: Seq<char>, c: char, from: int, p: int)
    requires
        0 <= from,
        find_char_from(s, c, from) matches Some(x) && x < p,
        p <= s.len(),
        p <= t.len(),
        t.take(p) == s.take(p),
    ensures
        find_char_from(t, c, from) == find_char_from(s, c, from),
    decreases p - from,
{
    lemma_find_char_from(s, c, from);
    assert(t[from] == t.take(p)[from]);
    assert(s[from] == s.take(p)[from]);
    if s[from] != c {
        lemma_find_char_prefix(s, t, c, from + 1, p);
    }
}

/// A backward character search inside a shared prefix finds the same.
pub proof fn lemma_rfind_prefix(s: Seq<char>, t: Seq<char>, c: char, end: int, p: int)
    requires
        0 <= end <= p,
        p <= s.len(),
        p <= t.len(),
        t.take(p) == s.take(p),
    ensures
        rfind_char_before(t, c, end) == rfind_char_before(s, c, end),
    decreases end,
{
    if end > 0 {
        assert(t[end - 1] == t.take(p)[end - 1]);
        assert(s[end - 1] == s.take(p)[end - 1]);
        if s[end - 1] != c {
            lemma_rfind_prefix(s, t, c, end - 1, p);
        }
    }
}

/// A marker whose spec closes before its tag's `>` is read the same from any
/// text sharing the buffer up to that `>`.
pub proof fn lemma_mark_prefix(s: Seq<char>, t: Seq<char>, pos: int, p: int)
    requires
        0 <= pos,
        pos + 15 <= s.len(),
        mark_at(s, pos) matches Some(m) && spec_closes(s, pos, m.gt) && m.gt < p,
        p <= s.len(),
        p <= t.len(),
        t.take(p) == s.take(p),
    ensures
        mark_at(t, pos) == mark_at(s, pos),
{
    let m = mark_at(s, pos)->0;
    lemma_mark_at(s, pos);
    let vs = pos + 15;
    let q = s[vs];
    lemma_find_char_from(s, q, vs + 1);
    let e = find_char_from(s, q, vs + 1)->0;
    assert(t[vs] == t.take(p)[vs]);
    assert(s[vs] == s.take(p)[vs]);
    lemma_find_char_prefix(s, t, q, vs + 1, p);
    lemma_rfind_prefix(s, t, '<', pos, p);
    lemma_find_char_from(s, '>', pos);
    lemma_find_char_prefix(s, t, '>', pos, p);
    assert(t.subrange(vs + 1, e) == t.take(p).subrange(vs + 1, e));
    assert(s.subrange(vs + 1, e) == s.take(p).subrange(vs + 1, e));
}

// ───────────────────────── an edit after the prefix ─────────────────────────

/// A quote the buffer lacks from `a` on is lacking there after an edit that
/// writes no quote past a shared prefix.
pub proof fn lemma_quote_absent(s: Seq<char>, t: Seq<char>, w: Seq<char>, p: int, q0: int, a: int, q: char)
    requires
        0 <= a <= p <= q0 <= s.len(),
        t == s.take(p) + w + s.skip(q0),
        q == '\'' || q == '"',
        avoids(w, '\''),
        avoids(w, '"'),
        forall|k: int| a <= k < s.len() ==> s[k] != q,
    ensures
        find_char_from(t, q, a) is None,
{
    lemma_find_char_from(t, q, a);
    if find_char_from(t, q, a) is Some {
        let x = find_char_from(t, q, a)->0;
        if x < p {
            assert(t[x] == s[x]);
        } else if x < p + w.len() {
            assert(t[x] == w[x - p]);
        } else {
            assert(t[x] == s[x - p - w.len() + q0]);
        }
    }
}

/// A broken marker before the edit stays broken.
pub proof fn lemma_none_stays(s: Seq<char>, t: Seq<char>, w: Seq<char>, p: int, q0: int, pos: int)
    requires
        0 <= pos,
        pos + 15 < p <= q0 <= s.len(),
        t == s.take(p) + w + s.skip(q0),
        avoids(w, '\''),
        avoids(w, '"'),
        mark_at(s, pos) is None,
        find_char_from(s, '>', pos) is Some,
    ensures
        mark_at(t, pos) is None,
{
    let vs = pos + 15;
    assert(t[vs] == s[vs]);
    if s[vs] == '\'' || s[vs] == '"' {
        let q = s[vs];
        lemma_find_char_from(s, q, vs + 1);
        if find_char_from(s, q, vs + 1) is None {
            lemma_quote_absent(s, t, w, p, q0, vs + 1, q);
        } else {
            assert(t.take(p) == s.take(p));
            lemma_rfind_prefix(s, t, '<', pos, p);
        }
    }
}

/// The field scan of an edited buffer passes the markers before the
/// `index`-th field as the buffer's scan does, where the edit lies past them
/// and writes no quote.
#[verifier::spinoff_prover]
#[verifier::rlimit(40)]
pub proof fn lemma_nth_agree(
    s: Seq<char>,
    t: Seq<char>,
    w: Seq<char>,
    p: int,
    q0: int,
    search: int,
    i: int,
    index: int,
)
    requires
        0 <= search,
        i <= index,
        nth_from(s, search, i, index) matches Some(r) && r < p && nth_from(t, r, index, index)
            == Some(r) && find_char_from(s, '>', r) is Some,
        tidy_before(s, search, i, index),
        p <= q0 <= s.len(),
        t == s.take(p) + w + s.skip(q0),
        avoids(w, '\''),
        avoids(w, '"'),
    ensures
        nth_from(t, search, i, index) == nth_from(s, search, i, index),
    decreases s.len() + 1 - search,
{
    let r = nth_from(s, search, i, index)->0;
    lemma_nth_split(s, search, i, index);
    assert(t.take(p) =~= s.take(p));
    lemma_find_from(s, field_mark(), search);
    let pos = find_from(s, field_mark(), search)->0;
    lemma_mark_at(s, pos);
    lemma_find_char_from(s, '>', r);
    let x = find_char_from(s, '>', r)->0;
    lemma_find_char_from(s, '>', pos);
    assert(s[x] == '>');
    match mark_at(s, pos) {
        None => {
            lemma_nth_split(s, pos + 15, i, index);
            lemma_find_prefix(s, t, field_mark(), search, p);
            lemma_none_stays(s, t, w, p, q0, pos);
            lemma_nth_agree(s, t, w, p, q0, pos + 15, i, index);
        },
        Some(m) => {
            if i < index {
                lemma_nth_split(s, m.gt + 1, i + 1, index);
                lemma_find_prefix(s, t, field_mark(), search, p);
                lemma_mark_prefix(s, t, pos, p);
                lemma_nth_agree(s, t, w, p, q0, m.gt + 1, i + 1, index);
            }
        },
    }
}

// ───────────────────────── plain values ─────────────────────────

/// A value written as it is: no `&`, `<`, `>` or quote, and no field marker.
pub open spec fn plain_value(v: Seq<char>) -> bool {
    &&& avoids(v, '&')
    &&& avoids(v, '<')
    &&& avoids(v, '>')
    &&& avoids(v, '\'')
    &&& avoids(v, '"')
    &&& !contains(v, field_mark())
}

/// Replacing a character that does not occur changes nothing.
pub proof fn lemma_replace_absent(s: Seq<char>, c: char, with: Seq<char>)
    requires
        avoids(s, c),
    ensures
        replace_char(s, c, with) == s,
    decreases s.len(),
{
    if s.len() > 0 {
        let init = s.drop_last();
        assert forall|k: int| 0 <= k < init.len() implies #[trigger] init[k] != c by {
            assert(init[k] == s[k]);
        }
        lemma_replace_absent(init, c, with);
        assert(s.last() == s[s.len() - 1]);
        assert(s =~= init + seq![s.last()]);
    }
}

/// A plain value is written unescaped.
pub proof fn lemma_escape_plain(v: Seq<char>)
    requires
        plain_value(v),
    ensures
        escape_text_spec(v) == v,
        escape_attr_spec(v, '\'') == v,
        escape_attr_spec(v, '"') == v,
{
    lemma_replace_absent(v, '&', seq!['&', 'a', 'm', 'p', ';']);
    lemma_replace_absent(v, '<', seq!['&', 'l', 't', ';']);
    lemma_replace_absent(v, '\'', seq!['&', '#', '3', '9', ';']);
    lemma_replace_absent(v, '"', seq!['&', 'q', 'u', 'o', 't', ';']);
}

/// A rewritten attribute value, written plain, is what the tag reads; a
/// double-quoted one needs an attribute name without `"`, so that no
/// `name='` appears.
#[verifier::spinoff_prover]
pub proof fn lemma_attr_reads(tag: Seq<char>, name: Seq<char>, v: Seq<char>)
    requires
        replace_attr_spec(tag, name, v) is Some,
        plain_value(v),
        avoids(name, '"'),
    ensures
        attr_value(replace_attr_spec(tag, name, v)->0, name) == Some(v),
{
    lemma_escape_plain(v);
    let nt = replace_attr_spec(tag, name, v)->0;
    let pat1 = attr_pat(name, '\'');
    let pat2 = attr_pat(name, '"');
    let l = name.len() + 2;
    lemma_find_from(tag, pat1, 0);
    if find_from(tag, pat1, 0) is Some {
        let p = find_from(tag, pat1, 0)->0;
        lemma_find_char_from(tag, '\'', p + l);
        let e = find_char_from(tag, '\'', p + l)->0;
        assert(nt =~= tag.take(p + l) + v + tag.skip(e));
        assert(nt.take(p + l) =~= tag.take(p + l));
        lemma_find_same_prefix(tag, nt, pat1, p);
        assert(nt.subrange(p + l, p + l + v.len()) =~= v);
        assert(nt[p + l + v.len()] == tag[e]);
        lemma_quote_after(nt, p + l, v, '\'');
    } else {
        lemma_find_from(tag, pat2, 0);
        let p = find_from(tag, pat2, 0)->0;
        lemma_find_char_from(tag, '"', p + l);
        let e = find_char_from(tag, '"', p + l)->0;
        let a = tag.take(p + l);
        let m = v + seq!['"'];
        let b = tag.skip(e + 1);
        assert(nt =~= a + m + b);
        assert forall|q: int| !#[trigger] occurs_at(a, pat1, q) by {
            if occurs_at(a, pat1, q) {
                assert(a.subrange(q, q + l) == tag.subrange(q, q + l));
                assert(occurs_at(tag, pat1, q));
            }
        }
        assert forall|q: int| !#[trigger] occurs_at(b, pat1, q) by {
            if occurs_at(b, pat1, q) {
                assert(b.subrange(q, q + l) == tag.subrange(e + 1 + q, e + 1 + q + l));
                assert(occurs_at(tag, pat1, e + 1 + q));
            }
        }
        assert forall|k: int| 0 <= k < m.len() implies #[trigger] m[k] != '\'' by {
            if k < v.len() {
                assert(m[k] == v[k]);
            }
        }
        assert forall|k: int| 0 <= k < pat1.len() implies #[trigger] pat1[k] != '"' by {
            if k < name.len() {
                assert(pat1[k] == name[k]);
            }
        }
        lemma_no_occ_join(a, m, b, pat1);
        lemma_find_from(nt, pat1, 0);
        assert(attr_q(nt, name, '\'') is None);
        assert(nt.take(p + l) =~= tag.take(p + l));
        lemma_find_same_prefix(tag, nt, pat2, p);
        assert(nt.subrange(p + l, p + l + v.len()) =~= v);
        assert(nt[p + l + v.len()] == tag[e]);
        lemma_quote_after(nt, p + l, v, '"');
    }
}

// ───────────────────────── the written field ─────────────────────────

/// A character search passes a stretch without the character.
pub proof fn lemma_find_char_skip(x: Seq<char>, c: char, a: int, b: int)
    requires
        0 <= a <= b <= x.len(),
        forall|k: int| a <= k < b ==> x[k] != c,
    ensures
        find_char_from(x, c, a) == find_char_from(x, c, b),
    decreases b - a,
{
    if a < b {
        lemma_find_char_skip(x, c, a + 1, b);
    }
}

/// Writing a text field: the scan from where it reaches the field finds it
/// at the same place, showing the written value trimmed.
#[verifier::spinoff_prover]
pub proof fn lemma_text_case(s: Seq<char>, r: int, index: int, v: Seq<char>, pos: int, m: MarkSpec)
    requires
        0 <= r,
        find_from(s, field_mark(), r) == Some(pos),
        mark_at(s, pos) == Some(m),
        m.attr == word_text(),
        spec_closes(s, pos, m.gt),
        plain_value(v),
    ensures
        ({
            let out = set_field_from(s, r, index, index, v);
            &&& out == s.take(m.gt + 1) + v + s.skip(text_end(s, m.gt))
            &&& nth_from(out, r, index, index) == Some(r)
            &&& fields_from(out, r).len() > 0
            &&& fields_from(out, r)[0] == FieldSpec { label: m.label, value: trim(v), options: m.options }
            &&& fields_from(out, r).skip(1) == fields_from(out, m.gt + 1)
        }),
{
    lemma_find_from(s, field_mark(), r);
    lemma_mark_at(s, pos);
    lemma_escape_plain(v);
    let q = s[pos + 15];
    lemma_find_char_from(s, q, pos + 16);
    let gt = m.gt;
    let p = gt + 1;
    lemma_find_char_from(s, '<', p);
    let te = text_end(s, gt);
    let out = set_field_from(s, r, index, index, v);
    assert(out == s.take(p) + v + s.skip(te));
    assert(out.take(p) =~= s.take(p));
    lemma_find_prefix(s, out, field_mark(), r, p);
    lemma_mark_prefix(s, out, pos, p);
    // where the written text ends
    let d = s.skip(te);
    assert(out =~= s.take(p) + (v + d));
    super::scan::lemma_find_char_shift(s.take(p), v + d, '<', 0);
    assert forall|k: int| 0 <= k < v.len() implies (v + d)[k] != '<' by {
        assert((v + d)[k] == v[k]);
    }
    lemma_find_char_skip(v + d, '<', 0, v.len() as int);
    super::scan::lemma_find_char_shift(v, d, '<', 0);
    if te < s.len() {
        assert(d[0] == s[te]);
    } else {
        assert(d.len() == 0);
    }
    assert(text_end(out, gt) == p + v.len());
    assert(out.subrange(p, p + v.len()) =~= v);
    assert(mark_value(out, m) == trim(v));
    assert(fields_from(out, r).skip(1) =~= fields_from(out, m.gt + 1));
}

/// Where an attribute value is rewritten in a tag: just after the first
/// `name='` (else `name="`), up to the next quote of that kind.
pub open spec fn attr_span(tag: Seq<char>, name: Seq<char>) -> (int, int) {
    let q = if find_from(tag, attr_pat(name, '\''), 0) is Some {
        '\''
    } else {
        '"'
    };
    let vs = find_from(tag, attr_pat(name, q), 0)->0 + name.len() + 2;
    (vs, find_char_from(tag, q, vs)->0)
}

/// A successful rewrite replaces the span between two quotes.
pub proof fn lemma_attr_span(tag: Seq<char>, name: Seq<char>, v: Seq<char>)
    requires
        replace_attr_spec(tag, name, v) is Some,
        plain_value(v),
    ensures
        ({
            let (a, e) = attr_span(tag, name);
            &&& 2 <= a <= e < tag.len()
            &&& (tag[a - 1] == '\'' || tag[a - 1] == '"')
            &&& (tag[e] == '\'' || tag[e] == '"')
            &&& replace_attr_spec(tag, name, v)->0 == tag.take(a) + v + tag.skip(e)
        }),
{
    lemma_escape_plain(v);
    let q = if find_from(tag, attr_pat(name, '\''), 0) is Some {
        '\''
    } else {
        '"'
    };
    let pat = attr_pat(name, q);
    lemma_find_from(tag, pat, 0);
    let pa = find_from(tag, pat, 0)->0;
    let vs = pa + name.len() + 2;
    lemma_find_char_from(tag, q, vs);
    assert(tag[vs - 1] == tag.subrange(pa, pa + pat.len())[pat.len() - 1]);
}

/// The closing quote of the marker at `mp`.
pub open spec fn spec_close_at(s: Seq<char>, mp: int) -> int {
    find_char_from(s, s[mp + 15], mp + 16)->0
}

/// A character found after an edited stretch moves with the edit.
pub proof fn lemma_find_char_after(
    s: Seq<char>,
    t: Seq<char>,
    w: Seq<char>,
    p: int,
    q0: int,
    c: char,
    a: int,
    x: int,
)
    requires
        0 <= a <= p <= q0 <= x < s.len(),
        t == s.take(p) + w + s.skip(q0),
        find_char_from(s, c, a) == Some(x),
        avoids(w, c),
    ensures
        find_char_from(t, c, a) == Some(x + w.len() - (q0 - p)),
{
    lemma_find_char_from(s, c, a);
    let x2 = x + w.len() - (q0 - p);
    assert(t[x2] == s[x]);
    assert forall|k: int| a <= k < x2 implies t[k] != c by {
        if k < p {
            assert(t[k] == s[k]);
        } else if k < p + w.len() {
            assert(t[k] == w[k - p]);
        } else {
            assert(t[k] == s[k - w.len() + q0 - p]);
        }
    }
    lemma_find_char_skip(t, c, a, x2);
}

/// Writing an attribute field whose value lies after the marker's spec: the
/// scan finds the field at the same place, showing the written value.
#[verifier::spinoff_prover]
#[verifier::rlimit(40)]
pub proof fn lemma_attr_after(s: Seq<char>, r: int, index: int, v: Seq<char>, pos: int, m: MarkSpec)
    requires
        0 <= r,
        find_from(s, field_mark(), r) == Some(pos),
        mark_at(s, pos) == Some(m),
        m.attr != word_text(),
        spec_closes(s, pos, m.gt),
        plain_value(v),
        avoids(m.attr, '"'),
        replace_attr_spec(s.subrange(m.lt, m.gt + 1), m.attr, v) is Some,
        m.lt + attr_span(s.subrange(m.lt, m.gt + 1), m.attr).0 > spec_close_at(s, pos),
    ensures
        ({
            let out = set_field_from(s, r, index, index, v);
            let (a, e) = attr_span(s.subrange(m.lt, m.gt + 1), m.attr);
            &&& out == s.take(m.lt + a) + v + s.skip(m.lt + e)
            &&& nth_from(out, r, index, index) == Some(r)
            &&& fields_from(out, r).len() > 0
            &&& fields_from(out, r)[0] == FieldSpec { label: m.label, value: v, options: m.options }
            &&& fields_from(out, r).skip(1) == fields_from(out, m.gt + v.len() - (e - a) + 1)
        }),
{
    lemma_find_from(s, field_mark(), r);
    lemma_mark_at(s, pos);
    let tag = s.subrange(m.lt, m.gt + 1);
    let name = m.attr;
    lemma_attr_span(tag, name, v);
    let (a, e) = attr_span(tag, name);
    let lt = m.lt;
    let gt = m.gt;
    let p = lt + a;
    let q0 = lt + e;
    let nt = replace_attr_spec(tag, name, v)->0;
    let out = set_field_from(s, r, index, index, v);
    assert(out == s.take(lt) + nt + s.skip(gt + 1));
    assert(out =~= s.take(p) + v + s.skip(q0));
    assert(tag[e] == s[q0]);
    let qm = s[pos + 15];
    lemma_find_char_from(s, qm, pos + 16);
    let em = spec_close_at(s, pos);
    assert(out.take(p) =~= s.take(p));
    lemma_find_prefix(s, out, field_mark(), r, p);
    lemma_find_char_prefix(s, out, qm, pos + 16, p);
    lemma_rfind_prefix(s, out, '<', pos, p);
    lemma_find_char_from(s, '>', pos);
    lemma_find_char_after(s, out, v, p, q0, '>', pos, gt);
    let gt2 = gt + v.len() - (q0 - p);
    assert(out[pos + 15] == s[pos + 15]);
    assert(out.subrange(pos + 16, em) =~= s.subrange(pos + 16, em));
    let m2 = MarkSpec { attr: m.attr, label: m.label, options: m.options, lt, gt: gt2 };
    assert(mark_at(out, pos) == Some(m2));
    assert(out.subrange(lt, gt2 + 1) =~= nt);
    lemma_attr_reads(tag, name, v);
    assert(mark_value(out, m2) == v);
    assert(fields_from(out, r).skip(1) =~= fields_from(out, m2.gt + 1));
}

/// The last `c` before `end` is the one after which none follows.
pub proof fn lemma_rfind_pin(x: Seq<char>, c: char, end: int, y: int)
    requires
        0 <= y < end <= x.len(),
        x[y] == c,
        forall|k: int| y < k < end ==> x[k] != c,
    ensures
        rfind_char_before(x, c, end) == Some(y),
    decreases end,
{
    if end - 1 > y {
        lemma_rfind_pin(x, c, end - 1, y);
    }
}

/// Past an edited stretch the buffer reads as before, moved by the change in
/// length.
pub proof fn lemma_moved(s: Seq<char>, t: Seq<char>, w: Seq<char>, p: int, q0: int)
    requires
        0 <= p <= q0 <= s.len(),
        t == s.take(p) + w + s.skip(q0),
    ensures
        t.len() == s.len() + w.len() - (q0 - p),
        t.skip(p + w.len()) == s.skip(q0),
        forall|k: int| q0 <= k < s.len() ==> #[trigger] s[k] == t[k + w.len() - (q0 - p)],
{
    let d = w.len() - (q0 - p);
    assert(t.skip(p + w.len()) =~= s.skip(q0));
    assert forall|k: int| q0 <= k < s.len() implies #[trigger] s[k] == t[k + d] by {
        assert(t[k + d] == s.skip(q0)[k - q0]);
    }
}

/// The field marker holds no quote.
pub proof fn lemma_mark_unquoted()
    ensures
        avoids(field_mark(), '\''),
        avoids(field_mark(), '"'),
{
}

/// No marker starts at `k` of the edited buffer, between the scan's start and
/// where the marker moved.
#[verifier::spinoff_prover]
pub proof fn lemma_no_mark_moved(
    s: Seq<char>,
    out: Seq<char>,
    v: Seq<char>,
    p: int,
    q0: int,
    r: int,
    pos: int,
    k: int,
)
    requires
        0 <= r < p <= q0 <= pos,
        out == s.take(p) + v + s.skip(q0),
        pos + 15 <= s.len(),
        forall|j: int| r <= j < pos ==> !occurs_at(s, field_mark(), j),
        s[p - 1] == '\'' || s[p - 1] == '"',
        s[q0] == '\'' || s[q0] == '"',
        no_occ(v, field_mark()),
        avoids(field_mark(), '\''),
        avoids(field_mark(), '"'),
        r <= k < pos + v.len() - (q0 - p),
    ensures
        !occurs_at(out, field_mark(), k),
{
    let mk = field_mark();
    let d = v.len() - (q0 - p);
    lemma_moved(s, out, v, p, q0);
    if occurs_at(out, mk, k) {
        if k + 15 <= p {
            assert(out.subrange(k, k + 15) =~= s.subrange(k, k + 15));
            assert(occurs_at(s, mk, k));
        } else if k < p {
            lemma_occ_char_at(out, mk, k, p - 1);
            assert(out[p - 1] == s[p - 1]);
        } else if k + 15 <= p + v.len() {
            assert(out.subrange(k, k + 15) =~= v.subrange(k - p, k - p + 15));
            assert(occurs_at(v, mk, k - p));
        } else if k < p + v.len() {
            lemma_occ_char_at(out, mk, k, p + v.len());
            assert(out[p + v.len()] == s[q0]);
        } else {
            assert(out.subrange(k, k + 15) =~= s.subrange(k - d, k - d + 15));
            assert(occurs_at(s, mk, k - d));
        }
    }
}

/// An edit between two quotes before a marker, writing no marker, moves the
/// marker the scan finds next by the change in length.
#[verifier::spinoff_prover]
pub proof fn lemma_found_moved(s: Seq<char>, out: Seq<char>, v: Seq<char>, p: int, q0: int, r: int, pos: int)
    requires
        0 <= r < p <= q0 <= pos,
        out == s.take(p) + v + s.skip(q0),
        find_from(s, field_mark(), r) == Some(pos),
        s[p - 1] == '\'' || s[p - 1] == '"',
        s[q0] == '\'' || s[q0] == '"',
        !contains(v, field_mark()),
    ensures
        find_from(out, field_mark(), r) == Some(pos + v.len() - (q0 - p)),
{
    let mk = field_mark();
    lemma_mark_unquoted();
    lemma_find_from(s, mk, r);
    lemma_find_from(v, mk, 0);
    let d = v.len() - (q0 - p);
    lemma_moved(s, out, v, p, q0);
    assert(out.subrange(pos + d, pos + d + 15) =~= s.subrange(pos, pos + 15));
    assert(no_occ(v, mk));
    assert forall|k: int| r <= k < pos + d implies !occurs_at(out, mk, k) by {
        lemma_no_mark_moved(s, out, v, p, q0, r, pos, k);
    }
    lemma_find_from_first(out, mk, r, pos + d);
}

/// After an edit, a character search from past it finds what it found
/// before, moved by the change in length.
pub proof fn lemma_find_char_moved(s: Seq<char>, out: Seq<char>, v: Seq<char>, p: int, q0: int, c: char, a: int)
    requires
        0 <= p <= q0 <= a,
        q0 <= s.len(),
        out == s.take(p) + v + s.skip(q0),
    ensures
        find_char_from(out, c, a + v.len() - (q0 - p)) == match find_char_from(s, c, a) {
            Some(x) => Some(x + v.len() - (q0 - p)),
            None => None::<int>,
        },
{
    let x = s.take(p) + v;
    let dd = s.skip(q0);
    assert(out =~= x + dd);
    assert(s =~= s.take(q0) + dd);
    super::scan::lemma_find_char_shift(x, dd, c, a - q0);
    super::scan::lemma_find_char_shift(s.take(q0), dd, c, a - q0);
}

/// After an edit that writes no `<`, the tag of a marker past it still starts
/// where it did.
pub proof fn lemma_tag_start_kept(s: Seq<char>, out: Seq<char>, v: Seq<char>, p: int, q0: int, pos: int, lt: int)
    requires
        0 <= lt < p <= q0 <= pos <= s.len(),
        out == s.take(p) + v + s.skip(q0),
        rfind_char_before(s, '<', pos) == Some(lt),
        avoids(v, '<'),
    ensures
        rfind_char_before(out, '<', pos + v.len() - (q0 - p)) == Some(lt),
{
    let d = v.len() - (q0 - p);
    lemma_moved(s, out, v, p, q0);
    lemma_rfind_char_before(s, '<', pos);
    assert forall|k: int| lt < k < pos + d implies out[k] != '<' by {
        if k < p {
            assert(out[k] == s[k]);
        } else if k < p + v.len() {
            assert(out[k] == v[k - p]);
        } else {
            assert(out[k] == s[k - d]);
        }
    }
    assert(out[lt] == s[lt]);
    lemma_rfind_pin(out, '<', pos + d, lt);
}

/// A marker after an edit that writes no `<` reads the same, moved by the
/// change in length, in a tag that starts where it did.
#[verifier::spinoff_prover]
#[verifier::rlimit(40)]
pub proof fn lemma_mark_moved(s: Seq<char>, out: Seq<char>, v: Seq<char>, p: int, q0: int, pos: int, m: MarkSpec)
    requires
        0 <= p <= q0 <= pos,
        pos + 15 <= s.len(),
        out == s.take(p) + v + s.skip(q0),
        mark_at(s, pos) == Some(m),
        m.lt < p,
        spec_closes(s, pos, m.gt),
        avoids(v, '<'),
    ensures
        mark_at(out, pos + v.len() - (q0 - p)) == Some(
            MarkSpec { attr: m.attr, label: m.label, options: m.options, lt: m.lt, gt: m.gt + v.len() - (q0 - p) },
        ),
{
    lemma_mark_at(s, pos);
    let d = v.len() - (q0 - p);
    let pos2 = pos + d;
    lemma_moved(s, out, v, p, q0);
    let qm = s[pos + 15];
    assert(out[pos2 + 15] == qm);
    lemma_find_char_from(s, qm, pos + 16);
    let em = spec_close_at(s, pos);
    lemma_find_char_moved(s, out, v, p, q0, qm, pos + 16);
    lemma_find_char_moved(s, out, v, p, q0, '>', pos);
    lemma_tag_start_kept(s, out, v, p, q0, pos, m.lt);
    assert(out.subrange(pos2 + 16, em + d) =~= s.subrange(pos + 16, em));
}

/// Writing an attribute field whose value lies before the marker: the scan
/// finds the field moved by the change in length, showing the written value.
#[verifier::spinoff_prover]
#[verifier::rlimit(40)]
pub proof fn lemma_attr_before(s: Seq<char>, r: int, index: int, v: Seq<char>, pos: int, m: MarkSpec)
    requires
        0 <= r <= m.lt,
        find_from(s, field_mark(), r) == Some(pos),
        mark_at(s, pos) == Some(m),
        m.attr != word_text(),
        spec_closes(s, pos, m.gt),
        plain_value(v),
        avoids(m.attr, '"'),
        replace_attr_spec(s.subrange(m.lt, m.gt + 1), m.attr, v) is Some,
        m.lt + attr_span(s.subrange(m.lt, m.gt + 1), m.attr).1 <= pos,
    ensures
        ({
            let out = set_field_from(s, r, index, index, v);
            let (a, e) = attr_span(s.subrange(m.lt, m.gt + 1), m.attr);
            &&& out == s.take(m.lt + a) + v + s.skip(m.lt + e)
            &&& nth_from(out, r, index, index) == Some(r)
            &&& fields_from(out, r).len() > 0
            &&& fields_from(out, r)[0] == FieldSpec { label: m.label, value: v, options: m.options }
            &&& fields_from(out, r).skip(1) == fields_from(out, m.gt + v.len() - (e - a) + 1)
        }),
{
    lemma_find_from(s, field_mark(), r);
    lemma_mark_at(s, pos);
    let tag = s.subrange(m.lt, m.gt + 1);
    let name = m.attr;
    lemma_attr_span(tag, name, v);
    let (a, e) = attr_span(tag, name);
    let lt = m.lt;
    let gt = m.gt;
    let p = lt + a;
    let q0 = lt + e;
    let d = v.len() - (q0 - p);
    let nt = replace_attr_spec(tag, name, v)->0;
    let out = set_field_from(s, r, index, index, v);
    assert(out == s.take(lt) + nt + s.skip(gt + 1));
    assert(out =~= s.take(p) + v + s.skip(q0));
    assert(tag[e] == s[q0]);
    assert(tag[a - 1] == s[p - 1]);
    lemma_found_moved(s, out, v, p, q0, r, pos);
    lemma_mark_moved(s, out, v, p, q0, pos, m);
    let m2 = MarkSpec { attr: m.attr, label: m.label, options: m.options, lt, gt: gt + d };
    assert(out.subrange(lt, gt + d + 1) =~= nt);
    lemma_attr_reads(tag, name, v);
    assert(mark_value(out, m2) == v);
    assert(fields_from(out, r).skip(1) =~= fields_from(out, m2.gt + 1));
}

/// A character of an occurrence spells the pattern there.
pub proof fn lemma_occ_char_at(x: Seq<char>, pat: Seq<char>, q: int, j: int)
    requires
        occurs_at(x, pat, q),
        q <= j < q + pat.len(),
    ensures
        x[j] == pat[j - q],
{
    assert(x.subrange(q, q + pat.len())[j - q] == x[j]);
}

// ───────────────────────── the law ─────────────────────────

/// Where the field scan reaches the `index`-th field: the search position it
/// is found from, the marker's position and the marker.
pub open spec fn nth_mark(s: Seq<char>, index: int) -> Option<(int, int, MarkSpec)> {
    match nth_from(s, 0, 0, index) {
        None => None,
        Some(r) => match find_from(s, field_mark(), r) {
            None => None,
            Some(pos) => match mark_at(s, pos) {
                None => None,
                Some(m) => Some((r, pos, m)),
            },
        },
    }
}

/// The `index`-th field can be written in place: its tag starts where the
/// scan resumed or later, every marker up to it closes its quoted spec before
/// its tag's `>`, and an attribute field's name holds no `"` and the value it
/// rewrites lies before the marker or after the marker's spec.
pub open spec fn tidy_field(s: Seq<char>, index: int) -> bool {
    match nth_mark(s, index) {
        None => false,
        Some((r, pos, m)) => {
            let tag = s.subrange(m.lt, m.gt + 1);
            let (a, e) = attr_span(tag, m.attr);
            &&& r <= m.lt
            &&& spec_closes(s, pos, m.gt)
            &&& tidy_before(s, 0, 0, index)
            &&& (m.attr != word_text() ==> avoids(m.attr, '"'))
            &&& (m.attr != word_text() && replace_attr_spec(tag, m.attr, Seq::empty()) is Some
                ==> m.lt + e <= pos || m.lt + a > spec_close_at(s, pos))
        },
    }
}

/// Writing a field and reparsing shows the written value on that field: the
/// `index`-th field of the result keeps its label and options and reads the
/// value (trimmed, for a text field); an attribute field whose attribute is
/// missing or unclosed is left alone. This holds for a plain value (one with
/// `&`, `<`, `>` or a quote is escaped or would change the markup) and a tidy
/// field (a marker whose spec runs past its tag's `>` is read differently
/// once the text after it changes).
#[verifier::spinoff_prover]
#[verifier::rlimit(40)]
pub proof fn law_set_field_shows_value(s: Seq<char>, index: int, v: Seq<char>)
    requires
        0 <= index < fields_from(s, 0).len(),
        tidy_field(s, index),
        plain_value(v),
    ensures
        ({
            let out = set_field_from(s, 0, 0, index, v);
            let f = fields_from(s, 0)[index];
            let g = fields_from(out, 0);
            let (_r, _pos, m) = nth_mark(s, index)->0;
            let tag = s.subrange(m.lt, m.gt + 1);
            &&& g.len() > index
            &&& g[index].label == f.label
            &&& g[index].options == f.options
            &&& m.attr == word_text() ==> g[index].value == trim(v)
            &&& m.attr != word_text() && replace_attr_spec(tag, m.attr, v) is Some ==> g[index].value
                == v
            &&& m.attr != word_text() && replace_attr_spec(tag, m.attr, v) is None ==> out == s
        }),
{
    lemma_nth_split(s, 0, 0, index);
    let r = nth_from(s, 0, 0, index)->0;
    lemma_find_from(s, field_mark(), r);
    let pos = find_from(s, field_mark(), r)->0;
    lemma_mark_at(s, pos);
    let m = mark_at(s, pos)->0;
    let f = fields_from(s, 0)[index];
    assert(fields_from(s, 0)[index] == fields_from(s, 0).skip(index)[0]);
    assert(f == FieldSpec { label: m.label, value: mark_value(s, m), options: m.options });
    lemma_nth_set(s, 0, 0, index, v);
    let out = set_field_from(s, 0, 0, index, v);
    let tag = s.subrange(m.lt, m.gt + 1);
    lemma_find_char_from(s, '>', r);
    lemma_find_char_from(s, '>', pos);
    let (p, q0) = if m.attr == word_text() {
        lemma_text_case(s, r, index, v, pos, m);
        lemma_find_char_from(s, '<', m.gt + 1);
        (m.gt + 1, text_end(s, m.gt))
    } else if replace_attr_spec(tag, m.attr, v) is Some {
        let (a, e) = attr_span(tag, m.attr);
        lemma_attr_span(tag, m.attr, v);
        assert(replace_attr_spec(tag, m.attr, Seq::empty()) is Some);
        if m.lt + e <= pos {
            lemma_attr_before(s, r, index, v, pos, m);
        } else {
            lemma_attr_after(s, r, index, v, pos, m);
        }
        (m.lt + a, m.lt + e)
    } else {
        (0, 0)
    };
    if m.attr == word_text() || replace_attr_spec(tag, m.attr, v) is Some {
        lemma_nth_agree(s, out, v, p, q0, 0, 0, index);
        lemma_nth_split(out, 0, 0, index);
        let g = fields_from(out, 0);
        assert(g[index] == g.skip(index)[0]);
    }
}

} // verus!
