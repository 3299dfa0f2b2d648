//! Editable fields of a widget blueprint.
//!
//! A blueprint marks a user-customizable value with
//! `data-mor-field='<attr>|<label>[|opt,opt,…]'` on the element whose attribute
//! holds it (a link's `href`, an `img`'s `src`, …), or `text` for the element's
//! text content. An edit rewrites the literal value in the buffer.
use super::{
    attr, attr_or, attr_pat, attr_pat_chars, attr_value, find_widget_open, lemma_widget_open_from,
    name_title, open_tag, open_tag_chars, quoted_attr, quoted_attr_chars, replace_first,
    replace_first_chars, tag_end, tag_end_of, widget_open_from,
};
use crate::text::{
    chars_eq, chars_of, find, find_char, find_char_from, find_from, lemma_find_char_from,
    lemma_find_from, lemma_rfind_char_before, push_all, push_range, push_replacing, replace_char,
    rfind_char, rfind_char_before, string_of, string_of_range, trim, trim_bounds, vec_of_range,
};
use vstd::prelude::*;
use vstd::string::StringExecFns;

verus! {

/// `data-mor-field=`, the marker of an editable field.
pub open spec fn field_mark() -> Seq<char> {
    seq!['d', 'a', 't', 'a', '-', 'm', 'o', 'r', '-', 'f', 'i', 'e', 'l', 'd', '=']
}

fn field_mark_chars() -> (v: Vec<char>)
    ensures
        v@ == field_mark(),
{
    vec!['d', 'a', 't', 'a', '-', 'm', 'o', 'r', '-', 'f', 'i', 'e', 'l', 'd', '=']
}

/// `text`: the marker's attribute naming the element's text content.
pub open spec fn word_text() -> Seq<char> {
    seq!['t', 'e', 'x', 't']
}

/// `t` trimmed, as a one-item list, or no item when it trims to nothing.
pub open spec fn nonempty_piece(t: Seq<char>) -> Seq<Seq<char>> {
    if trim(t).len() > 0 {
        seq![trim(t)]
    } else {
        Seq::empty()
    }
}

/// The comma-separated options in `t[cur..]`, each trimmed, empty ones dropped.
pub open spec fn option_list_from(t: Seq<char>, cur: int) -> Seq<Seq<char>>
    decreases t.len() + 1 - cur,
{
    if cur < 0 || cur > t.len() {
        Seq::empty()
    } else {
        match find_char_from(t, ',', cur) {
            None => nonempty_piece(t.subrange(cur, t.len() as int)),
            Some(i) => {
                proof {
                    lemma_find_char_from(t, ',', cur);
                }
                nonempty_piece(t.subrange(cur, i)) + option_list_from(t, i + 1)
            },
        }
    }
}

/// A parsed marker: the attribute it names (or `text`), its label, its options
/// and the span `lt..=gt` of the enclosing start tag.
pub struct MarkSpec {
    pub attr: Seq<char>,
    pub label: Seq<char>,
    pub options: Seq<Seq<char>>,
    pub lt: int,
    pub gt: int,
}

/// A marker's quoted `<attr>|<label>|<options>`, split at its first two `|`,
/// parts trimmed.
pub open spec fn spec_parts(sp: Seq<char>) -> (Seq<char>, Seq<char>, Seq<Seq<char>>) {
    match find_char_from(sp, '|', 0) {
        None => (trim(sp), Seq::<char>::empty(), Seq::<Seq<char>>::empty()),
        Some(i) => match find_char_from(sp, '|', i + 1) {
            None => (
                trim(sp.take(i)),
                trim(sp.subrange(i + 1, sp.len() as int)),
                Seq::<Seq<char>>::empty(),
            ),
            Some(j) => (trim(sp.take(i)), trim(sp.subrange(i + 1, j)), option_list_from(sp, j + 1)),
        },
    }
}

/// The marker whose `data-mor-field=` starts at `mp`: a quoted
/// `<attr>|<label>|<options>` split at its first two `|`, parts trimmed.
pub open spec fn mark_at(s: Seq<char>, mp: int) -> Option<MarkSpec> {
    let vs = mp + 15;
    if vs >= s.len() || (s[vs] != '\'' && s[vs] != '"') {
        None
    } else {
        let q = s[vs];
        match find_char_from(s, q, vs + 1) {
            None => None,
            Some(e) => {
                let (attr, label, options) = spec_parts(s.subrange(vs + 1, e));
                match rfind_char_before(s, '<', mp) {
                    None => None,
                    Some(lt) => match find_char_from(s, '>', mp) {
                        None => None,
                        Some(gt) => Some(MarkSpec { attr, label, options, lt, gt }),
                    },
                }
            },
        }
    }
}

/// Where the text content of the element ending at `gt` ends: the next `<`.
pub open spec fn text_end(s: Seq<char>, gt: int) -> int {
    match find_char_from(s, '<', gt + 1) {
        Some(i) => i,
        None => s.len() as int,
    }
}

/// Current value of a marked field: the named attribute of the start tag, or
/// the element's trimmed text up to its first child or close tag.
pub open spec fn mark_value(s: Seq<char>, m: MarkSpec) -> Seq<char> {
    if m.attr == word_text() {
        trim(s.subrange(m.gt + 1, text_end(s, m.gt)))
    } else {
        attr_or(s.subrange(m.lt, m.gt + 1), m.attr, Seq::empty())
    }
}

/// What a field shows in the Settings form.
pub struct FieldSpec {
    pub label: Seq<char>,
    pub value: Seq<char>,
    pub options: Seq<Seq<char>>,
}

/// Every editable field at or after `search`, in document order.
pub open spec fn fields_from(s: Seq<char>, search: int) -> Seq<FieldSpec>
    decreases s.len() + 1 - search,
{
    if search < 0 {
        Seq::empty()
    } else {
        match find_from(s, field_mark(), search) {
            None => Seq::empty(),
            Some(pos) => {
                proof {
                    lemma_find_from(s, field_mark(), search);
                    lemma_mark_at(s, pos);
                }
                match mark_at(s, pos) {
                    Some(m) => seq![
                        FieldSpec { label: m.label, value: mark_value(s, m), options: m.options },
                    ] + fields_from(s, m.gt + 1),
                    None => fields_from(s, pos + 15),
                }
            },
        }
    }
}

/// A marker's enclosing tag lies around it, inside the buffer.
pub proof fn lemma_mark_at(s: Seq<char>, mp: int)
    requires
        0 <= mp,
        mp + 15 <= s.len(),
    ensures
        mark_at(s, mp) matches Some(m) ==> 0 <= m.lt < mp <= m.gt < s.len() && s[m.lt] == '<'
            && s[m.gt] == '>',
{
    let vs = mp + 15;
    if vs < s.len() && (s[vs] == '\'' || s[vs] == '"') {
        lemma_find_char_from(s, s[vs], vs + 1);
        lemma_rfind_char_before(s, '<', mp);
        lemma_find_char_from(s, '>', mp);
    }
}

/// `s` escaped for element text: `&` and `<` become entities.
pub open spec fn escape_text_spec(v: Seq<char>) -> Seq<char> {
    replace_char(
        replace_char(v, '&', seq!['&', 'a', 'm', 'p', ';']),
        '<',
        seq!['&', 'l', 't', ';'],
    )
}

/// `s` escaped for an attribute value quoted with `q`.
pub open spec fn escape_attr_spec(v: Seq<char>, q: char) -> Seq<char> {
    if q == '\'' {
        replace_char(escape_text_spec(v), '\'', seq!['&', '#', '3', '9', ';'])
    } else {
        replace_char(escape_text_spec(v), '"', seq!['&', 'q', 'u', 'o', 't', ';'])
    }
}

/// `name`'s value in a start tag replaced by `value` escaped for its quote; the
/// first `name='` wins over `name="`; no result when the value is unclosed.
pub open spec fn replace_attr_spec(tag: Seq<char>, name: Seq<char>, value: Seq<char>) -> Option<
    Seq<char>,
> {
    match find_from(tag, attr_pat(name, '\''), 0) {
        Some(p) => {
            let vs = p + name.len() + 2;
            match find_char_from(tag, '\'', vs) {
                Some(e) => Some(tag.take(vs) + escape_attr_spec(value, '\'') + tag.skip(e)),
                None => None,
            }
        },
        None => match find_from(tag, attr_pat(name, '"'), 0) {
            Some(p) => {
                let vs = p + name.len() + 2;
                match find_char_from(tag, '"', vs) {
                    Some(e) => Some(tag.take(vs) + escape_attr_spec(value, '"') + tag.skip(e)),
                    None => None,
                }
            },
            None => None,
        },
    }
}

/// The buffer with the `index`-th field (counted from `i` at `search`) rewritten.
pub open spec fn set_field_from(
    s: Seq<char>,
    search: int,
    i: int,
    index: int,
    value: Seq<char>,
) -> Seq<char>
    decreases s.len() + 1 - search,
{
    if search < 0 {
        s
    } else {
        match find_from(s, field_mark(), search) {
            None => s,
            Some(pos) => {
                proof {
                    lemma_find_from(s, field_mark(), search);
                    lemma_mark_at(s, pos);
                }
                match mark_at(s, pos) {
                    None => set_field_from(s, pos + 15, i, index, value),
                    Some(m) => if i == index {
                        if m.attr == word_text() {
                            s.take(m.gt + 1) + escape_text_spec(value) + s.skip(text_end(s, m.gt))
                        } else {
                            match replace_attr_spec(s.subrange(m.lt, m.gt + 1), m.attr, value) {
                                Some(t) => s.take(m.lt) + t + s.skip(m.gt + 1),
                                None => s,
                            }
                        }
                    } else {
                        set_field_from(s, m.gt + 1, i + 1, index, value)
                    },
                }
            },
        }
    }
}

/// The buffer with the blueprint's widget title set: the first real widget's
/// `title` value is replaced, or a single-quoted `title` is inserted after
/// `<b:widget` when the tag has none.
pub open spec fn set_widget_title_spec(s: Seq<char>, value: Seq<char>) -> Seq<char> {
    match widget_open_from(s, 0) {
        None => s,
        Some(start) => {
            let te = tag_end_of(s, start, s.len() as int);
            let tag = s.subrange(start, te);
            match attr_value(tag, name_title()) {
                Some(_) => match replace_attr_spec(tag, name_title(), value) {
                    Some(t) => s.take(start) + t + s.skip(te),
                    None => s,
                },
                None => s.take(start) + replace_first(
                    tag,
                    open_tag(),
                    open_tag() + seq![' '] + quoted_attr(
                        name_title(),
                        '\'',
                        escape_attr_spec(value, '\''),
                    ),
                ) + s.skip(te),
            }
        },
    }
}

// ───────────────────────── executable ─────────────────────────

/// One editable field surfaced from a `data-mor-field` marker.
/// `options` non-empty → render as a dropdown instead of a free-text input.
#[derive(Clone, PartialEq)]
pub struct WidgetField {
    pub label: String,
    pub value: String,
    pub options: Vec<String>,
}

impl View for WidgetField {
    type V = FieldSpec;

    open spec fn view(&self) -> FieldSpec {
        FieldSpec {
            label: self.label@,
            value: self.value@,
            options: self.options@.map_values(|o: String| o@),
        }
    }
}

/// A parsed marker.
struct FieldMark {
    attr: Vec<char>,
    label: String,
    options: Vec<String>,
    /// Span (`lt..=gt`) of the enclosing start tag.
    lt: usize,
    gt: usize,
}

impl FieldMark {
    spec fn spec_of(&self) -> MarkSpec {
        MarkSpec {
            attr: self.attr@,
            label: self.label@,
            options: self.options@.map_values(|o: String| o@),
            lt: self.lt as int,
            gt: self.gt as int,
        }
    }
}

/// The options in `t[cur..]`.
fn option_list(t: &[char], cur: usize) -> (r: Vec<String>)
    requires
        cur <= t@.len(),
    ensures
        r@.map_values(|o: String| o@) == option_list_from(t@, cur as int),
{
    let mut out: Vec<String> = Vec::new();
    let mut c: usize = cur;
    let n = t.len();
    loop
        invariant
            c <= n,
            n == t@.len(),
            option_list_from(t@, cur as int) == out@.map_values(|o: String| o@)
                + option_list_from(t@, c as int),
        decreases n + 1 - c,
    {
        let ghost before = out@;
        proof {
            lemma_find_char_from(t@, ',', c as int);
        }
        match find_char(t, ',', c) {
            None => {
                let (a, b) = trim_bounds(t, c, n);
                if a < b {
                    out.push(string_of_range(t, a, b));
                }
                proof {
                    assert(out@.map_values(|o: String| o@) == before.map_values(|o: String| o@)
                        + nonempty_piece(t@.subrange(c as int, n as int)));
                }
                return out;
            },
            Some(i) => {
                let (a, b) = trim_bounds(t, c, i);
                if a < b {
                    out.push(string_of_range(t, a, b));
                }
                proof {
                    assert(out@.map_values(|o: String| o@) == before.map_values(|o: String| o@)
                        + nonempty_piece(t@.subrange(c as int, i as int)));
                }
                c = i + 1;
            },
        }
    }
}

/// Parse the marker whose `data-mor-field=` starts at `marker_pos`.
fn field_at(xml: &[char], marker_pos: usize) -> (r: Option<FieldMark>)
    requires
        marker_pos + 15 <= xml@.len(),
    ensures
        r matches Some(m) ==> mark_at(xml@, marker_pos as int) == Some(m.spec_of()),
        r is None ==> mark_at(xml@, marker_pos as int) is None,
{
    let n = xml.len();
    let vs = marker_pos + 15;
    if vs >= n {
        return None;
    }
    let q = xml[vs];
    if q != '\'' && q != '"' {
        return None;
    }
    let e = match find_char(xml, q, vs + 1) {
        Some(e) => e,
        None => {
            return None;
        },
    };
    proof {
        lemma_find_char_from(xml@, q, vs + 1);
    }
    let sp = &xml[vs + 1..e];
    let sn = sp.len();
    let ghost sps = xml@.subrange(vs + 1, e as int);
    assert(sp@ == sps);
    let (attr_v, label, options) = match find_char(sp, '|', 0) {
        None => {
            let (a, b) = trim_bounds(sp, 0, sn);
            assert(sp@.subrange(0, sn as int) == sp@);
            (vec_of_range(sp, a, b), String::new(), Vec::new())
        },
        Some(i) => {
            proof {
                lemma_find_char_from(sp@, '|', 0);
                lemma_find_char_from(sp@, '|', i + 1);
            }
            let (a, b) = trim_bounds(sp, 0, i);
            assert(sp@.subrange(0, i as int) == sp@.take(i as int));
            let attr_v = vec_of_range(sp, a, b);
            match find_char(sp, '|', i + 1) {
                None => {
                    let (c, d) = trim_bounds(sp, i + 1, sn);
                    (attr_v, string_of_range(sp, c, d), Vec::new())
                },
                Some(j) => {
                    let (c, d) = trim_bounds(sp, i + 1, j);
                    let opts = option_list(sp, j + 1);
                    (attr_v, string_of_range(sp, c, d), opts)
                },
            }
        },
    };
    let lt = match rfind_char(xml, '<', marker_pos) {
        Some(lt) => lt,
        None => {
            return None;
        },
    };
    let gt = match find_char(xml, '>', marker_pos) {
        Some(gt) => gt,
        None => {
            return None;
        },
    };
    let m = FieldMark { attr: attr_v, label, options, lt, gt };
    proof {
        assert(Seq::<String>::empty().map_values(|o: String| o@) == Seq::<Seq<char>>::empty());
    }
    Some(m)
}

/// Current value of a marked field.
fn field_value(xml: &[char], m: &FieldMark) -> (r: String)
    requires
        m.lt <= m.gt < xml@.len(),
    ensures
        r@ == mark_value(xml@, m.spec_of()),
{
    let n = xml.len();
    if chars_eq(&m.attr, &vec!['t', 'e', 'x', 't']) {
        let text_start = m.gt + 1;
        let end = match find_char(xml, '<', text_start) {
            Some(i) => i,
            None => n,
        };
        proof {
            lemma_find_char_from(xml@, '<', text_start as int);
        }
        let (a, b) = trim_bounds(xml, text_start, end);
        string_of_range(xml, a, b)
    } else {
        let tag = &xml[m.lt..m.gt + 1];
        match attr(tag, &m.attr) {
            Some(sp) => string_of_range(tag, sp.0, sp.1),
            None => String::new(),
        }
    }
}

/// Escape a value for use as element text content.
fn escape_text(v: &[char]) -> (r: String)
    ensures
        r@ == escape_text_spec(v@),
{
    let mut a = String::new();
    push_replacing(&mut a, v, '&', &vec!['&', 'a', 'm', 'p', ';']);
    let a = chars_of(a.as_str());
    let mut b = String::new();
    push_replacing(&mut b, &a, '<', &vec!['&', 'l', 't', ';']);
    b
}

/// Escape a value for insertion into a quoted attribute (preserving the quote char).
fn escape_attr_value(v: &[char], q: char) -> (r: String)
    ensures
        r@ == escape_attr_spec(v@, q),
{
    let s = escape_text(v);
    let s = chars_of(s.as_str());
    let mut out = String::new();
    if q == '\'' {
        push_replacing(&mut out, &s, '\'', &vec!['&', '#', '3', '9', ';']);
    } else {
        push_replacing(&mut out, &s, '"', &vec!['&', 'q', 'u', 'o', 't', ';']);
    }
    out
}

/// Replace `name`'s quoted value in a start tag, escaping for the quote in use.
fn replace_attr(tag: &[char], name: &[char], value: &[char]) -> (r: Option<String>)
    ensures
        r matches Some(t) ==> replace_attr_spec(tag@, name@, value@) == Some(t@),
        r is None ==> replace_attr_spec(tag@, name@, value@) is None,
{
    let n = tag.len();
    let pat1 = attr_pat_chars(name, '\'');
    let (q, found) = match find(tag, &pat1, 0) {
        Some(p) => ('\'', Some(p)),
        None => {
            let pat2 = attr_pat_chars(name, '"');
            ('"', find(tag, &pat2, 0))
        },
    };
    match found {
        None => None,
        Some(p) => {
            proof {
                lemma_find_from(tag@, attr_pat(name@, q), 0);
            }
            let vstart = p + name.len() + 2;
            match find_char(tag, q, vstart) {
                None => None,
                Some(e) => {
                    proof {
                        lemma_find_char_from(tag@, q, vstart as int);
                    }
                    let esc = escape_attr_value(value, q);
                    let mut out = String::new();
                    push_range(&mut out, tag, 0, vstart);
                    out.append(esc.as_str());
                    push_range(&mut out, tag, e, n);
                    assert(tag@.subrange(0, vstart as int) == tag@.take(vstart as int));
                    assert(tag@.subrange(e as int, n as int) == tag@.skip(e as int));
                    Some(out)
                },
            }
        },
    }
}

/// Every editable field in document order, with its current value.
pub fn parse_fields(xml: &str) -> (r: Vec<WidgetField>)
    ensures
        r@.map_values(|f: WidgetField| f@) == fields_from(xml@, 0),
{
    let s = chars_of(xml);
    let n = s.len();
    let mark = field_mark_chars();
    let mut out: Vec<WidgetField> = Vec::new();
    let mut search: usize = 0;
    loop
        invariant
            search <= n + 1,
            n == s@.len(),
            s@ == xml@,
            mark@ == field_mark(),
            fields_from(s@, 0) == out@.map_values(|f: WidgetField| f@) + fields_from(
                s@,
                search as int,
            ),
        decreases n + 1 - search,
    {
        let ghost before = out@;
        match find(&s, &mark, search) {
            None => {
                return out;
            },
            Some(pos) => {
                proof {
                    lemma_find_from(s@, field_mark(), search as int);
                    lemma_mark_at(s@, pos as int);
                }
                match field_at(&s, pos) {
                    Some(m) => {
                        let value = field_value(&s, &m);
                        let f = WidgetField { label: m.label, value, options: m.options };
                        out.push(f);
                        proof {
                            assert(out@.map_values(|f: WidgetField| f@) == before.map_values(
                                |f: WidgetField| f@,
                            ).push(f@));
                        }
                        search = m.gt + 1;
                    },
                    None => {
                        search = pos + 15;
                    },
                }
            },
        }
    }
}

/// Rewrite the `index`-th editable field's value in the buffer.
pub fn set_field(xml: &str, index: usize, value: &str) -> (r: String)
    ensures
        r@ == set_field_from(xml@, 0, 0, index as int, value@),
{
    let s = chars_of(xml);
    let v = chars_of(value);
    let n = s.len();
    let mark = field_mark_chars();
    let mut search: usize = 0;
    let mut i: usize = 0;
    loop
        invariant
            search <= n + 1,
            i <= search,
            n == s@.len(),
            s@ == xml@,
            v@ == value@,
            mark@ == field_mark(),
            set_field_from(s@, 0, 0, index as int, v@) == set_field_from(
                s@,
                search as int,
                i as int,
                index as int,
                v@,
            ),
        decreases n + 1 - search,
    {
        match find(&s, &mark, search) {
            None => {
                return string_of(&s);
            },
            Some(pos) => {
                proof {
                    lemma_find_from(s@, field_mark(), search as int);
                    lemma_mark_at(s@, pos as int);
                }
                match field_at(&s, pos) {
                    None => {
                        search = pos + 15;
                    },
                    Some(m) => {
                        if i == index {
                            if chars_eq(&m.attr, &vec!['t', 'e', 'x', 't']) {
                                let text_start = m.gt + 1;
                                let end = match find_char(&s, '<', text_start) {
                                    Some(x) => x,
                                    None => n,
                                };
                                proof {
                                    lemma_find_char_from(s@, '<', text_start as int);
                                }
                                let mut out = String::new();
                                push_range(&mut out, &s, 0, text_start);
                                out.append(escape_text(&v).as_str());
                                push_range(&mut out, &s, end, n);
                                assert(s@.subrange(0, text_start as int) == s@.take(
                                    text_start as int,
                                ));
                                assert(s@.subrange(end as int, n as int) == s@.skip(end as int));
                                return out;
                            }
                            let tag = &s[m.lt..m.gt + 1];
                            return match replace_attr(tag, &m.attr, &v) {
                                Some(new_tag) => {
                                    let mut out = String::new();
                                    push_range(&mut out, &s, 0, m.lt);
                                    out.append(new_tag.as_str());
                                    push_range(&mut out, &s, m.gt + 1, n);
                                    assert(s@.subrange(0, m.lt as int) == s@.take(m.lt as int));
                                    assert(s@.subrange(m.gt + 1, n as int) == s@.skip(m.gt + 1));
                                    out
                                },
                                None => string_of(&s),
                            };
                        }
                        i = i + 1;
                        search = m.gt + 1;
                    },
                }
            },
        }
    }
}

/// Set the `title` attribute on the blueprint's widget (the first `<b:widget>`),
/// inserting one if absent.
pub fn set_widget_title(xml: &str, value: &str) -> (r: String)
    ensures
        r@ == set_widget_title_spec(xml@, value@),
{
    let s = chars_of(xml);
    let v = chars_of(value);
    let n = s.len();
    let start = match find_widget_open(&s, 0) {
        Some(p) => p,
        None => {
            return string_of(&s);
        },
    };
    proof {
        lemma_widget_open_from(s@, 0);
    }
    let te = tag_end(&s, start, n);
    let tag = &s[start..te];
    let title = vec!['t', 'i', 't', 'l', 'e'];
    let new_tag: Vec<char> = match attr(tag, &title) {
        Some(_) => match replace_attr(tag, &title, &v) {
            Some(t) => chars_of(t.as_str()),
            None => {
                return string_of(&s);
            },
        },
        None => {
            let esc = escape_attr_value(&v, '\'');
            let esc = chars_of(esc.as_str());
            let q = quoted_attr_chars(&title, '\'', &esc);
            let mut with = open_tag_chars();
            with.push(' ');
            let ghost w0 = with@;
            let mut k: usize = 0;
            while k < q.len()
                invariant
                    0 <= k <= q@.len(),
                    with@ == w0 + q@.take(k as int),
                decreases q.len() - k,
            {
                with.push(q[k]);
                assert(q@.take(k + 1) == q@.take(k as int).push(q@[k as int]));
                k = k + 1;
            }
            assert(q@.take(q@.len() as int) == q@);
            replace_first_chars(tag, &open_tag_chars(), &with)
        },
    };
    let mut out = String::new();
    push_range(&mut out, &s, 0, start);
    push_all(&mut out, &new_tag);
    push_range(&mut out, &s, te, n);
    assert(s@.subrange(0, start as int) == s@.take(start as int));
    assert(s@.subrange(te as int, n as int) == s@.skip(te as int));
    out
}

} // verus!
