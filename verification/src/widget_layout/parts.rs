//! Structural parts of a template module.
//!
//! A module is more than its literal `<b:widget>` blocks: layouts express their
//! content as `<b:section>` containers, `{{SOCKET_*}}` widget slots and
//! `{{*_MODULE}}` sub-module references. The Layout view lists every one of
//! these so nothing the module uses is hidden.
use super::{
    attr, attr_or, attr_value, block_end, find_block_end, find_widget_open, lemma_block_end,
    lemma_widget_open_from, name_id, name_title, name_type, default_type, tag_end, tag_end_of,
    visible_flag, visible_of, widget_open_from, attr_string_or,
};
use crate::text::{
    chars_eq, chars_of, ends_with, find, find_char, find_char_from, find_from, lemma_find_char_from,
    lemma_find_from, lemma_rfind_char_before, push_replacing, replace_char, rfind_char,
    rfind_char_before, starts_with, string_of, string_of_range, trim, trim_bounds,
};
use crate::unicode::{lowercase, to_lowercase};
use vstd::prelude::*;

verus! {

/// `<b:section`, the start of a section container.
pub open spec fn section_open() -> Seq<char> {
    seq!['<', 'b', ':', 's', 'e', 'c', 't', 'i', 'o', 'n']
}

pub open spec fn token_open() -> Seq<char> {
    seq!['{', '{']
}

pub open spec fn token_close() -> Seq<char> {
    seq!['}', '}']
}

pub open spec fn socket_prefix() -> Seq<char> {
    seq!['S', 'O', 'C', 'K', 'E', 'T', '_']
}

pub open spec fn layout_blocks() -> Seq<char> {
    seq!['L', 'A', 'Y', 'O', 'U', 'T', '_', 'B', 'L', 'O', 'C', 'K', 'S']
}

pub open spec fn module_suffix() -> Seq<char> {
    seq!['_', 'M', 'O', 'D', 'U', 'L', 'E']
}

pub open spec fn field_path_name() -> Seq<char> {
    seq!['d', 'a', 't', 'a', '-', 'f', 'i', 'e', 'l', 'd', '-', 'p', 'a', 't', 'h']
}

/// One structural part, as the contracts see it.
pub enum PartSpec {
    Widget { slot: int, id: Seq<char>, w_type: Seq<char>, title: Seq<char>, visible: bool },
    Section { id: Seq<char> },
    Socket { name: Seq<char>, key: Seq<char> },
    ModuleRef { name: Seq<char> },
    Field { name: Seq<char>, path: Option<Seq<char>> },
}

/// The `data-field-path` of the start tag that begins at the last `<` before `pos`.
pub open spec fn nearest_path_spec(s: Seq<char>, pos: int) -> Option<Seq<char>> {
    match rfind_char_before(s, '<', pos) {
        None => None,
        Some(lt) => match find_char_from(s, '>', lt) {
            None => None,
            Some(gt) => attr_value(s.subrange(lt, gt + 1), field_path_name()),
        },
    }
}

/// `SOCKET_<X>` is a socket keyed by `<x>` lowercased with `_` turned into `-`;
/// `LAYOUT_BLOCKS` and `*_MODULE` are module references; any other token is a field.
pub open spec fn classify_spec(name: Seq<char>, path: Option<Seq<char>>) -> PartSpec {
    if starts_with(name, socket_prefix()) {
        let rest = name.skip(7);
        PartSpec::Socket { name: rest, key: replace_char(lowercase(rest), '_', seq!['-']) }
    } else if name == layout_blocks() || ends_with(name, module_suffix()) {
        PartSpec::ModuleRef { name }
    } else {
        PartSpec::Field { name, path }
    }
}

/// The nearer of a current pick and a candidate; the earlier-listed kind wins a tie.
pub open spec fn nearer(cur: Option<(int, int)>, cand: Option<int>, kind: int) -> Option<
    (int, int),
> {
    match cand {
        None => cur,
        Some(p) => match cur {
            None => Some((p, kind)),
            Some(c) => if p < c.0 {
                Some((p, kind))
            } else {
                Some(c)
            },
        },
    }
}

/// Nearest of the next widget (kind 0), section (kind 1) and token (kind 2).
pub open spec fn nearest_at(s: Seq<char>, cursor: int) -> Option<(int, int)> {
    nearer(
        nearer(
            nearer(None, widget_open_from(s, cursor), 0),
            find_from(s, section_open(), cursor),
            1,
        ),
        find_from(s, token_open(), cursor),
        2,
    )
}

/// End of a section's opening tag: just past its `>`, or the end of the buffer.
pub open spec fn section_close(s: Seq<char>, pos: int) -> int {
    match find_char_from(s, '>', pos) {
        Some(i) => i + 1,
        None => s.len() as int,
    }
}

pub proof fn lemma_nearest_at(s: Seq<char>, cursor: int)
    requires
        0 <= cursor,
    ensures
        nearest_at(s, cursor) matches Some(c) ==> {
            &&& cursor <= c.0
            &&& 0 <= c.1 <= 2
            &&& c.1 == 0 ==> widget_open_from(s, cursor) == Some(c.0)
            &&& c.1 == 1 ==> find_from(s, section_open(), cursor) == Some(c.0)
            &&& c.1 == 2 ==> find_from(s, token_open(), cursor) == Some(c.0)
        },
{
    lemma_widget_open_from(s, cursor);
    lemma_find_from(s, section_open(), cursor);
    lemma_find_from(s, token_open(), cursor);
}

/// Every part at or after `cursor`, widgets numbered from `slot`. Tokens inside a
/// widget block are skipped; an unclosed `{{` ends the walk.
pub open spec fn parts_from(s: Seq<char>, cursor: int, slot: int) -> Seq<PartSpec>
    decreases s.len() + 1 - cursor,
{
    if cursor < 0 || cursor >= s.len() {
        Seq::empty()
    } else {
        proof {
            lemma_nearest_at(s, cursor);
        }
        match nearest_at(s, cursor) {
            None => Seq::empty(),
            Some(c) => {
                let pos = c.0;
                if c.1 == 0 {
                    proof {
                        lemma_widget_open_from(s, cursor);
                        lemma_block_end(s, pos);
                    }
                    let end = block_end(s, pos);
                    let tag = s.subrange(pos, tag_end_of(s, pos, end));
                    seq![
                        PartSpec::Widget {
                            slot,
                            id: attr_or(tag, name_id(), Seq::empty()),
                            w_type: attr_or(tag, name_type(), default_type()),
                            title: attr_or(tag, name_title(), Seq::empty()),
                            visible: visible_flag(tag),
                        },
                    ] + parts_from(s, end, slot + 1)
                } else if c.1 == 1 {
                    proof {
                        lemma_find_from(s, section_open(), cursor);
                        lemma_find_char_from(s, '>', pos);
                    }
                    let close = section_close(s, pos);
                    seq![
                        PartSpec::Section {
                            id: attr_or(s.subrange(pos, close), name_id(), Seq::empty()),
                        },
                    ] + parts_from(s, close, slot)
                } else {
                    match find_from(s, token_close(), pos) {
                        None => Seq::empty(),
                        Some(p) => {
                            proof {
                                lemma_find_from(s, token_close(), pos);
                            }
                            let name = trim(s.subrange(pos + 2, p));
                            seq![classify_spec(name, nearest_path_spec(s, pos))] + parts_from(
                                s,
                                p + 2,
                                slot,
                            )
                        },
                    }
                }
            },
        }
    }
}

// ───────────────────────── executable ─────────────────────────

/// One structural part of a module, in document order.
#[derive(Clone, PartialEq)]
pub enum Part {
    /// A literal `<b:widget>`; `slot` is its index among widgets (for the buffer
    /// edit helpers, which index by widget order).
    Widget { slot: usize, id: String, w_type: String, title: String, visible: bool },
    /// A `<b:section>` container.
    Section { id: String },
    /// A `{{SOCKET_*}}` widget slot. `key` is the matching `widget_map` key
    /// (e.g. socket `SIDEBAR_LEFT` → key `sidebar-left`).
    Socket { name: String, key: String },
    /// A `{{*_MODULE}}` / `{{LAYOUT_BLOCKS}}` reference to another module.
    ModuleRef { name: String },
    /// Any other `{{TOKEN}}` (titles, icons, …). `path` is the `data-field-path`
    /// of the wrapping element when present.
    Field { name: String, path: Option<String> },
}

pub open spec fn opt_view(o: Option<String>) -> Option<Seq<char>> {
    match o {
        Some(s) => Some(s@),
        None => None,
    }
}

impl View for Part {
    type V = PartSpec;

    open spec fn view(&self) -> PartSpec {
        match self {
            Part::Widget { slot, id, w_type, title, visible } => PartSpec::Widget {
                slot: *slot as int,
                id: id@,
                w_type: w_type@,
                title: title@,
                visible: *visible,
            },
            Part::Section { id } => PartSpec::Section { id: id@ },
            Part::Socket { name, key } => PartSpec::Socket { name: name@, key: key@ },
            Part::ModuleRef { name } => PartSpec::ModuleRef { name: name@ },
            Part::Field { name, path } => PartSpec::Field { name: name@, path: opt_view(*path) },
        }
    }
}

/// The `data-field-path` of the element enclosing the token at `pos`, if any:
/// the nearest `<` before it opens the tag whose attribute is read.
fn nearest_field_path(xml: &[char], pos: usize) -> (r: Option<String>)
    requires
        pos <= xml@.len(),
    ensures
        opt_view(r) == nearest_path_spec(xml@, pos as int),
{
    let n = xml.len();
    let lt = match rfind_char(xml, '<', pos) {
        Some(lt) => lt,
        None => {
            return None;
        },
    };
    proof {
        lemma_rfind_char_before(xml@, '<', pos as int);
    }
    let gt = match find_char(xml, '>', lt) {
        Some(gt) => gt,
        None => {
            return None;
        },
    };
    proof {
        lemma_find_char_from(xml@, '>', lt as int);
    }
    let tag = &xml[lt..gt + 1];
    let name = vec![
        'd',
        'a',
        't',
        'a',
        '-',
        'f',
        'i',
        'e',
        'l',
        'd',
        '-',
        'p',
        'a',
        't',
        'h',
    ];
    match attr(tag, &name) {
        Some(sp) => Some(string_of_range(tag, sp.0, sp.1)),
        None => None,
    }
}

/// The `widget_map` key of a socket, from its lowercased name: underscores
/// become dashes (socket `SIDEBAR_LEFT` → key `sidebar-left`).
pub fn socket_key(lowered: &str) -> (r: String)
    ensures
        r@ == replace_char(lowered@, '_', seq!['-']),
{
    let lower = chars_of(lowered);
    let mut key = String::new();
    let dash = vec!['-'];
    assert(dash@ == seq!['-']);
    push_replacing(&mut key, &lower, '_', &dash);
    assert(Seq::<char>::empty() + replace_char(lower@, '_', seq!['-']) == replace_char(
        lower@,
        '_',
        seq!['-'],
    ));
    key
}

/// Sort a token into a socket, a module reference or a field.
fn classify_token(name: &[char], path: Option<String>) -> (r: Part)
    ensures
        r@ == classify_spec(name@, opt_view(path)),
{
    let n = name.len();
    let prefix = vec!['S', 'O', 'C', 'K', 'E', 'T', '_'];
    let suffix = vec!['_', 'M', 'O', 'D', 'U', 'L', 'E'];
    let layout = vec!['L', 'A', 'Y', 'O', 'U', 'T', '_', 'B', 'L', 'O', 'C', 'K', 'S'];
    if n >= 7 && chars_eq(&name[0..7], &prefix) {
        assert(name@.take(7) == name@.subrange(0, 7));
        let rest = string_of_range(name, 7, n);
        assert(name@.subrange(7, n as int) == name@.skip(7));
        let lower = to_lowercase(rest.as_str());
        let key = socket_key(lower.as_str());
        assert(starts_with(name@, socket_prefix()));
        assert(rest@ == name@.skip(7));
        assert(lower@ == lowercase(name@.skip(7)));
        assert(key@ == replace_char(lowercase(name@.skip(7)), '_', seq!['-']));
        let r = Part::Socket { name: rest, key };
        assert(r@ == classify_spec(name@, opt_view(path)));
        r
    } else {
        proof {
            if starts_with(name@, socket_prefix()) {
                assert(name@.subrange(0, 7) == name@.take(7));
            }
        }
        let is_module = chars_eq(name, &layout) || (n >= 7 && chars_eq(&name[n - 7..n], &suffix));
        proof {
            if n >= 7 {
                assert(name@.subrange(n - 7, n as int) == name@.skip(n - 7));
            }
        }
        assert(!starts_with(name@, socket_prefix()));
        assert(is_module == (name@ == layout_blocks() || ends_with(name@, module_suffix())));
        if is_module {
            Part::ModuleRef { name: string_of(name) }
        } else {
            let r = Part::Field { name: string_of(name), path };
            assert(r@ == PartSpec::Field { name: name@, path: opt_view(path) });
            r
        }
    }
}

/// The nearest of the next widget, section and token at or after `cursor`.
fn nearest(s: &[char], cursor: usize) -> (r: Option<(usize, u8)>)
    ensures
        r matches Some(b) ==> nearest_at(s@, cursor as int) == Some((b.0 as int, b.1 as int)),
        r is None ==> nearest_at(s@, cursor as int) is None,
{
    let section = vec!['<', 'b', ':', 's', 'e', 'c', 't', 'i', 'o', 'n'];
    let open = vec!['{', '{'];
    let w = find_widget_open(s, cursor);
    let sc = find(s, &section, cursor);
    let t = find(s, &open, cursor);
    let mut best: Option<(usize, u8)> = match w {
        Some(p) => Some((p, 0u8)),
        None => None,
    };
    match sc {
        Some(p) => match best {
            None => {
                best = Some((p, 1u8));
            },
            Some(c) => if p < c.0 {
                best = Some((p, 1u8));
            },
        },
        None => {},
    }
    match t {
        Some(p) => match best {
            None => {
                best = Some((p, 2u8));
            },
            Some(c) => if p < c.0 {
                best = Some((p, 2u8));
            },
        },
        None => {},
    }
    best
}

/// One step of the walk: the part found at or after `cursor` with where the walk
/// resumes, or nothing when the walk ends there.
fn next_part(s: &[char], cursor: usize, slot: usize) -> (r: Option<(Part, usize, usize)>)
    requires
        cursor < s@.len(),
        slot <= cursor,
    ensures
        r matches Some(x) ==> cursor < x.1 <= s@.len() && x.2 <= x.1 && parts_from(
            s@,
            cursor as int,
            slot as int,
        ) == seq![x.0@] + parts_from(s@, x.1 as int, x.2 as int),
        r is None ==> parts_from(s@, cursor as int, slot as int) == Seq::<PartSpec>::empty(),
{
    let n = s.len();
    proof {
        lemma_nearest_at(s@, cursor as int);
    }
    let (pos, kind) = match nearest(s, cursor) {
        Some(b) => b,
        None => {
            return None;
        },
    };
    if kind == 0 {
        proof {
            lemma_widget_open_from(s@, cursor as int);
        }
        let end = find_block_end(s, pos);
        let te = tag_end(s, pos, end);
        let tag = &s[pos..te];
        let part = Part::Widget {
            slot,
            id: attr_string_or(tag, &vec!['i', 'd'], &Vec::new()),
            w_type: attr_string_or(
                tag,
                &vec!['t', 'y', 'p', 'e'],
                &vec!['W', 'i', 'd', 'g', 'e', 't'],
            ),
            title: attr_string_or(tag, &vec!['t', 'i', 't', 'l', 'e'], &Vec::new()),
            visible: visible_of(tag),
        };
        Some((part, end, slot + 1))
    } else if kind == 1 {
        proof {
            lemma_find_from(s@, section_open(), cursor as int);
            lemma_find_char_from(s@, '>', pos as int);
        }
        let close_at = match find_char(s, '>', pos) {
            Some(i) => i + 1,
            None => n,
        };
        let tag = &s[pos..close_at];
        let part = Part::Section { id: attr_string_or(tag, &vec!['i', 'd'], &Vec::new()) };
        Some((part, close_at, slot))
    } else {
        proof {
            lemma_find_from(s@, token_open(), cursor as int);
        }
        let close = vec!['}', '}'];
        let p = match find(s, &close, pos) {
            Some(p) => p,
            None => {
                return None;
            },
        };
        proof {
            lemma_find_from(s@, token_close(), pos as int);
            // `}}` cannot start on either brace of the `{{` at `pos`
            if p < pos + 2 {
                assert(s@.subrange(p as int, p + 2)[0] == s@[p as int]);
                assert(s@.subrange(pos as int, pos + 2)[(p - pos) as int] == s@[p as int]);
            }
        }
        let (a, b) = trim_bounds(s, pos + 2, p);
        let name = &s[a..b];
        let path = nearest_field_path(s, pos);
        let part = classify_token(name, path);
        Some((part, p + 2, slot))
    }
}

/// Walk the module XML and emit every widget, section, socket and token in order.
/// Tokens inside a widget block are skipped (they belong to that widget).
pub fn parse_parts(xml: &str) -> (r: Vec<Part>)
    ensures
        r@.map_values(|p: Part| p@) == parts_from(xml@, 0, 0),
{
    let s = chars_of(xml);
    let n = s.len();
    let mut parts: Vec<Part> = Vec::new();
    let mut cursor: usize = 0;
    let mut slot: usize = 0;
    while cursor < n
        invariant
            cursor <= n,
            slot <= cursor,
            n == s@.len(),
            s@ == xml@,
            parts_from(s@, 0, 0) == parts@.map_values(|p: Part| p@) + parts_from(
                s@,
                cursor as int,
                slot as int,
            ),
        decreases n - cursor,
    {
        let ghost before = parts@;
        match next_part(&s, cursor, slot) {
            None => {
                assert(parts@.map_values(|p: Part| p@) + Seq::<PartSpec>::empty()
                    == parts@.map_values(|p: Part| p@));
                return parts;
            },
            Some(x) => {
                let (part, c, sl) = x;
                parts.push(part);
                proof {
                    assert(parts@.map_values(|p: Part| p@) == before.map_values(|p: Part| p@).push(
                        part@,
                    ));
                }
                cursor = c;
                slot = sl;
            },
        }
    }
    assert(parts_from(s@, cursor as int, slot as int) == Seq::<PartSpec>::empty());
    assert(parts@.map_values(|p: Part| p@) + Seq::<PartSpec>::empty() == parts@.map_values(
        |p: Part| p@,
    ));
    parts
}

} // verus!
