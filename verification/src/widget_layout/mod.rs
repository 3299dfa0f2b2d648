//! Buffer helpers for the Layout view of a template module.
//!
//! A template module is a flat run of `<b:widget>` blocks (widgets never nest
//! other widgets), so a linear scan is enough to list, reorder, toggle or drop
//! them, without a full XML parse.
pub mod fields;
pub mod groups;
pub mod laws;
pub mod parts;

pub use fields::{parse_fields, set_field, set_widget_title, WidgetField};
pub use groups::{group_fields, FieldGroup};
pub use parts::{parse_parts, socket_key, Part};

use crate::text::{
    chars_eq, chars_of, find, find_char, find_char_from, find_from, join, lemma_find_char_from,
    lemma_find_from, occurs_at, push_char, push_range, string_of, string_of_range, trim_end,
    trim_end_bound, trim_start, trim_start_bound, vec_of_range, lemma_join_take,
};
use vstd::prelude::*;

verus! {

// ───────────────────────── vocabulary ─────────────────────────

/// `<b:widget`, the start of a widget's opening tag.
pub open spec fn open_tag() -> Seq<char> {
    seq!['<', 'b', ':', 'w', 'i', 'd', 'g', 'e', 't']
}

/// `</b:widget>`, a widget's closing tag.
pub open spec fn close_tag() -> Seq<char> {
    seq!['<', '/', 'b', ':', 'w', 'i', 'd', 'g', 'e', 't', '>']
}

pub(crate) fn open_tag_chars() -> (v: Vec<char>)
    ensures
        v@ == open_tag(),
{
    vec!['<', 'b', ':', 'w', 'i', 'd', 'g', 'e', 't']
}

pub(crate) fn close_tag_chars() -> (v: Vec<char>)
    ensures
        v@ == close_tag(),
{
    vec!['<', '/', 'b', ':', 'w', 'i', 'd', 'g', 'e', 't', '>']
}

pub open spec fn name_id() -> Seq<char> {
    seq!['i', 'd']
}

pub open spec fn name_type() -> Seq<char> {
    seq!['t', 'y', 'p', 'e']
}

pub open spec fn name_title() -> Seq<char> {
    seq!['t', 'i', 't', 'l', 'e']
}

pub open spec fn name_visible() -> Seq<char> {
    seq!['v', 'i', 's', 'i', 'b', 'l', 'e']
}

/// The type reported for a widget without a `type` attribute.
pub open spec fn default_type() -> Seq<char> {
    seq!['W', 'i', 'd', 'g', 'e', 't']
}

pub open spec fn word_true() -> Seq<char> {
    seq!['t', 'r', 'u', 'e']
}

pub open spec fn word_false() -> Seq<char> {
    seq!['f', 'a', 'l', 's', 'e']
}

// ───────────────────────── widget opening tags ─────────────────────────

/// Characters that may follow `<b:widget` in a real widget tag; anything else
/// (as in `<b:widget-settings>` or `<b:widgets>`) makes it another element.
pub open spec fn is_tag_delim(c: char) -> bool {
    c == ' ' || c == '\t' || c == '\n' || c == '\r' || c == '>' || c == '/'
}

/// A real widget opening tag starts at `p`.
pub open spec fn is_widget_open_at(s: Seq<char>, p: int) -> bool {
    occurs_at(s, open_tag(), p) && (p + 9 >= s.len() || is_tag_delim(s[p + 9]))
}

/// Position of the first real widget opening tag at or after `from`.
pub open spec fn widget_open_from(s: Seq<char>, from: int) -> Option<int>
    decreases s.len() + 1 - from,
{
    if from < 0 {
        None
    } else {
        match find_from(s, open_tag(), from) {
            None => None,
            Some(pos) => {
                if pos + 9 >= s.len() || is_tag_delim(s[pos + 9]) {
                    Some(pos)
                } else {
                    proof {
                        lemma_find_from(s, open_tag(), from);
                    }
                    widget_open_from(s, pos + 9)
                }
            },
        }
    }
}

/// `widget_open_from` finds the first real widget opening tag.
pub proof fn lemma_widget_open_from(s: Seq<char>, from: int)
    requires
        0 <= from,
    ensures
        widget_open_from(s, from) matches Some(p) ==> from <= p && p + 9 <= s.len()
            && is_widget_open_at(s, p) && forall|k: int|
            from <= k < p ==> !is_widget_open_at(s, k),
        widget_open_from(s, from) is None ==> forall|k: int|
            from <= k ==> !is_widget_open_at(s, k),
    decreases s.len() + 1 - from,
{
    lemma_find_from(s, open_tag(), from);
    match find_from(s, open_tag(), from) {
        None => {},
        Some(pos) => {
            if pos + 9 >= s.len() || is_tag_delim(s[pos + 9]) {
            } else {
                lemma_widget_open_from(s, pos + 9);
                assert forall|k: int| from <= k < pos + 9 implies !is_widget_open_at(s, k) by {
                    if pos < k < pos + 9 && occurs_at(s, open_tag(), k) {
                        // `<` occurs only once in `<b:widget`
                        assert(s.subrange(k, k + 9)[0] == '<');
                        assert(s[k] == s.subrange(pos, pos + 9)[k - pos]);
                    }
                }
            }
        },
    }
}

/// Next real widget opening tag at or after `from`, skipping look-alikes such
/// as `<b:widget-settings>`.
pub(crate) fn find_widget_open(xml: &[char], from: usize) -> (r: Option<usize>)
    ensures
        r matches Some(p) ==> widget_open_from(xml@, from as int) == Some(p as int),
        r is None ==> widget_open_from(xml@, from as int) is None,
{
    let open = open_tag_chars();
    let n = xml.len();
    let mut start: usize = from;
    loop
        invariant
            from <= start,
            n == xml@.len(),
            open@ == open_tag(),
            widget_open_from(xml@, from as int) == widget_open_from(xml@, start as int),
        decreases xml@.len() + 1 - start,
    {
        match find(xml, &open, start) {
            None => {
                return None;
            },
            Some(pos) => {
                proof {
                    lemma_find_from(xml@, open_tag(), start as int);
                }
                let after = pos + 9;
                if after >= xml.len() {
                    return Some(pos);
                }
                let c = xml[after];
                if c == ' ' || c == '\t' || c == '\n' || c == '\r' || c == '>' || c == '/' {
                    return Some(pos);
                }
                start = after;
            },
        }
    }
}

// ───────────────────────── attributes ─────────────────────────

/// `name=q`, the text that introduces an attribute value quoted with `q`.
pub open spec fn attr_pat(name: Seq<char>, q: char) -> Seq<char> {
    name + seq!['=', q]
}

/// Value of attribute `name` quoted with `q`: the text after the first `name=q`
/// up to the next `q`.
pub open spec fn attr_q(tag: Seq<char>, name: Seq<char>, q: char) -> Option<Seq<char>> {
    match find_from(tag, attr_pat(name, q), 0) {
        Some(p) => {
            let vstart = p + name.len() + 2;
            match find_char_from(tag, q, vstart) {
                Some(e) => Some(tag.subrange(vstart, e)),
                None => None,
            }
        },
        None => None,
    }
}

/// Value of a single-quoted attribute, else of a double-quoted one.
pub open spec fn attr_value(tag: Seq<char>, name: Seq<char>) -> Option<Seq<char>> {
    match attr_q(tag, name, '\'') {
        Some(v) => Some(v),
        None => attr_q(tag, name, '"'),
    }
}

/// Value of an attribute, or `default` when it is absent.
pub open spec fn attr_or(tag: Seq<char>, name: Seq<char>, default: Seq<char>) -> Seq<char> {
    match attr_value(tag, name) {
        Some(v) => v,
        None => default,
    }
}

/// `name=q` as characters.
pub(crate) fn attr_pat_chars(name: &[char], q: char) -> (v: Vec<char>)
    ensures
        v@ == attr_pat(name@, q),
{
    let mut v = vec_of_range(name, 0, name.len());
    v.push('=');
    v.push(q);
    assert(name@.subrange(0, name@.len() as int) == name@);
    v
}

/// Bounds of the value of `name` quoted with `q`.
fn attr_q_span(tag: &[char], name: &[char], q: char) -> (r: Option<(usize, usize)>)
    ensures
        r matches Some(sp) ==> sp.0 <= sp.1 <= tag@.len() && attr_q(tag@, name@, q) == Some(
            tag@.subrange(sp.0 as int, sp.1 as int),
        ),
        r is None ==> attr_q(tag@, name@, q) is None,
{
    let pat = attr_pat_chars(name, q);
    let n = tag.len();
    match find(tag, &pat, 0) {
        None => None,
        Some(p) => {
            proof {
                lemma_find_from(tag@, pat@, 0);
            }
            let vstart = p + name.len() + 2;
            match find_char(tag, q, vstart) {
                None => None,
                Some(e) => {
                    proof {
                        lemma_find_char_from(tag@, q, vstart as int);
                    }
                    Some((vstart, e))
                },
            }
        },
    }
}

/// Bounds of an attribute's value in an opening tag (`'` or `"` quoted).
pub(crate) fn attr(tag: &[char], name: &[char]) -> (r: Option<(usize, usize)>)
    ensures
        r matches Some(sp) ==> sp.0 <= sp.1 <= tag@.len() && attr_value(tag@, name@) == Some(
            tag@.subrange(sp.0 as int, sp.1 as int),
        ),
        r is None ==> attr_value(tag@, name@) is None,
{
    match attr_q_span(tag, name, '\'') {
        Some(sp) => Some(sp),
        None => attr_q_span(tag, name, '"'),
    }
}

/// An attribute's value as a string, or `default` when it is absent.
pub(crate) fn attr_string_or(tag: &[char], name: &[char], default: &[char]) -> (r: String)
    ensures
        r@ == attr_or(tag@, name@, default@),
{
    match attr(tag, name) {
        Some(sp) => string_of_range(tag, sp.0, sp.1),
        None => string_of(default),
    }
}

/// The `visible` attribute read as a flag: anything but `false` counts as shown.
pub open spec fn visible_flag(tag: Seq<char>) -> bool {
    match attr_value(tag, name_visible()) {
        Some(v) => v != word_false(),
        None => true,
    }
}

pub(crate) fn visible_of(tag: &[char]) -> (b: bool)
    ensures
        b == visible_flag(tag@),
{
    let name = vec!['v', 'i', 's', 'i', 'b', 'l', 'e'];
    match attr(tag, &name) {
        Some(sp) => {
            let f = vec!['f', 'a', 'l', 's', 'e'];
            let v = &tag[sp.0..sp.1];
            !chars_eq(v, &f)
        },
        None => true,
    }
}

// ───────────────────────── blocks ─────────────────────────

/// Position just past the opening tag's `>`, clamped to `end`.
pub open spec fn tag_end_of(s: Seq<char>, start: int, end: int) -> int {
    match find_char_from(s.take(end), '>', start) {
        Some(i) => i + 1,
        None => end,
    }
}

pub proof fn lemma_tag_end_of(s: Seq<char>, start: int, end: int)
    requires
        0 <= start <= end <= s.len(),
    ensures
        start <= tag_end_of(s, start, end) <= end,
        start < end ==> start < tag_end_of(s, start, end),
{
    lemma_find_char_from(s.take(end), '>', start);
}

/// Position just past the opening tag's `>`, clamped to the block end.
pub(crate) fn tag_end(xml: &[char], start: usize, end: usize) -> (r: usize)
    requires
        start <= end <= xml@.len(),
    ensures
        r as int == tag_end_of(xml@, start as int, end as int),
        start <= r <= end,
{
    let head = &xml[0..end];
    proof {
        assert(head@ == xml@.take(end as int));
        lemma_tag_end_of(xml@, start as int, end as int);
    }
    match find_char(head, '>', start) {
        Some(i) => i + 1,
        None => end,
    }
}

/// End of the block whose opening tag starts at `start`: just past the next
/// `</b:widget>`, or the end of the buffer.
pub open spec fn block_end(s: Seq<char>, start: int) -> int {
    match find_from(s, close_tag(), start + 9) {
        Some(c) => c + 11,
        None => s.len() as int,
    }
}

pub proof fn lemma_block_end(s: Seq<char>, start: int)
    requires
        0 <= start,
        start + 9 <= s.len(),
    ensures
        start + 9 <= block_end(s, start) <= s.len(),
{
    lemma_find_from(s, close_tag(), start + 9);
}

pub(crate) fn find_block_end(xml: &[char], start: usize) -> (r: usize)
    requires
        start + 9 <= xml@.len(),
    ensures
        r as int == block_end(xml@, start as int),
        start + 9 <= r <= xml@.len(),
{
    let close = close_tag_chars();
    let n = xml.len();
    proof {
        lemma_block_end(xml@, start as int);
        lemma_find_from(xml@, close_tag(), start + 9);
    }
    match find(xml, &close, start + 9) {
        Some(c) => c + 11,
        None => xml.len(),
    }
}

// ───────────────────────── slots ─────────────────────────

/// What a widget block shows as a Layout card.
pub struct SlotSpec {
    pub id: Seq<char>,
    pub w_type: Seq<char>,
    pub title: Seq<char>,
    pub visible: bool,
    /// Span of the whole block, opening tag to closing tag.
    pub start: int,
    pub end: int,
}

/// The card for the block spanning `start..end`.
pub open spec fn slot_at(s: Seq<char>, start: int, end: int) -> SlotSpec {
    let tag = s.subrange(start, tag_end_of(s, start, end));
    SlotSpec {
        id: attr_or(tag, name_id(), Seq::empty()),
        w_type: attr_or(tag, name_type(), default_type()),
        title: attr_or(tag, name_title(), Seq::empty()),
        visible: visible_flag(tag),
        start,
        end,
    }
}

/// Every widget block at or after `cursor`, in document order.
pub open spec fn slots_from(s: Seq<char>, cursor: int) -> Seq<SlotSpec>
    decreases s.len() + 1 - cursor,
{
    if cursor < 0 {
        Seq::empty()
    } else {
        match widget_open_from(s, cursor) {
            None => Seq::empty(),
            Some(start) => {
                proof {
                    lemma_widget_open_from(s, cursor);
                    lemma_block_end(s, start);
                }
                let end = block_end(s, start);
                seq![slot_at(s, start, end)] + slots_from(s, end)
            },
        }
    }
}

/// Every widget block of the buffer, in document order.
pub open spec fn slots_of(s: Seq<char>) -> Seq<SlotSpec> {
    slots_from(s, 0)
}

/// Blocks lie inside the buffer, in order, without overlapping, each starting
/// with a real widget opening tag and ending at its block end.
pub proof fn lemma_slots_from(s: Seq<char>, cursor: int)
    requires
        0 <= cursor,
    ensures
        forall|i: int|
            0 <= i < slots_from(s, cursor).len() ==> {
                let sl = #[trigger] slots_from(s, cursor)[i];
                &&& cursor <= sl.start
                &&& sl.start + 9 <= sl.end <= s.len()
                &&& is_widget_open_at(s, sl.start)
                &&& sl.end == block_end(s, sl.start)
                &&& sl == slot_at(s, sl.start, sl.end)
            },
        forall|i: int, j: int|
            0 <= i < j < slots_from(s, cursor).len() ==> slots_from(s, cursor)[i].end
                <= slots_from(s, cursor)[j].start,
    decreases s.len() + 1 - cursor,
{
    lemma_widget_open_from(s, cursor);
    match widget_open_from(s, cursor) {
        None => {},
        Some(start) => {
            lemma_block_end(s, start);
            let end = block_end(s, start);
            lemma_slots_from(s, end);
            let rest = slots_from(s, end);
            let all = slots_from(s, cursor);
            assert(all == seq![slot_at(s, start, end)] + rest);
            assert forall|i: int| 0 <= i < all.len() implies {
                let sl = #[trigger] all[i];
                &&& cursor <= sl.start
                &&& sl.start + 9 <= sl.end <= s.len()
                &&& is_widget_open_at(s, sl.start)
                &&& sl.end == block_end(s, sl.start)
                &&& sl == slot_at(s, sl.start, sl.end)
            } by {
                if i > 0 {
                    assert(all[i] == rest[i - 1]);
                }
            }
            assert forall|i: int, j: int| 0 <= i < j < all.len() implies all[i].end
                <= all[j].start by {
                if i > 0 {
                    assert(all[i] == rest[i - 1]);
                }
                assert(all[j] == rest[j - 1]);
            }
        },
    }
}

/// One `<b:widget>` block surfaced as a Layout card.
#[derive(Clone, PartialEq)]
pub struct WidgetSlot {
    pub id: String,
    pub w_type: String,
    pub title: String,
    pub visible: bool,
    /// Span of the whole block (`<b:widget ...>...</b:widget>`), in characters.
    pub start: usize,
    pub end: usize,
}

impl View for WidgetSlot {
    type V = SlotSpec;

    open spec fn view(&self) -> SlotSpec {
        SlotSpec {
            id: self.id@,
            w_type: self.w_type@,
            title: self.title@,
            visible: self.visible,
            start: self.start as int,
            end: self.end as int,
        }
    }
}

impl WidgetSlot {
    /// The card shows exactly what `sp` describes.
    pub open spec fn shows(&self, sp: SlotSpec) -> bool {
        &&& self@ == sp
        &&& self.id@ == sp.id
        &&& self.w_type@ == sp.w_type
        &&& self.title@ == sp.title
        &&& self.visible == sp.visible
    }

    pub(crate) fn span(&self) -> (r: (usize, usize))
        ensures
            r.0 as int == self@.start,
            r.1 as int == self@.end,
    {
        (self.start, self.end)
    }
}

/// The card for the block spanning `start..end`.
fn make_slot(xml: &[char], start: usize, end: usize) -> (r: WidgetSlot)
    requires
        start <= end <= xml@.len(),
    ensures
        r.shows(slot_at(xml@, start as int, end as int)),
{
    let te = tag_end(xml, start, end);
    let tag = &xml[start..te];
    let id = attr_string_or(tag, &vec!['i', 'd'], &Vec::new());
    let w_type = attr_string_or(
        tag,
        &vec!['t', 'y', 'p', 'e'],
        &vec!['W', 'i', 'd', 'g', 'e', 't'],
    );
    let title = attr_string_or(tag, &vec!['t', 'i', 't', 'l', 'e'], &Vec::new());
    let visible = visible_of(tag);
    let r = WidgetSlot { id, w_type, title, visible, start, end };
    assert(r@ == slot_at(xml@, start as int, end as int));
    r
}

/// Every widget block of `xml`, in document order.
pub(crate) fn slots_in(xml: &[char]) -> (r: Vec<WidgetSlot>)
    ensures
        r@.len() == slots_of(xml@).len(),
        forall|i: int| 0 <= i < r@.len() ==> r@[i].shows(#[trigger] slots_of(xml@)[i]),
{
    let mut slots: Vec<WidgetSlot> = Vec::new();
    let mut cursor: usize = 0;
    let ghost all = slots_of(xml@);
    loop
        invariant
            cursor <= xml@.len(),
            all == slots_of(xml@),
            all == slots@.map_values(|w: WidgetSlot| w@) + slots_from(xml@, cursor as int),
            forall|i: int| 0 <= i < slots@.len() ==> slots@[i].shows(#[trigger] all[i]),
        decreases xml@.len() + 1 - cursor,
    {
        let ghost before = slots@;
        proof {
            lemma_widget_open_from(xml@, cursor as int);
        }
        match find_widget_open(xml, cursor) {
            None => {
                assert(slots_from(xml@, cursor as int) == Seq::<SlotSpec>::empty());
                assert(all == slots@.map_values(|w: WidgetSlot| w@));
                assert forall|i: int| 0 <= i < slots@.len() implies slots@[i].shows(
                    #[trigger] slots_of(xml@)[i],
                ) by {}
                return slots;
            },
            Some(start) => {
                let end = find_block_end(xml, start);
                let slot = make_slot(xml, start, end);
                slots.push(slot);
                proof {
                    let rest = slots_from(xml@, end as int);
                    assert(slots_from(xml@, cursor as int) == seq![
                        slot_at(xml@, start as int, end as int),
                    ] + rest);
                    assert(slots@.map_values(|w: WidgetSlot| w@) == before.map_values(
                        |w: WidgetSlot| w@,
                    ).push(slot@));
                    assert(all == slots@.map_values(|w: WidgetSlot| w@) + rest);
                    assert forall|i: int| 0 <= i < slots@.len() implies slots@[i].shows(
                        #[trigger] all[i],
                    ) by {
                        if i < before.len() {
                            assert(slots@[i] == before[i]);
                        } else {
                            assert(all[i] == slots@.map_values(|w: WidgetSlot| w@)[i]);
                        }
                    }
                }
                cursor = end;
            },
        }
    }
}

/// List every top-level widget block in document order.
pub fn parse_slots(xml: &str) -> (r: Vec<WidgetSlot>)
    ensures
        r@.len() == slots_of(xml@).len(),
        forall|i: int| 0 <= i < r@.len() ==> r@[i].shows(#[trigger] slots_of(xml@)[i]),
{
    let s = chars_of(xml);
    slots_in(&s)
}


// ───────────────────────── editing blocks ─────────────────────────

/// `v` with the item at `from` moved to position `to`.
pub open spec fn move_item<T>(v: Seq<T>, from: int, to: int) -> Seq<T> {
    v.remove(from).insert(to, v[from])
}

/// Where the item at `i` of `move_item(v, from, to)` came from.
pub open spec fn moved_source(i: int, from: int, to: int) -> int {
    if i == to {
        from
    } else {
        let k = if i < to {
            i
        } else {
            i - 1
        };
        if k < from {
            k
        } else {
            k + 1
        }
    }
}

/// Each item of a moved sequence is an item of the original.
pub proof fn lemma_move_item_index<T>(v: Seq<T>, from: int, to: int, i: int)
    requires
        0 <= from < v.len(),
        0 <= to < v.len(),
        0 <= i < v.len(),
    ensures
        move_item(v, from, to).len() == v.len(),
        0 <= moved_source(i, from, to) < v.len(),
        move_item(v, from, to)[i] == v[moved_source(i, from, to)],
{
}

/// The text of each block, in document order.
pub open spec fn block_texts(s: Seq<char>, sl: Seq<SlotSpec>) -> Seq<Seq<char>> {
    sl.map_values(|x: SlotSpec| s.subrange(x.start, x.end))
}

/// The buffer with the widget at `from` moved to position `to`: the text before
/// the first widget and after the last is kept, the blocks are joined by `\n`.
pub open spec fn reorder_spec(s: Seq<char>, from: int, to: int) -> Seq<char> {
    let sl = slots_of(s);
    if from < 0 || to < 0 || from >= sl.len() || to >= sl.len() || from == to {
        s
    } else {
        s.take(sl[0].start) + join(move_item(block_texts(s, sl), from, to), seq!['\n']) + s.skip(
            sl.last().end,
        )
    }
}

/// Move the widget at `from` to position `to`, preserving the text before the
/// first widget and after the last. Inter-widget whitespace is normalised to `\n`.
pub fn reorder(xml: &str, from: usize, to: usize) -> (r: String)
    ensures
        r@ == reorder_spec(xml@, from as int, to as int),
{
    let s = chars_of(xml);
    let slots = slots_in(&s);
    if from >= slots.len() || to >= slots.len() || from == to {
        return string_of(&s);
    }
    let ghost sl = slots_of(s@);
    proof {
        lemma_slots_from(s@, 0);
    }
    let mut spans: Vec<(usize, usize)> = Vec::new();
    let mut k: usize = 0;
    while k < slots.len()
        invariant
            slots@.len() == sl.len(),
            forall|i: int| 0 <= i < slots@.len() ==> slots@[i].shows(#[trigger] sl[i]),
            0 <= k <= slots@.len(),
            spans@.len() == k,
            forall|i: int|
                0 <= i < k ==> #[trigger] spans@[i].0 as int == sl[i].start && spans@[i].1 as int
                    == sl[i].end,
        decreases slots.len() - k,
    {
        let sp = slots[k].span();
        assert(slots@[k as int].shows(sl[k as int]));
        spans.push(sp);
        k = k + 1;
    }
    let ghost texts = block_texts(s@, sl);
    let ghost blocks = move_item(texts, from as int, to as int);
    let ghost spans0 = spans@;
    let moved = spans.remove(from);
    spans.insert(to, moved);
    assert(spans@ == move_item(spans0, from as int, to as int));
    assert forall|i: int| 0 <= i < spans@.len() implies {
        let sp = #[trigger] spans@[i];
        &&& sp.0 <= sp.1 <= s@.len()
        &&& s@.subrange(sp.0 as int, sp.1 as int) == blocks[i]
    } by {
        let j = moved_source(i, from as int, to as int);
        lemma_move_item_index(spans0, from as int, to as int, i);
        lemma_move_item_index(texts, from as int, to as int, i);
        assert(texts[j] == s@.subrange(sl[j].start, sl[j].end));
        assert(spans0[j].0 as int == sl[j].start);
    }
    let first = slots[0].span();
    let last = slots[slots.len() - 1].span();
    assert(slots@[0].shows(sl[0]));
    assert(slots@[slots@.len() - 1].shows(sl[sl.len() - 1]));
    let mut out = String::new();
    push_range(&mut out, &s, 0, first.0);
    let mut k: usize = 0;
    while k < spans.len()
        invariant
            0 <= k <= spans@.len(),
            spans@.len() == blocks.len(),
            blocks.len() == sl.len(),
            forall|i: int|
                0 <= i < spans@.len() ==> {
                    let sp = #[trigger] spans@[i];
                    &&& sp.0 <= sp.1 <= s@.len()
                    &&& s@.subrange(sp.0 as int, sp.1 as int) == blocks[i]
                },
            out@ == s@.take(first.0 as int) + join(blocks.take(k as int), seq!['\n']),
        decreases spans.len() - k,
    {
        let ghost before = out@;
        proof {
            lemma_join_take(blocks, seq!['\n'], k as int);
        }
        if k > 0 {
            push_char(&mut out, '\n');
        }
        let sp = spans[k];
        push_range(&mut out, &s, sp.0, sp.1);
        proof {
            assert(spans@[k as int] == sp);
            if k == 0 {
                assert(join(blocks.take(1), seq!['\n']) == blocks[0]);
            }
        }
        k = k + 1;
    }
    push_range(&mut out, &s, last.1, s.len());
    assert(blocks.take(blocks.len() as int) == blocks);
    assert(s@.subrange(last.1 as int, s@.len() as int) == s@.skip(last.1 as int));
    assert(s@.subrange(0, first.0 as int) == s@.take(first.0 as int));
    out
}

/// `s` with the first occurrence of `pat` replaced by `with` (`str::replacen(.., 1)`).
pub open spec fn replace_first(s: Seq<char>, pat: Seq<char>, with: Seq<char>) -> Seq<char> {
    match find_from(s, pat, 0) {
        Some(p) => s.take(p) + with + s.skip(p + pat.len()),
        None => s,
    }
}

/// `name=q` + `v` + `q`: an attribute written out with quote `q`.
pub open spec fn quoted_attr(name: Seq<char>, q: char, v: Seq<char>) -> Seq<char> {
    name + seq!['=', q] + v + seq![q]
}

pub(crate) fn replace_first_chars(s: &[char], pat: &[char], with: &[char]) -> (r: Vec<char>)
    ensures
        r@ == replace_first(s@, pat@, with@),
{
    let n = s.len();
    match find(s, pat, 0) {
        Some(p) => {
            proof {
                lemma_find_from(s@, pat@, 0);
            }
            let mut r = vec_of_range(s, 0, p);
            let mut k: usize = 0;
            while k < with.len()
                invariant
                    0 <= k <= with@.len(),
                    r@ == s@.take(p as int) + with@.take(k as int),
                decreases with.len() - k,
            {
                r.push(with[k]);
                assert(with@.take(k + 1) == with@.take(k as int).push(with@[k as int]));
                k = k + 1;
            }
            let mut j: usize = p + pat.len();
            let ghost mid = r@;
            while j < n
                invariant
                    p + pat@.len() <= j <= n,
                    n == s@.len(),
                    r@ == mid + s@.subrange(p + pat@.len(), j as int),
                decreases n - j,
            {
                r.push(s[j]);
                assert(s@.subrange(p + pat@.len(), j + 1) == s@.subrange(
                    p + pat@.len(),
                    j as int,
                ).push(s@[j as int]));
                j = j + 1;
            }
            assert(with@.take(with@.len() as int) == with@);
            assert(s@.subrange(0, p as int) == s@.take(p as int));
            assert(s@.subrange(p + pat@.len(), n as int) == s@.skip(p + pat@.len()));
            r
        },
        None => vec_of_range(s, 0, n),
    }
}

/// `name=q` + `v` + `q` as characters.
pub(crate) fn quoted_attr_chars(name: &[char], q: char, v: &[char]) -> (r: Vec<char>)
    ensures
        r@ == quoted_attr(name@, q, v@),
{
    let mut r = attr_pat_chars(name, q);
    let mut k: usize = 0;
    while k < v.len()
        invariant
            0 <= k <= v@.len(),
            r@ == attr_pat(name@, q) + v@.take(k as int),
        decreases v.len() - k,
    {
        r.push(v[k]);
        assert(v@.take(k + 1) == v@.take(k as int).push(v@[k as int]));
        k = k + 1;
    }
    r.push(q);
    assert(v@.take(v@.len() as int) == v@);
    r
}

/// An opening tag with its `visible` attribute set to `visible`: the attribute
/// as read is rewritten in place (single-quoted, then double-quoted form), or
/// one is inserted after `<b:widget` when the tag has none.
pub open spec fn visible_tag(tag: Seq<char>, visible: bool) -> Seq<char> {
    let want = if visible {
        word_true()
    } else {
        word_false()
    };
    match attr_value(tag, name_visible()) {
        Some(cur) => replace_first(
            replace_first(
                tag,
                quoted_attr(name_visible(), '\'', cur),
                quoted_attr(name_visible(), '\'', want),
            ),
            quoted_attr(name_visible(), '"', cur),
            quoted_attr(name_visible(), '"', want),
        ),
        None => replace_first(
            tag,
            open_tag(),
            open_tag() + seq![' '] + quoted_attr(name_visible(), '\'', want),
        ),
    }
}

/// The buffer with widget `index`'s `visible` attribute set to `visible`,
/// inserted after `<b:widget` when the tag has none.
pub open spec fn set_visible_spec(s: Seq<char>, index: int, visible: bool) -> Seq<char> {
    let sl = slots_of(s);
    if index < 0 || index >= sl.len() {
        s
    } else {
        let x = sl[index];
        let te = tag_end_of(s, x.start, x.end);
        s.take(x.start) + visible_tag(s.subrange(x.start, te), visible) + s.skip(te)
    }
}

/// Flip a widget's `visible` attribute, inserting one if absent.
pub fn set_visible(xml: &str, index: usize, visible: bool) -> (r: String)
    ensures
        r@ == set_visible_spec(xml@, index as int, visible),
{
    let s = chars_of(xml);
    let slots = slots_in(&s);
    if index >= slots.len() {
        return string_of(&s);
    }
    proof {
        lemma_slots_from(s@, 0);
    }
    let sp = slots[index].span();
    assert(slots@[index as int].shows(slots_of(s@)[index as int]));
    let te = tag_end(&s, sp.0, sp.1);
    let tag = &s[sp.0..te];
    let name = vec!['v', 'i', 's', 'i', 'b', 'l', 'e'];
    let want = if visible {
        vec!['t', 'r', 'u', 'e']
    } else {
        vec!['f', 'a', 'l', 's', 'e']
    };
    let new_tag = match attr(tag, &name) {
        Some(cs) => {
            let cur = &tag[cs.0..cs.1];
            let t1 = replace_first_chars(
                tag,
                &quoted_attr_chars(&name, '\'', cur),
                &quoted_attr_chars(&name, '\'', &want),
            );
            replace_first_chars(
                &t1,
                &quoted_attr_chars(&name, '"', cur),
                &quoted_attr_chars(&name, '"', &want),
            )
        },
        None => {
            let mut with = open_tag_chars();
            with.push(' ');
            let q = quoted_attr_chars(&name, '\'', &want);
            let mut k: usize = 0;
            let ghost w0 = with@;
            while k < q.len()
                invariant
                    0 <= k <= q@.len(),
                    with@ == w0 + q@.take(k as int),
                decreases q.len() - k,
            {
                with.push(q[k]);
                assert(q@.take(k + 1) == q@.take(k as int).push(q@[k as int]));
                k = k + 1;
            }
            assert(q@.take(q@.len() as int) == q@);
            replace_first_chars(tag, &open_tag_chars(), &with)
        },
    };
    let mut out = String::new();
    push_range(&mut out, &s, 0, sp.0);
    push_range(&mut out, &new_tag, 0, new_tag.len());
    push_range(&mut out, &s, te, s.len());
    assert(new_tag@.subrange(0, new_tag@.len() as int) == new_tag@);
    assert(s@.subrange(0, sp.0 as int) == s@.take(sp.0 as int));
    assert(s@.subrange(te as int, s@.len() as int) == s@.skip(te as int));
    out
}

/// The buffer with widget `index`'s block dropped: the text before it loses its
/// trailing whitespace, the text after it its leading whitespace, and a single
/// `\n` joins them.
pub open spec fn remove_spec(s: Seq<char>, index: int) -> Seq<char> {
    let sl = slots_of(s);
    if index < 0 || index >= sl.len() {
        s
    } else {
        trim_end(s.take(sl[index].start)) + seq!['\n'] + trim_start(s.skip(sl[index].end))
    }
}

/// Remove a widget block from the buffer.
pub fn remove(xml: &str, index: usize) -> (r: String)
    ensures
        r@ == remove_spec(xml@, index as int),
{
    let s = chars_of(xml);
    let slots = slots_in(&s);
    if index >= slots.len() {
        return string_of(&s);
    }
    proof {
        lemma_slots_from(s@, 0);
    }
    let sp = slots[index].span();
    assert(slots@[index as int].shows(slots_of(s@)[index as int]));
    let b = trim_end_bound(&s, 0, sp.0);
    let a = trim_start_bound(&s, sp.1, s.len());
    let mut out = String::new();
    push_range(&mut out, &s, 0, b);
    push_char(&mut out, '\n');
    push_range(&mut out, &s, a, s.len());
    assert(s@.subrange(0, sp.0 as int) == s@.take(sp.0 as int));
    assert(s@.subrange(sp.1 as int, s@.len() as int) == s@.skip(sp.1 as int));
    out
}

} // verus!
