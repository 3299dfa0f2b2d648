//! Decisions of the module workbench: where a saved module is filed, which
//! manifest stands in for a missing one, which buffer is shown, how a gadget
//! joins the buffer or a socket, and how the widgets of a socket are moved
//! and removed.
use crate::text::{chars_eq, chars_of, trim, trim_bounds};
use crate::widget_layout::{move_item, parse_slots, reorder, reorder_spec, slots_of};
use vstd::prelude::*;

verus! {

/// `a` reads exactly `b`.
fn same_text(a: &str, b: &str) -> (r: bool)
    ensures
        r == (a@ == b@),
{
    let x = chars_of(a);
    let y = chars_of(b);
    chars_eq(&x, &y)
}

/// The template category a module slot is saved under.
pub open spec fn category_of(key: Seq<char>) -> Seq<char> {
    if key == "header_variant"@ {
        "headers"@
    } else if key == "main_variant"@ {
        "layouts"@
    } else if key == "content_variant"@ {
        "content"@
    } else if key == "left_sidebar_variant"@ || key == "right_sidebar_variant"@ {
        "sidebars"@
    } else if key == "footer_variant"@ {
        "footers"@
    } else {
        "custom"@
    }
}

/// The template category a module slot is saved under; unknown slots are `custom`.
pub fn module_key_to_category(key: &str) -> (r: &'static str)
    ensures
        r@ == category_of(key@),
{
    if same_text(key, "header_variant") {
        "headers"
    } else if same_text(key, "main_variant") {
        "layouts"
    } else if same_text(key, "content_variant") {
        "content"
    } else if same_text(key, "left_sidebar_variant") || same_text(key, "right_sidebar_variant") {
        "sidebars"
    } else if same_text(key, "footer_variant") {
        "footers"
    } else {
        "custom"
    }
}

/// The built-in manifest used when a module type has none under the requested id.
pub open spec fn fallback_id_of(registry_type: Seq<char>) -> Seq<char> {
    if registry_type == "header"@ {
        "mor"@
    } else if registry_type == "layout"@ {
        "sidebars"@
    } else if registry_type == "content"@ {
        "blog_standard"@
    } else if registry_type == "sidebar_left"@ {
        "blogger_left"@
    } else if registry_type == "sidebar_right"@ {
        "toc_right"@
    } else if registry_type == "footer"@ {
        "mega"@
    } else {
        ""@
    }
}

/// The id of the built-in manifest that stands in for a missing one of this
/// module type; empty for an unknown type.
pub fn fallback_manifest_id(registry_type: &str) -> (r: &'static str)
    ensures
        r@ == fallback_id_of(registry_type@),
{
    if same_text(registry_type, "header") {
        "mor"
    } else if same_text(registry_type, "layout") {
        "sidebars"
    } else if same_text(registry_type, "content") {
        "blog_standard"
    } else if same_text(registry_type, "sidebar_left") {
        "blogger_left"
    } else if same_text(registry_type, "sidebar_right") {
        "toc_right"
    } else if same_text(registry_type, "footer") {
        "mega"
    } else {
        ""
    }
}

/// The buffer after importing a gadget: the gadget alone where the buffer is
/// blank, else the buffer, a newline and the gadget.
pub open spec fn merged_buffer(current: Seq<char>, gadget: Seq<char>) -> Seq<char> {
    if trim(current).len() == 0 {
        gadget
    } else {
        current + seq!['\n'] + gadget
    }
}

/// Appends a gadget's widget XML to the module buffer.
pub fn merge_blueprint(current: &str, gadget: &str) -> (r: String)
    ensures
        r@ == merged_buffer(current@, gadget@),
{
    let c = chars_of(current);
    let n = c.len();
    let (a, b) = trim_bounds(&c, 0, n);
    assert(c@.subrange(0, n as int) == c@);
    if a == b {
        String::from_str(gadget)
    } else {
        let mut out = String::from_str(current);
        out.append("\n");
        out.append(gadget);
        proof {
            reveal_strlit("\n");
        }
        out
    }
}

/// The widget list after moving the widget at `idx` by `delta` places: it swaps
/// with the widget there when that place exists, else nothing changes.
pub open spec fn nudged(v: Seq<Seq<char>>, idx: int, delta: int) -> Seq<Seq<char>> {
    let j = idx + delta;
    if 0 <= j < v.len() {
        v.update(idx, v[j]).update(j, v[idx])
    } else {
        v
    }
}

/// Where a nudge lands: `idx` taken as an `i32` (wrapping as `as` does), plus
/// `delta`.
pub open spec fn nudge_target(idx: usize, delta: i32) -> int {
    (idx as i32) + delta
}

/// The widget list after swapping the widget at `idx` with the one at `j` when
/// that place exists, else unchanged.
pub open spec fn swapped_with(v: Seq<Seq<char>>, idx: int, j: int) -> Seq<Seq<char>> {
    if 0 <= j < v.len() {
        v.update(idx, v[j]).update(j, v[idx])
    } else {
        v
    }
}

/// Swaps a socket widget with its neighbour (`delta` -1 up, +1 down).
pub fn socket_move(list: &mut Vec<String>, idx: usize, delta: i32)
    requires
        i32::MIN <= nudge_target(idx, delta) <= i32::MAX,
        idx < old(list)@.len() || !(0 <= nudge_target(idx, delta) < old(list)@.len()),
    ensures
        final(list)@.map_values(|s: String| s@) == swapped_with(
            old(list)@.map_values(|s: String| s@),
            idx as int,
            nudge_target(idx, delta),
        ),
        idx <= i32::MAX ==> final(list)@.map_values(|s: String| s@) == nudged(
            old(list)@.map_values(|s: String| s@),
            idx as int,
            delta as int,
        ),
{
    let j: i32 = idx as i32 + delta;
    if j >= 0 && (j as usize) < list.len() {
        let ghost before = list@;
        let k = j as usize;
        let a = list[idx].clone();
        let b = list[k].clone();
        list.set(idx, b);
        list.set(k, a);
        assert(list@.map_values(|s: String| s@) == before.map_values(|s: String| s@).update(
            idx as int,
            before[j as int]@,
        ).update(j as int, before[idx as int]@));
    }
}

/// The widget list after a drag from `from` to `to`: the widget is taken out
/// and put back at `to`; an out-of-range or empty move changes nothing.
pub open spec fn dragged(v: Seq<Seq<char>>, from: int, to: int) -> Seq<Seq<char>> {
    if 0 <= from < v.len() && 0 <= to < v.len() && from != to {
        move_item(v, from, to)
    } else {
        v
    }
}

/// Moves a socket widget from `from` to `to` (drag-to-reorder).
pub fn socket_reorder(list: &mut Vec<String>, from: usize, to: usize)
    ensures
        final(list)@.map_values(|s: String| s@) == dragged(
            old(list)@.map_values(|s: String| s@),
            from as int,
            to as int,
        ),
{
    if from < list.len() && to < list.len() && from != to {
        let ghost before = list@;
        let item = list.remove(from);
        list.insert(to, item);
        assert(list@ == move_item(before, from as int, to as int));
        assert(list@.map_values(|s: String| s@) == move_item(
            before.map_values(|s: String| s@),
            from as int,
            to as int,
        ));
    }
}

/// Nudging a widget down and then back up restores the list.
pub proof fn law_nudge_round_trip(v: Seq<Seq<char>>, idx: int)
    requires
        0 <= idx,
        idx + 1 < v.len(),
    ensures
        nudged(nudged(v, idx, 1), idx + 1, -1) == v,
{
    assert(nudged(nudged(v, idx, 1), idx + 1, -1) =~= v);
}

/// A drag keeps the same widgets: the list is a permutation of the one before.
pub proof fn law_drag_keeps_widgets(v: Seq<Seq<char>>, from: int, to: int)
    ensures
        dragged(v, from, to).to_multiset() == v.to_multiset(),
        dragged(v, from, to).len() == v.len(),
{
    if 0 <= from < v.len() && 0 <= to < v.len() && from != to {
        let r = v.remove(from);
        vstd::seq_lib::lemma_multiset_commutative(v.take(from), v.skip(from + 1));
        assert(v == v.take(from) + seq![v[from]] + v.skip(from + 1));
        assert(r == v.take(from) + v.skip(from + 1));
        lemma_insert_multiset(r, to, v[from]);
        lemma_remove_multiset(v, from);
    }
}

proof fn lemma_remove_multiset(v: Seq<Seq<char>>, i: int)
    requires
        0 <= i < v.len(),
    ensures
        v.remove(i).to_multiset().insert(v[i]) == v.to_multiset(),
{
    let a = v.take(i);
    let b = v.skip(i + 1);
    assert(v == a + seq![v[i]] + b);
    assert(v.remove(i) == a + b);
    vstd::seq_lib::lemma_multiset_commutative(a + seq![v[i]], b);
    vstd::seq_lib::lemma_multiset_commutative(a, seq![v[i]]);
    vstd::seq_lib::lemma_multiset_commutative(a, b);
    broadcast use vstd::seq_lib::group_to_multiset_ensures;
    assert(seq![v[i]].to_multiset() =~= vstd::multiset::Multiset::empty().insert(v[i]));
}

proof fn lemma_insert_multiset(v: Seq<Seq<char>>, i: int, x: Seq<char>)
    requires
        0 <= i <= v.len(),
    ensures
        v.insert(i, x).to_multiset() == v.to_multiset().insert(x),
{
    let a = v.take(i);
    let b = v.skip(i);
    assert(v == a + b);
    assert(v.insert(i, x) == a + seq![x] + b);
    vstd::seq_lib::lemma_multiset_commutative(a + seq![x], b);
    vstd::seq_lib::lemma_multiset_commutative(a, seq![x]);
    vstd::seq_lib::lemma_multiset_commutative(a, b);
    broadcast use vstd::seq_lib::group_to_multiset_ensures;
    assert(seq![x].to_multiset() =~= vstd::multiset::Multiset::empty().insert(x));
}

/// The buffer shown: the session's edits, or the module's own XML while there
/// are none.
pub open spec fn shown_buffer(edited: Seq<char>, module_xml: Seq<char>) -> Seq<char> {
    if edited.len() == 0 {
        module_xml
    } else {
        edited
    }
}

/// The buffer the workbench shows: the edits, falling back to the module's XML
/// while the edit buffer is empty.
pub fn display_buffer(edited: &str, module_xml: &str) -> (r: String)
    ensures
        r@ == shown_buffer(edited@, module_xml@),
{
    if edited.unicode_len() == 0 {
        String::from_str(module_xml)
    } else {
        String::from_str(edited)
    }
}

/// The widget list without any entry equal to `wid`, the rest in order.
pub open spec fn without(v: Seq<Seq<char>>, wid: Seq<char>) -> Seq<Seq<char>>
    decreases v.len(),
{
    if v.len() == 0 {
        Seq::empty()
    } else {
        without(v.drop_last(), wid) + if v.last() == wid {
            Seq::empty()
        } else {
            seq![v.last()]
        }
    }
}

/// Removes a widget id from a socket's list.
pub fn socket_remove(list: &mut Vec<String>, wid: &str)
    ensures
        final(list)@.map_values(|s: String| s@) == without(
            old(list)@.map_values(|s: String| s@),
            wid@,
        ),
{
    let ghost before = list@.map_values(|s: String| s@);
    let w = chars_of(wid);
    let mut kept: Vec<String> = Vec::new();
    let n = list.len();
    let mut i: usize = 0;
    while i < n
        invariant
            i <= n,
            n == list@.len(),
            before == list@.map_values(|s: String| s@),
            w@ == wid@,
            kept@.map_values(|s: String| s@) == without(before.take(i as int), wid@),
        decreases n - i,
    {
        let x = chars_of(list[i].as_str());
        assert(before.take(i + 1).drop_last() == before.take(i as int));
        assert(before.take(i + 1).last() == list@[i as int]@);
        if !chars_eq(&x, &w) {
            kept.push(String::from_str(list[i].as_str()));
            assert(kept@.map_values(|s: String| s@) =~= without(before.take(i as int), wid@)
                + seq![list@[i as int]@]);
        } else {
            assert(without(before.take(i as int), wid@) + Seq::<Seq<char>>::empty() =~= without(
                before.take(i as int),
                wid@,
            ));
        }
        i = i + 1;
    }
    assert(before.take(n as int) == before);
    *list = kept;
}

/// Where a gadget added to a socket goes: none when its XML holds no widget;
/// else its first widget's id (the blueprint's name when that id is empty)
/// and its title when that is not blank.
pub open spec fn socket_entry(xml: Seq<char>, name: Seq<char>) -> Option<(Seq<char>, Option<Seq<char>>)> {
    if slots_of(xml).len() == 0 {
        None
    } else {
        let s = slots_of(xml)[0];
        let id = if s.id.len() == 0 {
            name
        } else {
            s.id
        };
        Some((id, if trim(s.title).len() > 0 { Some(s.title) } else { None }))
    }
}

/// Routes a gadget into a socket: the widget id to file there and the title
/// to record for it, if any.
pub fn socket_gadget(blueprint_xml: &str, blueprint_name: &str) -> (r: Option<(String, Option<String>)>)
    ensures
        r matches Some((id, title)) ==> socket_entry(blueprint_xml@, blueprint_name@) == Some(
            (id@, match title { Some(t) => Some(t@), None => None::<Seq<char>> }),
        ),
        r is None <==> socket_entry(blueprint_xml@, blueprint_name@) is None,
{
    let slots = parse_slots(blueprint_xml);
    if slots.len() == 0 {
        return None;
    }
    let s = &slots[0];
    assert(s.shows(slots_of(blueprint_xml@)[0]));
    let id = if s.id.unicode_len() == 0 {
        String::from_str(blueprint_name)
    } else {
        String::from_str(s.id.as_str())
    };
    let t = chars_of(s.title.as_str());
    let (a, b) = trim_bounds(&t, 0, t.len());
    assert(t@.subrange(0, t@.len() as int) == t@);
    let title = if a < b {
        Some(String::from_str(s.title.as_str()))
    } else {
        None
    };
    Some((id, title))
}

/// Where a card drag in the Layout view ends: the buffer reordered, to be
/// applied (and the theme reloaded), when both ends are known and differ;
/// else nothing happens.
pub open spec fn dropped_buffer(display: Seq<char>, drag: Option<usize>, over: Option<usize>) -> Option<Seq<char>> {
    match (drag, over) {
        (Some(from), Some(to)) => if from != to {
            Some(reorder_spec(display, from as int, to as int))
        } else {
            None
        },
        _ => None,
    }
}

/// Commits a card drag on release: the new buffer to apply, if any.
pub fn layout_drop(display: &str, drag: Option<usize>, over: Option<usize>) -> (r: Option<String>)
    ensures
        match r {
            Some(b) => dropped_buffer(display@, drag, over) == Some(b@),
            None => dropped_buffer(display@, drag, over) is None,
        },
{
    match (drag, over) {
        (Some(from), Some(to)) => if from != to {
            Some(reorder(display, from, to))
        } else {
            None
        },
        _ => None,
    }
}

/// A blueprint as the Widgets dock hands it over: group, name and XML.
pub struct Blueprint {
    pub group: String,
    pub name: String,
    pub xml: String,
}

/// What the widget workbench holds: the blueprint being edited, its buffer and
/// the status line.
pub struct WidgetEditor {
    pub active: Option<(String, String)>,
    pub buffer: String,
    pub status: String,
}

/// Honours an "edit this widget" request: the blueprint becomes the active
/// widget, its XML the buffer, the status is cleared, and the request is
/// consumed; without a request nothing changes.
pub fn take_edit_request(ed: &mut WidgetEditor, req: &mut Option<Blueprint>)
    ensures
        *final(req) is None,
        match *old(req) {
            Some(bp) => {
                &&& final(ed).active matches Some((g, n)) && g@ == bp.group@ && n@ == bp.name@
                &&& final(ed).buffer@ == bp.xml@
                &&& final(ed).status@ == Seq::<char>::empty()
            },
            None => *final(ed) == *old(ed),
        },
{
    let taken = req.take();
    match taken {
        Some(bp) => {
            let g = String::from_str(bp.group.as_str());
            let n = String::from_str(bp.name.as_str());
            ed.active = Some((g, n));
            ed.buffer = String::from_str(bp.xml.as_str());
            ed.status = String::new();
        },
        None => {},
    }
}

} // verus!
