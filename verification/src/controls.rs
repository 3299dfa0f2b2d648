//! Small mappings behind the theme panels: ad placements, button size presets
//! and the colours of page-map edges.
use crate::text::{chars_eq, chars_of};
use vstd::prelude::*;

verus! {

/// `a` reads exactly `b`.
fn same_text(a: &str, b: &str) -> (r: bool)
    ensures
        r == (a@ == b@),
{
    let x = chars_of(a);
    let y = chars_of(b);
    chars_eq(&x, &y)
}

// ───────────────────────── ad placements ─────────────────────────

/// Where an ad slot is shown.
#[derive(Clone, Copy, Debug, PartialEq, Eq, Structural)]
pub enum AdSlotPlacement {
    Sidebar,
    BetweenPosts,
    Both,
}

/// The form value of a placement.
pub open spec fn placement_text(p: AdSlotPlacement) -> Seq<char> {
    match p {
        AdSlotPlacement::Sidebar => "sidebar"@,
        AdSlotPlacement::BetweenPosts => "between"@,
        AdSlotPlacement::Both => "both"@,
    }
}

/// The placement a form value selects; anything unknown selects the sidebar.
pub open spec fn placement_of(v: Seq<char>) -> AdSlotPlacement {
    if v == "between"@ {
        AdSlotPlacement::BetweenPosts
    } else if v == "both"@ {
        AdSlotPlacement::Both
    } else {
        AdSlotPlacement::Sidebar
    }
}

/// The form value of a placement.
pub fn placement_value(p: AdSlotPlacement) -> (r: &'static str)
    ensures
        r@ == placement_text(p),
{
    match p {
        AdSlotPlacement::Sidebar => "sidebar",
        AdSlotPlacement::BetweenPosts => "between",
        AdSlotPlacement::Both => "both",
    }
}

/// The placement a form value selects.
pub fn placement_from_value(v: &str) -> (r: AdSlotPlacement)
    ensures
        r == placement_of(v@),
{
    if same_text(v, "between") {
        AdSlotPlacement::BetweenPosts
    } else if same_text(v, "both") {
        AdSlotPlacement::Both
    } else {
        AdSlotPlacement::Sidebar
    }
}

/// Reading back the form value of a placement gives the same placement.
pub proof fn law_placement_round_trip(p: AdSlotPlacement)
    ensures
        placement_of(placement_text(p)) == p,
{
    reveal_strlit("sidebar");
    reveal_strlit("between");
    reveal_strlit("both");
    assert("sidebar"@[0] != "between"@[0]);
    assert("sidebar"@.len() != "both"@.len());
    assert("both"@.len() != "between"@.len());
}

// ───────────────────────── button sizes ─────────────────────────

/// The parts of a button style that the size presets set.
#[derive(Clone, Debug, PartialEq)]
pub struct ButtonMetrics {
    pub padding_x: String,
    pub padding_y: String,
    pub font_size: String,
}

/// Padding and font size of a size preset: `sm`, `lg`, and `md` for anything else.
pub open spec fn size_preset(size: Seq<char>) -> (Seq<char>, Seq<char>, Seq<char>) {
    if size == "sm"@ {
        ("10px"@, "3px"@, "0.8rem"@)
    } else if size == "lg"@ {
        ("20px"@, "10px"@, "1.05rem"@)
    } else {
        ("14px"@, "6px"@, ""@)
    }
}

/// The preset a padding pair belongs to; any other padding reads as `md`.
pub open spec fn size_of_padding(px: Seq<char>, py: Seq<char>) -> Seq<char> {
    if px == "10px"@ && py == "3px"@ {
        "sm"@
    } else if px == "20px"@ && py == "10px"@ {
        "lg"@
    } else {
        "md"@
    }
}

/// Sets the padding and font size of a size preset.
pub fn apply_size(b: &mut ButtonMetrics, size: &str)
    ensures
        (final(b).padding_x@, final(b).padding_y@, final(b).font_size@) == size_preset(size@),
{
    let (px, py, fs) = if same_text(size, "sm") {
        ("10px", "3px", "0.8rem")
    } else if same_text(size, "lg") {
        ("20px", "10px", "1.05rem")
    } else {
        ("14px", "6px", "")
    };
    b.padding_x = String::from_str(px);
    b.padding_y = String::from_str(py);
    b.font_size = String::from_str(fs);
}

/// The size preset a button's padding corresponds to.
pub fn current_size(b: &ButtonMetrics) -> (r: &'static str)
    ensures
        r@ == size_of_padding(b.padding_x@, b.padding_y@),
{
    if same_text(b.padding_x.as_str(), "10px") && same_text(b.padding_y.as_str(), "3px") {
        "sm"
    } else if same_text(b.padding_x.as_str(), "20px") && same_text(b.padding_y.as_str(), "10px") {
        "lg"
    } else {
        "md"
    }
}

/// After a preset is applied the button reads as that preset (`md` for any
/// name other than `sm` and `lg`).
pub proof fn law_size_round_trip(size: Seq<char>)
    ensures
        ({
            let (px, py, fs) = size_preset(size);
            size_of_padding(px, py) == if size == "sm"@ || size == "lg"@ {
                size
            } else {
                "md"@
            }
        }),
{
    reveal_strlit("10px");
    reveal_strlit("3px");
    reveal_strlit("20px");
    reveal_strlit("14px");
    reveal_strlit("6px");
    reveal_strlit("sm");
    reveal_strlit("lg");
    assert("sm"@[0] != "lg"@[0]);
    assert("14px"@[1] != "10px"@[1]);
    assert("14px"@[0] != "20px"@[0]);
    assert("10px"@[0] != "20px"@[0]);
}

// ───────────────────────── page map ─────────────────────────

/// Stroke colour of a page-map edge by how the asset is linked.
pub open spec fn stroke_of(via: Seq<char>) -> Seq<char> {
    if via == "stylesheet"@ || via == "extraCss"@ {
        "#2d5a45"@
    } else if via == "script"@ || via == "extraScripts"@ {
        "#5a4a20"@
    } else {
        "#3a3a3a"@
    }
}

/// Stroke colour of a page-map edge: green for stylesheets, amber for scripts,
/// grey otherwise.
pub fn edge_stroke(via: &str) -> (r: &'static str)
    ensures
        r@ == stroke_of(via@),
{
    if same_text(via, "stylesheet") || same_text(via, "extraCss") {
        "#2d5a45"
    } else if same_text(via, "script") || same_text(via, "extraScripts") {
        "#5a4a20"
    } else {
        "#3a3a3a"
    }
}

} // verus!
