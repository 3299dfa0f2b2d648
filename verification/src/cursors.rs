//! Themed cursor packs: cursors drawn as inline SVG data URIs.
use crate::text::{chars_of, push_replacing, replace_char};
use crate::widget_layout::groups::{decimal, push_decimal};
use vstd::prelude::*;

verus! {

/// The SVG document around a cursor drawing (24 px, as browsers cap cursor images).
pub open spec fn svg_document(body: Seq<char>) -> Seq<char> {
    "<svg xmlns='http://www.w3.org/2000/svg' width='24' height='24' viewBox='0 0 24 24'>"@ + body
        + "</svg>"@
}

/// A `cursor` value: the drawing as a data URI (`#` encoded, double quotes
/// made single), the hotspot, then the fallback keyword.
pub open spec fn cursor_css(body: Seq<char>, hx: u8, hy: u8, fallback: Seq<char>) -> Seq<char> {
    "url(\"data:image/svg+xml,"@ + replace_char(
        replace_char(svg_document(body), '#', "%23"@),
        '"',
        "'"@,
    ) + "\") "@ + decimal(hx as nat) + " "@ + decimal(hy as nat) + ", "@ + fallback
}

/// Builds a `cursor: url(...)` value from an inline SVG drawing.
pub fn svg_cursor(svg_body: &str, hx: u8, hy: u8, fallback: &str) -> (r: String)
    ensures
        r@ == cursor_css(svg_body@, hx, hy, fallback@),
{
    let mut svg = String::from_str("<svg xmlns='http://www.w3.org/2000/svg' width='24' height='24' viewBox='0 0 24 24'>");
    svg.append(svg_body);
    svg.append("</svg>");
    let raw = chars_of(svg.as_str());
    let mut step = String::new();
    let pct = chars_of("%23");
    push_replacing(&mut step, &raw, '#', &pct);
    let step = chars_of(step.as_str());
    let mut out = String::from_str("url(\"data:image/svg+xml,");
    let single = chars_of("'");
    push_replacing(&mut out, &step, '"', &single);
    out.append("\") ");
    push_decimal(&mut out, hx as usize);
    out.append(" ");
    push_decimal(&mut out, hy as usize);
    out.append(", ");
    out.append(fallback);
    assert(Seq::<char>::empty() + replace_char(raw@, '#', "%23"@) == replace_char(raw@, '#', "%23"@));
    out
}

/// The SVG drawing of the arrow cursor in the given colours.
pub open spec fn arrow_svg(fill: Seq<char>, stroke: Seq<char>) -> Seq<char> {
    "<path d='M1 1L1 17L5 13L8 19L11 18L8 12L14 12Z' fill='"@ + fill + "' stroke='"@ + stroke + "' stroke-width='1'/>"@
}

/// The SVG drawing of the pointer cursor in the given colours.
pub open spec fn hand_svg(fill: Seq<char>, stroke: Seq<char>) -> Seq<char> {
    "<path d='M9 2.2c-.7 0-1.3.6-1.3 1.3v6.5H6.9c-.6 0-1.1.3-1.4.8-.3.5-.2 1.1.1 1.6l2.2 3.1c.5.7 1.3 1.1 2.1 1.1h3.4c1 0 1.9-.7 2.1-1.7l.7-3.2c.2-.9-.3-1.8-1.2-2-.2 0-.3-.1-.5-.1h-2.8V3.5c0-.7-.6-1.3-1.3-1.3z' fill='"@ + fill + "' stroke='"@ + stroke + "' stroke-width='1'/>"@
}

/// The SVG drawing of the text cursor in the given colours.
pub open spec fn ibeam_svg(fill: Seq<char>, stroke: Seq<char>) -> Seq<char> {
    "<path d='M9 3h6M12 3v18M9 21h6' fill='none' stroke='"@ + fill + "' stroke-width='1.8'/><path d='M12 5v14' stroke='"@ + stroke + "' stroke-width='0.6'/>"@
}

/// The SVG drawing of the help cursor in the given colours.
pub open spec fn help_svg(fill: Seq<char>, stroke: Seq<char>) -> Seq<char> {
    "<path d='M1 1L1 15L4.5 11.5L7 16.5L9.5 15.5L7 10.5L12 10.5Z' fill='"@ + fill + "' stroke='"@ + stroke + "' stroke-width='1'/><text x='13' y='14' font-size='13' font-weight='bold' fill='"@ + fill + "' stroke='"@ + stroke + "' stroke-width='0.5'>?</text>"@
}

/// The SVG drawing of the wait cursor in the given colours.
pub open spec fn hourglass_svg(fill: Seq<char>, stroke: Seq<char>) -> Seq<char> {
    "<path d='M6 2h12M6 22h12M7 3c0 6 4 5.5 5 8-1 2.5-5 2-5 8m10-16c0 6-4 5.5-5 8 1 2.5 5 2 5 8' fill='none' stroke='"@ + fill + "' stroke-width='2'/><path d='M9 20c1-2 2-2.5 3-2.5s2 .5 3 2.5z' fill='"@ + fill + "'/>"@
}

/// The SVG drawing of the not allowed cursor in the given colours.
pub open spec fn no_entry_svg(fill: Seq<char>, stroke: Seq<char>) -> Seq<char> {
    "<circle cx='12' cy='12' r='8.5' fill='none' stroke='"@ + fill + "' stroke-width='2.5'/><path d='M6 6L18 18' stroke='"@ + fill + "' stroke-width='2.5'/><circle cx='12' cy='12' r='10' fill='none' stroke='"@ + stroke + "' stroke-width='0.8'/>"@
}

fn arrow_body(fill: &str, stroke: &str) -> (r: String)
    ensures
        r@ == arrow_svg(fill@, stroke@),
{
    let mut s = String::from_str("<path d='M1 1L1 17L5 13L8 19L11 18L8 12L14 12Z' fill='");
    s.append(fill);
    s.append("' stroke='");
    s.append(stroke);
    s.append("' stroke-width='1'/>");
    s
}

fn hand_body(fill: &str, stroke: &str) -> (r: String)
    ensures
        r@ == hand_svg(fill@, stroke@),
{
    let mut s = String::from_str("<path d='M9 2.2c-.7 0-1.3.6-1.3 1.3v6.5H6.9c-.6 0-1.1.3-1.4.8-.3.5-.2 1.1.1 1.6l2.2 3.1c.5.7 1.3 1.1 2.1 1.1h3.4c1 0 1.9-.7 2.1-1.7l.7-3.2c.2-.9-.3-1.8-1.2-2-.2 0-.3-.1-.5-.1h-2.8V3.5c0-.7-.6-1.3-1.3-1.3z' fill='");
    s.append(fill);
    s.append("' stroke='");
    s.append(stroke);
    s.append("' stroke-width='1'/>");
    s
}

fn ibeam_body(fill: &str, stroke: &str) -> (r: String)
    ensures
        r@ == ibeam_svg(fill@, stroke@),
{
    let mut s = String::from_str("<path d='M9 3h6M12 3v18M9 21h6' fill='none' stroke='");
    s.append(fill);
    s.append("' stroke-width='1.8'/><path d='M12 5v14' stroke='");
    s.append(stroke);
    s.append("' stroke-width='0.6'/>");
    s
}

fn help_body(fill: &str, stroke: &str) -> (r: String)
    ensures
        r@ == help_svg(fill@, stroke@),
{
    let mut s = String::from_str("<path d='M1 1L1 15L4.5 11.5L7 16.5L9.5 15.5L7 10.5L12 10.5Z' fill='");
    s.append(fill);
    s.append("' stroke='");
    s.append(stroke);
    s.append("' stroke-width='1'/><text x='13' y='14' font-size='13' font-weight='bold' fill='");
    s.append(fill);
    s.append("' stroke='");
    s.append(stroke);
    s.append("' stroke-width='0.5'>?</text>");
    s
}

fn hourglass_body(fill: &str, stroke: &str) -> (r: String)
    ensures
        r@ == hourglass_svg(fill@, stroke@),
{
    let mut s = String::from_str("<path d='M6 2h12M6 22h12M7 3c0 6 4 5.5 5 8-1 2.5-5 2-5 8m10-16c0 6-4 5.5-5 8 1 2.5 5 2 5 8' fill='none' stroke='");
    s.append(fill);
    s.append("' stroke-width='2'/><path d='M9 20c1-2 2-2.5 3-2.5s2 .5 3 2.5z' fill='");
    s.append(fill);
    s.append("'/>");
    s
}

fn no_entry_body(fill: &str, stroke: &str) -> (r: String)
    ensures
        r@ == no_entry_svg(fill@, stroke@),
{
    let mut s = String::from_str("<circle cx='12' cy='12' r='8.5' fill='none' stroke='");
    s.append(fill);
    s.append("' stroke-width='2.5'/><path d='M6 6L18 18' stroke='");
    s.append(fill);
    s.append("' stroke-width='2.5'/><circle cx='12' cy='12' r='10' fill='none' stroke='");
    s.append(stroke);
    s.append("' stroke-width='0.8'/>");
    s
}

/// A themed set of cursors: the default arrow and the hand, I-beam, help,
/// busy and no-entry cursors.
#[derive(Clone, Debug, PartialEq)]
pub struct CursorPack {
    pub arrow: String,
    pub pointer: String,
    pub text: String,
    pub help: String,
    pub wait: String,
    pub not_allowed: String,
}

/// The values of a `CursorPack`.
pub struct PackSpec {
    pub arrow: Seq<char>,
    pub pointer: Seq<char>,
    pub text: Seq<char>,
    pub help: Seq<char>,
    pub wait: Seq<char>,
    pub not_allowed: Seq<char>,
}

impl View for CursorPack {
    type V = PackSpec;

    open spec fn view(&self) -> PackSpec {
        PackSpec {
            arrow: self.arrow@,
            pointer: self.pointer@,
            text: self.text@,
            help: self.help@,
            wait: self.wait@,
            not_allowed: self.not_allowed@,
        }
    }
}

/// The pack drawn in `fill` with a `stroke` outline.
pub open spec fn pack_spec(fill: Seq<char>, stroke: Seq<char>) -> PackSpec {
    PackSpec {
        arrow: cursor_css(arrow_svg(fill, stroke), 1, 1, "auto"@),
        pointer: cursor_css(hand_svg(fill, stroke), 9, 2, "pointer"@),
        text: cursor_css(ibeam_svg(fill, stroke), 12, 12, "text"@),
        help: cursor_css(help_svg(fill, stroke), 1, 1, "help"@),
        wait: cursor_css(hourglass_svg(fill, stroke), 12, 12, "wait"@),
        not_allowed: cursor_css(no_entry_svg(fill, stroke), 12, 12, "not-allowed"@),
    }
}

/// A full themed cursor set in the given colours.
pub fn build_pack(fill: &str, stroke: &str) -> (r: CursorPack)
    ensures
        r@ == pack_spec(fill@, stroke@),
{
    let arrow = svg_cursor(arrow_body(fill, stroke).as_str(), 1, 1, "auto");
    let pointer = svg_cursor(hand_body(fill, stroke).as_str(), 9, 2, "pointer");
    let text = svg_cursor(ibeam_body(fill, stroke).as_str(), 12, 12, "text");
    let help = svg_cursor(help_body(fill, stroke).as_str(), 1, 1, "help");
    let wait = svg_cursor(hourglass_body(fill, stroke).as_str(), 12, 12, "wait");
    let not_allowed = svg_cursor(no_entry_body(fill, stroke).as_str(), 12, 12, "not-allowed");
    CursorPack { arrow, pointer, text, help, wait, not_allowed }
}

/// The colours of a named pack; other names (the system default) have none.
pub open spec fn pack_colours(name: Seq<char>) -> Option<(Seq<char>, Seq<char>)> {
    if name == "Bibata Amber"@ {
        Some(("#ffb300"@, "#2a2012"@))
    } else if name == "Bibata Ice"@ {
        Some(("#eceff4"@, "#4c566a"@))
    } else {
        None
    }
}

/// A named pack; `None` means the system cursors.
pub fn cursor_pack(name: &str) -> (r: Option<CursorPack>)
    ensures
        match (r, pack_colours(name@)) {
            (Some(p), Some((fill, stroke))) => p@ == pack_spec(fill, stroke),
            (None, None) => true,
            _ => false,
        },
{
    let n = chars_of(name);
    let amber = chars_of("Bibata Amber");
    let ice = chars_of("Bibata Ice");
    if crate::text::chars_eq(&n, &amber) {
        Some(build_pack("#ffb300", "#2a2012"))
    } else if crate::text::chars_eq(&n, &ice) {
        Some(build_pack("#eceff4", "#4c566a"))
    } else {
        None
    }
}

} // verus!
