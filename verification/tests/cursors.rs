use mor_website_ui::cursors::{build_pack, cursor_pack, svg_cursor};

fn reference_cursor(svg_body: &str, hx: u8, hy: u8, fallback: &str) -> String {
    let svg = format!(
        "<svg xmlns='http://www.w3.org/2000/svg' width='24' height='24' viewBox='0 0 24 24'>{svg_body}</svg>"
    );
    let encoded = svg.replace('#', "%23").replace('"', "'");
    format!("url(\"data:image/svg+xml,{encoded}\") {hx} {hy}, {fallback}")
}

#[test]
fn cursor_value_encodes_the_drawing() {
    assert_eq!(
        svg_cursor("<path fill=\"#fff\"/>", 12, 3, "auto"),
        "url(\"data:image/svg+xml,<svg xmlns='http://www.w3.org/2000/svg' width='24' height='24' viewBox='0 0 24 24'><path fill='%23fff'/></svg>\") 12 3, auto"
    );
    assert_eq!(svg_cursor("x", 255, 0, "text"), reference_cursor("x", 255, 0, "text"));
}

#[test]
fn named_packs_use_their_colours() {
    let amber = cursor_pack("Bibata Amber").unwrap();
    assert_eq!(amber, build_pack("#ffb300", "#2a2012"));
    assert!(amber.arrow.ends_with("\") 1 1, auto"));
    assert!(amber.pointer.ends_with("\") 9 2, pointer"));
    assert!(amber.text.ends_with("\") 12 12, text"));
    assert!(amber.wait.ends_with(", wait"));
    assert!(amber.not_allowed.ends_with(", not-allowed"));
    assert!(amber.arrow.contains("fill='%23ffb300' stroke='%232a2012'"));
    let ice = cursor_pack("Bibata Ice").unwrap();
    assert!(ice.help.contains("%23eceff4"));
    assert_eq!(cursor_pack("System Default"), None);
}

#[test]
fn arrow_matches_the_reference_drawing() {
    let p = build_pack("#111", "#222");
    let body = "<path d='M1 1L1 17L5 13L8 19L11 18L8 12L14 12Z' fill='#111' stroke='#222' stroke-width='1'/>";
    assert_eq!(p.arrow, reference_cursor(body, 1, 1, "auto"));
}
