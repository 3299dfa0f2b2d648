use mor_website_ui::typography::{
    is_default_style, primary_display, sample_style, update_element, ElementStyle, StyleEdit,
};

fn style(selector: &str) -> ElementStyle {
    ElementStyle {
        selector: selector.to_string(),
        font_size: String::new(),
        font_weight: String::new(),
        line_height: String::new(),
        letter_spacing: String::new(),
        color: String::new(),
        background: String::new(),
        padding: String::new(),
        border_radius: String::new(),
        text_align: String::new(),
        italic: false,
    }
}

#[test]
fn first_family_is_shown_without_quotes() {
    assert_eq!(primary_display("  'Fira Sans', Arial, sans-serif"), "Fira Sans");
    assert_eq!(primary_display("\"Georgia\""), "Georgia");
    assert_eq!(primary_display("serif"), "serif");
    assert_eq!(primary_display(""), "");
}

#[test]
fn long_family_names_are_cut_at_36_bytes() {
    let long = "A".repeat(40);
    assert_eq!(primary_display(&long), format!("{}…", "A".repeat(36)));
    let exact = "B".repeat(36);
    assert_eq!(primary_display(&exact), exact);
}

#[test]
fn sample_style_without_override() {
    assert_eq!(
        sample_style("Inter", "1em", "", None, ""),
        "font-family: Inter; font-size: 1em;"
    );
    assert_eq!(
        sample_style("Inter", "1.9em", "700", None, "margin: 0;"),
        "font-family: Inter; font-size: 1.9em; font-weight: 700; margin: 0;"
    );
}

#[test]
fn override_wins_per_property() {
    let mut o = style("h1");
    o.font_size = " 2em ".to_string();
    o.color = "red".to_string();
    o.padding = "   ".to_string();
    o.italic = true;
    assert_eq!(
        sample_style("Inter", "1.9em", "600", Some(&o), ""),
        "font-family: Inter; font-size: 2em; font-weight: 600; color: red; font-style: italic;"
    );
}

#[test]
fn edits_create_update_and_drop_overrides() {
    let mut v: Vec<ElementStyle> = Vec::new();
    update_element(&mut v, "h1", StyleEdit::FontSize("2em".to_string()));
    assert_eq!(v.len(), 1);
    assert_eq!(v[0].selector, "h1");
    assert_eq!(v[0].font_size, "2em");

    update_element(&mut v, "h1", StyleEdit::Color("red".to_string()));
    assert_eq!(v.len(), 1);
    assert_eq!(v[0].color, "red");

    update_element(&mut v, "p", StyleEdit::Italic(false));
    assert_eq!(v.len(), 1);

    update_element(&mut v, "h1", StyleEdit::FontSize(" ".to_string()));
    update_element(&mut v, "h1", StyleEdit::Color(String::new()));
    assert!(v.is_empty());
}

#[test]
fn default_style_detection() {
    let mut e = style("p");
    assert!(is_default_style(&e));
    e.text_align = " center".to_string();
    assert!(!is_default_style(&e));
    let mut f = style("p");
    f.italic = true;
    assert!(!is_default_style(&f));
}
