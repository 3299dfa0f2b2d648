use mor_website_ui::widget_layout::{
    group_fields, parse_fields, parse_parts, parse_slots, remove, reorder, set_field,
    set_visible, set_widget_title, Part,
};

const A: &str = "<b:widget id='A1' type='HTML' title='Alpha' visible='true'>aa</b:widget>";
const B: &str = "<b:widget id='B1' type='Blog' title='Beta' visible='false'>bb</b:widget>";

fn doc() -> String {
    format!("<section>\n{A}\n{B}\n</section>")
}

#[test]
fn parses_attrs_and_visibility() {
    let s = parse_slots(&doc());
    assert_eq!(s.len(), 2);
    assert_eq!(s[0].id, "A1");
    assert_eq!(s[0].w_type, "HTML");
    assert!(s[0].visible);
    assert!(!s[1].visible);
}

#[test]
fn reorder_swaps_blocks_keeps_wrapper() {
    let out = reorder(&doc(), 0, 1);
    let s = parse_slots(&out);
    assert_eq!(s[0].id, "B1");
    assert_eq!(s[1].id, "A1");
    assert!(out.starts_with("<section>"));
    assert!(out.trim_end().ends_with("</section>"));
}

#[test]
fn toggle_visibility_flips_attr() {
    let out = set_visible(&doc(), 0, false);
    assert!(parse_slots(&out)[0].visible == false);
}

#[test]
fn parses_and_rewrites_marked_fields() {
    let xml = "<b:widget id='W1' type='Wikipedia' title='Wiki'><a href='https://wikipedia.org/wiki/' data-mor-field='href|Wiki base URL'>x</a></b:widget>";
    let fields = parse_fields(xml);
    assert_eq!(fields.len(), 1);
    assert_eq!(fields[0].label, "Wiki base URL");
    assert_eq!(fields[0].value, "https://wikipedia.org/wiki/");

    let out = set_field(xml, 0, "https://de.wikipedia.org/wiki/");
    assert!(out.contains("href='https://de.wikipedia.org/wiki/'"));
    assert!(out.contains("data-mor-field='href|Wiki base URL'"));
}

#[test]
fn parses_and_rewrites_text_enum_field() {
    let xml = "<b:widget-settings><b:widget-setting name='displayMode' data-mor-field='text|Display mode|VERTICAL,HORIZONTAL,SIMPLE'>VERTICAL</b:widget-setting></b:widget-settings>";
    let fields = parse_fields(xml);
    assert_eq!(fields.len(), 1);
    assert_eq!(fields[0].label, "Display mode");
    assert_eq!(fields[0].value, "VERTICAL");
    assert_eq!(fields[0].options, vec!["VERTICAL", "HORIZONTAL", "SIMPLE"]);

    let out = set_field(xml, 0, "HORIZONTAL");
    assert!(out.contains(">HORIZONTAL</b:widget-setting>"));
    assert!(!out.contains(">VERTICAL<"));
}

#[test]
fn set_widget_title_rewrites_attr() {
    let xml = "<b:widget id='W1' type='HTML' title='Old'></b:widget>";
    let out = set_widget_title(xml, "New & Shiny");
    assert!(out.contains("title='New &amp; Shiny'"));
}

#[test]
fn remove_drops_one_block() {
    let out = remove(&doc(), 0);
    let s = parse_slots(&out);
    assert_eq!(s.len(), 1);
    assert_eq!(s[0].id, "B1");
}

#[test]
fn parse_parts_surfaces_section_and_socket() {
    let sidebar = "<aside><b:section id='sidebar-left' showaddelement='yes'>{{SOCKET_SIDEBAR_LEFT}}</b:section></aside>";
    let parts = parse_parts(sidebar);
    assert_eq!(parts.len(), 2);
    assert!(matches!(&parts[0], Part::Section { id } if id == "sidebar-left"));
    assert!(matches!(&parts[1], Part::Socket { key, .. } if key == "sidebar-left"));
}

#[test]
fn parse_parts_classifies_modules_and_fields() {
    let layout = "{{LAYOUT_BLOCKS}}<b:section id='m'>{{MAIN_CONTENT_MODULE}}</b:section>{{LEFT_PANEL_TITLE}}";
    let parts = parse_parts(layout);
    assert!(matches!(&parts[0], Part::ModuleRef { name } if name == "LAYOUT_BLOCKS"));
    assert!(matches!(&parts[1], Part::Section { .. }));
    assert!(matches!(&parts[2], Part::ModuleRef { name } if name == "MAIN_CONTENT_MODULE"));
    assert!(matches!(&parts[3], Part::Field { name, .. } if name == "LEFT_PANEL_TITLE"));
}

#[test]
fn fields_capture_data_field_path() {
    let xml = "<h4 data-field-path='footer.columns.0.heading'>{{COL_H}}</h4>\
               <a href='{{L_URL}}' data-field-path='footer.columns.0.links.0.label'>{{L_LABEL}}</a>\
               {{NO_PATH}}";
    let parts = parse_parts(xml);
    let paths: Vec<Option<&str>> = parts
        .iter()
        .filter_map(|p| match p {
            Part::Field { path, .. } => Some(path.as_deref()),
            _ => None,
        })
        .collect();
    assert_eq!(paths[0], Some("footer.columns.0.heading"));
    assert_eq!(paths[1], Some("footer.columns.0.links.0.label"));
    assert_eq!(paths[2], Some("footer.columns.0.links.0.label"));
    assert_eq!(paths[3], None);
}

#[test]
fn group_fields_builds_indented_tree() {
    let xml = "<h4 data-field-path='footer.columns.0.heading'>{{COL_H}}</h4>\
               <a href='{{L_URL}}' data-field-path='footer.columns.0.links.0.label'>{{L_LABEL}}</a>\
               {{NO_PATH}}";
    let g = group_fields(&parse_parts(xml));
    let labels: Vec<&str> = g.iter().map(|n| n.label.as_str()).collect();
    assert_eq!(labels[0], "Footer");
    assert!(labels.contains(&"Columns"));
    assert!(labels.contains(&"1"));
    assert!(labels.contains(&"Heading"));
    assert!(labels.contains(&"Links"));
    let leaf = g.iter().find(|n| n.tokens.iter().any(|t| t == "L_LABEL")).unwrap();
    assert!(leaf.tokens.contains(&"L_URL".to_string()));
    assert!(g.iter().any(|n| n.label.is_empty() && n.tokens == vec!["NO_PATH".to_string()]));
    assert!(g.iter().all(|n| n.depth <= 5));
}

#[test]
fn widget_settings_prefix_is_not_mistaken_for_a_widget() {
    let xml = "<b:widget id='Blog1' type='Blog'><b:widget-settings><b:widget-setting name='x'>1</b:widget-setting></b:widget-settings></b:widget>";
    let s = parse_slots(xml);
    assert_eq!(s.len(), 1);
    assert_eq!(s[0].id, "Blog1");
    let p = parse_parts(xml);
    assert_eq!(p.len(), 1);
    assert!(matches!(&p[0], Part::Widget { id, .. } if id == "Blog1"));
}

#[test]
fn unmatched_open_brace_does_not_panic() {
    assert_eq!(parse_parts("text {{").len(), 0);
    assert_eq!(parse_parts("{{").len(), 0);
}

#[test]
fn parse_parts_skips_tokens_inside_widgets_and_tracks_slot() {
    let xml = "<b:widget id='Blog1' type='Blog' title='{{BLOG_WIDGET_TITLE}}'>x</b:widget>{{FOOTER_MODULE}}";
    let parts = parse_parts(xml);
    assert_eq!(parts.len(), 2);
    assert!(matches!(&parts[0], Part::Widget { slot: 0, id, .. } if id == "Blog1"));
    assert!(matches!(&parts[1], Part::ModuleRef { name } if name == "FOOTER_MODULE"));
}

#[test]
fn socket_keys_use_dashes() {
    assert_eq!(mor_website_ui::widget_layout::socket_key("sidebar_left"), "sidebar-left");
    assert_eq!(mor_website_ui::widget_layout::socket_key("main"), "main");
    let parts = parse_parts("{{SOCKET_Footer_Links}}");
    assert!(matches!(&parts[0], Part::Socket { name, key } if name == "Footer_Links" && key == "footer-links"));
}
