use mor_website_ui::widget_layout::{group_fields, Part};

fn field(name: &str, path: Option<&str>) -> Part {
    Part::Field { name: name.to_string(), path: path.map(|p| p.to_string()) }
}

fn all_tokens(parts: &[Part]) -> Vec<String> {
    let mut v: Vec<String> = group_fields(parts).into_iter().flat_map(|g| g.tokens).collect();
    v.sort();
    v
}

#[test]
fn grouping_keeps_every_field_once() {
    let parts = vec![
        field("A", Some("footer.columns.0.heading")),
        Part::Section { id: "s".to_string() },
        field("B", Some("footer.columns.0.links.0.label")),
        field("C", None),
        field("B", Some("footer.columns.0.links.0.label")),
        field("D", Some("  ")),
        field("E", Some("header..title")),
    ];
    assert_eq!(all_tokens(&parts), vec!["A", "B", "B", "C", "D", "E"]);
}

#[test]
fn a_path_of_only_dots_hides_its_token() {
    let parts = vec![field("A", Some(".")), field("B", Some("x"))];
    assert_eq!(all_tokens(&parts), vec!["B"]);
}
