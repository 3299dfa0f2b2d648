use mor_website_ui::workbench::{
    display_buffer, fallback_manifest_id, layout_drop, merge_blueprint, module_key_to_category,
    socket_gadget, socket_move, socket_remove, socket_reorder, take_edit_request, Blueprint,
    WidgetEditor,
};

fn list(v: &[&str]) -> Vec<String> {
    v.iter().map(|s| s.to_string()).collect()
}

#[test]
fn module_keys_map_to_categories() {
    assert_eq!(module_key_to_category("header_variant"), "headers");
    assert_eq!(module_key_to_category("main_variant"), "layouts");
    assert_eq!(module_key_to_category("content_variant"), "content");
    assert_eq!(module_key_to_category("left_sidebar_variant"), "sidebars");
    assert_eq!(module_key_to_category("right_sidebar_variant"), "sidebars");
    assert_eq!(module_key_to_category("footer_variant"), "footers");
    assert_eq!(module_key_to_category("anything"), "custom");
}

#[test]
fn missing_manifests_fall_back_per_type() {
    assert_eq!(fallback_manifest_id("header"), "mor");
    assert_eq!(fallback_manifest_id("layout"), "sidebars");
    assert_eq!(fallback_manifest_id("content"), "blog_standard");
    assert_eq!(fallback_manifest_id("sidebar_left"), "blogger_left");
    assert_eq!(fallback_manifest_id("sidebar_right"), "toc_right");
    assert_eq!(fallback_manifest_id("footer"), "mega");
    assert_eq!(fallback_manifest_id("other"), "");
}

#[test]
fn gadget_replaces_blank_buffer_and_appends_otherwise() {
    assert_eq!(merge_blueprint("  \n", "<b:widget/>"), "<b:widget/>");
    assert_eq!(merge_blueprint("<a/>", "<b:widget/>"), "<a/>\n<b:widget/>");
}

#[test]
fn nudging_swaps_neighbours_within_bounds() {
    let mut v = list(&["a", "b", "c"]);
    socket_move(&mut v, 0, 1);
    assert_eq!(v, list(&["b", "a", "c"]));
    socket_move(&mut v, 1, -1);
    assert_eq!(v, list(&["a", "b", "c"]));
    socket_move(&mut v, 0, -1);
    assert_eq!(v, list(&["a", "b", "c"]));
    socket_move(&mut v, 2, 1);
    assert_eq!(v, list(&["a", "b", "c"]));
}

#[test]
fn dragging_moves_one_widget() {
    let mut v = list(&["a", "b", "c", "d"]);
    socket_reorder(&mut v, 0, 2);
    assert_eq!(v, list(&["b", "c", "a", "d"]));
    socket_reorder(&mut v, 3, 0);
    assert_eq!(v, list(&["d", "b", "c", "a"]));
    socket_reorder(&mut v, 1, 1);
    socket_reorder(&mut v, 9, 0);
    assert_eq!(v, list(&["d", "b", "c", "a"]));
}

#[test]
fn display_falls_back_to_module_xml_while_unedited() {
    assert_eq!(display_buffer("", "<b:widget/>"), "<b:widget/>");
    assert_eq!(display_buffer(" ", "<b:widget/>"), " ");
    assert_eq!(display_buffer("<x/>", "<b:widget/>"), "<x/>");
}

#[test]
fn removing_a_socket_widget_drops_every_copy() {
    let mut v = list(&["A", "B", "A", "C"]);
    socket_remove(&mut v, "A");
    assert_eq!(v, list(&["B", "C"]));
    socket_remove(&mut v, "Z");
    assert_eq!(v, list(&["B", "C"]));
}

#[test]
fn gadgets_routed_to_a_socket_take_id_and_title() {
    let xml = "<b:widget id='HTML9' type='HTML' title='Hello'>x</b:widget>";
    assert_eq!(socket_gadget(xml, "html"), Some(("HTML9".to_string(), Some("Hello".to_string()))));
    let xml = "<b:widget type='HTML' title='  '>x</b:widget>";
    assert_eq!(socket_gadget(xml, "html"), Some(("html".to_string(), None)));
    assert_eq!(socket_gadget("<div/>", "html"), None);
}

#[test]
fn nudging_an_absent_index_outside_the_list_changes_nothing() {
    let mut v = list(&["A", "B"]);
    socket_move(&mut v, 5, 1);
    assert_eq!(v, list(&["A", "B"]));
}

#[test]
fn a_card_drop_reorders_only_between_distinct_places() {
    let xml = "<b:widget id='A'>a</b:widget>\n<b:widget id='B'>b</b:widget>";
    assert_eq!(
        layout_drop(xml, Some(0), Some(1)),
        Some("<b:widget id='B'>b</b:widget>\n<b:widget id='A'>a</b:widget>".to_string())
    );
    assert_eq!(layout_drop(xml, Some(1), Some(1)), None);
    assert_eq!(layout_drop(xml, None, Some(1)), None);
}

#[test]
fn an_edit_request_loads_the_blueprint_once() {
    let mut ed = WidgetEditor { active: None, buffer: "old".to_string(), status: "Saved".to_string() };
    let mut req = Some(Blueprint { group: "g".to_string(), name: "n".to_string(), xml: "<x/>".to_string() });
    take_edit_request(&mut ed, &mut req);
    assert!(req.is_none());
    assert_eq!(ed.active, Some(("g".to_string(), "n".to_string())));
    assert_eq!(ed.buffer, "<x/>");
    assert_eq!(ed.status, "");
    take_edit_request(&mut ed, &mut req);
    assert_eq!(ed.buffer, "<x/>");
}

#[test]
fn a_wrapped_index_nudges_nothing_here() {
    let mut v = list(&["A", "B"]);
    socket_move(&mut v, (1usize << 33) + 5, 0);
    assert_eq!(v, list(&["A", "B"]));
}
