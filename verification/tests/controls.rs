use mor_website_ui::controls::{
    apply_size, current_size, edge_stroke, placement_from_value, placement_value, AdSlotPlacement,
    ButtonMetrics,
};

#[test]
fn placements_round_trip_through_form_values() {
    for p in [AdSlotPlacement::Sidebar, AdSlotPlacement::BetweenPosts, AdSlotPlacement::Both] {
        assert_eq!(placement_from_value(placement_value(p)), p);
    }
    assert_eq!(placement_value(AdSlotPlacement::BetweenPosts), "between");
    assert_eq!(placement_from_value("nonsense"), AdSlotPlacement::Sidebar);
}

#[test]
fn size_presets_round_trip() {
    let mut b = ButtonMetrics {
        padding_x: "1px".to_string(),
        padding_y: "1px".to_string(),
        font_size: "9px".to_string(),
    };
    assert_eq!(current_size(&b), "md");
    apply_size(&mut b, "sm");
    assert_eq!((b.padding_x.as_str(), b.padding_y.as_str(), b.font_size.as_str()), ("10px", "3px", "0.8rem"));
    assert_eq!(current_size(&b), "sm");
    apply_size(&mut b, "lg");
    assert_eq!(current_size(&b), "lg");
    assert_eq!(b.font_size, "1.05rem");
    apply_size(&mut b, "xl");
    assert_eq!((b.padding_x.as_str(), b.padding_y.as_str(), b.font_size.as_str()), ("14px", "6px", ""));
    assert_eq!(current_size(&b), "md");
}

#[test]
fn edges_are_coloured_by_link_kind() {
    assert_eq!(edge_stroke("stylesheet"), "#2d5a45");
    assert_eq!(edge_stroke("extraCss"), "#2d5a45");
    assert_eq!(edge_stroke("script"), "#5a4a20");
    assert_eq!(edge_stroke("extraScripts"), "#5a4a20");
    assert_eq!(edge_stroke("include"), "#3a3a3a");
}
