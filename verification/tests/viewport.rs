use mor_website_ui::viewport::{
    apply_preview_viewport, clamp_preview_width, is_landscape, rotate_preview_width,
    PreviewViewport,
};

#[test]
fn rotate_and_orientation_agree() {
    for vp in [
        PreviewViewport::Tablet,
        PreviewViewport::Phone,
        PreviewViewport::Custom,
    ] {
        let portrait = vp.width().unwrap_or(390);
        let landscape = rotate_preview_width(vp, portrait);
        assert!(!is_landscape(vp, portrait), "{vp:?} start should be portrait");
        assert!(is_landscape(vp, landscape), "{vp:?} rotated should be landscape");
        assert_eq!(rotate_preview_width(vp, landscape), portrait, "{vp:?} rotates back");
    }
    assert!(!is_landscape(PreviewViewport::Desktop, 1200));
}

#[test]
fn labels_and_widths_of_presets() {
    assert_eq!(PreviewViewport::Desktop.label(), "Desktop");
    assert_eq!(PreviewViewport::Custom.label(), "Custom");
    assert_eq!(PreviewViewport::Laptop.width(), Some(1024));
    assert_eq!(PreviewViewport::Fit.width(), Some(1200));
    assert_eq!(PreviewViewport::Custom.width(), None);
    assert!(PreviewViewport::Phone.is_rotatable());
    assert!(!PreviewViewport::Fit.is_rotatable());
}

#[test]
fn custom_width_is_clamped() {
    assert_eq!(clamp_preview_width(0), 240);
    assert_eq!(clamp_preview_width(239), 240);
    assert_eq!(clamp_preview_width(240), 240);
    assert_eq!(clamp_preview_width(1000), 1000);
    assert_eq!(clamp_preview_width(2400), 2400);
    assert_eq!(clamp_preview_width(u32::MAX), 2400);
}

#[test]
fn selecting_a_preset_sets_its_width() {
    let mut w = 777;
    apply_preview_viewport(PreviewViewport::Tablet, &mut w);
    assert_eq!(w, 768);
    apply_preview_viewport(PreviewViewport::Custom, &mut w);
    assert_eq!(w, 768);
}

#[test]
fn rotation_flips_orientation_at_any_width() {
    for vp in [PreviewViewport::Tablet, PreviewViewport::Phone, PreviewViewport::Custom] {
        for w in [0u32, 500, 600, 601, 700, 701, 900, 901, 5000] {
            assert_eq!(is_landscape(vp, rotate_preview_width(vp, w)), !is_landscape(vp, w));
        }
    }
    assert_eq!(rotate_preview_width(PreviewViewport::Tablet, 900), 1024);
    assert_eq!(rotate_preview_width(PreviewViewport::Tablet, 901), 768);
    assert_eq!(rotate_preview_width(PreviewViewport::Desktop, 1234), 1234);
    assert!(!is_landscape(PreviewViewport::Fit, 9999));
}
