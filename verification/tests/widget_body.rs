use mor_website_ui::widget_body::{bell_preview_html, extract_widget_body, BELL_PANEL};

#[test]
fn html_widget_body_is_extracted_and_static() {
    let xml = "<b:widget id='HTML1' type='HTML'><b:includable id='main'><![CDATA[<div class='x'>hi</div>]]></b:includable></b:widget>";
    let (body, dynamic) = extract_widget_body(xml);
    assert!(body.contains("<div class='x'>hi</div>"));
    assert!(!dynamic);
}

#[test]
fn dynamic_widget_has_no_static_body() {
    let xml = "<b:widget id='Blog1' type='Blog'><b:includable id='main'><b:loop values='data:posts'>x</b:loop></b:includable></b:widget>";
    let (body, dynamic) = extract_widget_body(xml);
    assert!(body.trim().is_empty());
    assert!(dynamic);
}

#[test]
fn cdata_with_blogger_tags_flags_dynamic() {
    let xml = "<b:widget><b:includable id='main'><![CDATA[<data:title/>]]></b:includable></b:widget>";
    let (_b, dynamic) = extract_widget_body(xml);
    assert!(dynamic);
}

#[test]
fn every_cdata_section_is_collected_in_order() {
    let xml = "<![CDATA[one]]>mid<![CDATA[two]]><![CDATA[open";
    let (body, dynamic) = extract_widget_body(xml);
    assert_eq!(body, "one\ntwo\n");
    assert!(!dynamic);
}

#[test]
fn expr_attribute_flags_dynamic() {
    let (_b, dynamic) = extract_widget_body("<![CDATA[<a expr:href='x'>]]>");
    assert!(dynamic);
}

#[test]
fn blank_cdata_counts_as_dynamic() {
    let (body, dynamic) = extract_widget_body("<![CDATA[   ]]>");
    assert_eq!(body, "");
    assert!(dynamic);
}

#[test]
fn bell_preview_reuses_blueprint_styles() {
    let xml = "<b:widget><style>.mor-bell{color:red}</style><div class='mor-bell'></div><style>.x{}</style></b:widget>";
    let html = bell_preview_html(xml).unwrap();
    assert_eq!(html, format!("<style>.mor-bell{{color:red}}\n.x{{}}\n{BELL_PANEL}"));
    assert!(html.contains("<div class=\"mor-bell open\">"));
}

#[test]
fn other_blueprints_have_no_bell_preview() {
    assert_eq!(bell_preview_html("<b:widget type='HTML'></b:widget>"), None);
}
