use mor_website_ui::static_pages::{community_pages, inject_static_page, CommunityPage, FeedEntry, MOCK_FEED_SCRIPT};

fn parse(body: &str) -> Vec<CommunityPage> {
    let root: serde_json::Value = serde_json::from_str(body).unwrap();
    let entries: Vec<FeedEntry> = match root["feed"].get("entry").and_then(|e| e.as_array()) {
        Some(list) => list
            .iter()
            .map(|e| FeedEntry {
                title: e["title"]["$t"].as_str().unwrap().to_string(),
                content: e.get("content").map(|c| c["$t"].as_str().unwrap().to_string()),
            })
            .collect(),
        None => Vec::new(),
    };
    community_pages(&entries)
}

#[test]
fn empty_feed_has_no_entry_key() {
    assert!(parse(r#"{"feed":{}}"#).is_empty());
}

#[test]
fn inject_bakes_page_into_canvas_content() {
    let base = "<html><head></head><body><main class=\"canvas-core\"><div class=\"canvas-content\">OLD</div><footer class=\"mor-footer\">f</footer></main></body></html>";
    let out = inject_static_page(base, "<p>HELLO</p>");
    assert!(out.contains("<p>HELLO</p>"), "static html must be embedded");
    assert!(!out.contains("OLD"), "base content must be replaced");
    assert!(!out.contains("<template"), "no client-side template injection");
    let content_pos = out.find("<p>HELLO</p>").unwrap();
    let footer_pos = out.find("<footer class=\"mor-footer\"").unwrap();
    assert!(content_pos < footer_pos, "page must be inside canvas-content");
}

#[test]
fn inject_returns_base_when_no_canvas_content() {
    let out = inject_static_page("<html><head></head><body></body></html>", "<p>X</p>");
    assert!(!out.contains("<p>X</p>"));
}

#[test]
fn populated_feed_maps_title_and_html() {
    let body = r#"{"feed":{"entry":[
        {"title":{"$t":"Gallery"},"content":{"$t":"<div>art</div>"}},
        {"title":{"$t":"NoBody"}}
    ]}}"#;
    let pages = parse(body);
    assert_eq!(pages.len(), 1);
    assert_eq!(pages[0].title, "Gallery");
    assert_eq!(pages[0].html, "<div>art</div>");
}

#[test]
fn injected_page_has_mock_script_and_exact_layout() {
    let base = "<head></head><div class=\"canvas-content\">A</div>B</div><footer class=\"mor-footer\">";
    let out = inject_static_page(base, "P");
    let expect = format!(
        "<head>\n{MOCK_FEED_SCRIPT}</head><div class=\"canvas-content\">\nP\n</div><footer class=\"mor-footer\">"
    );
    assert_eq!(out, expect);
}

#[test]
fn without_a_closing_div_the_base_is_kept() {
    let base = "<div class=\"canvas-content\">no close<footer class=\"mor-footer\">";
    assert_eq!(inject_static_page(base, "P"), base);
}

#[test]
fn every_head_gets_the_script() {
    let out = inject_static_page("<head><head>", "P");
    assert_eq!(out, format!("<head>\n{MOCK_FEED_SCRIPT}<head>\n{MOCK_FEED_SCRIPT}"));
}

#[test]
fn a_footer_before_the_content_area_leaves_the_page_alone() {
    let base = r#"<footer class="mor-footer"></footer><div class="canvas-content"></div>"#;
    assert_eq!(inject_static_page(base, "<p>X</p>"), base);
}
