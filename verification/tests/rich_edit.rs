use mor_website_ui::rich_edit::{
    check_image_size, check_image_type, download_image_name, ext_from_url_or_ctype, image_url,
    img_tag, rich_payload, safe_image_name, RichPayload,
};

#[test]
fn extension_prefers_content_type() {
    assert_eq!(ext_from_url_or_ctype("https://x/a.gif", Some("image/PNG")), "png");
    assert_eq!(ext_from_url_or_ctype("https://x/a.png", Some("image/jpeg")), "jpg");
    assert_eq!(ext_from_url_or_ctype("https://x/a.png", Some("image/svg+xml")), "svg");
    assert_eq!(ext_from_url_or_ctype("https://x/a.GIF?v=1.png", Some("text/plain")), "gif");
    assert_eq!(ext_from_url_or_ctype("https://x/a.JPEG", None), "jpg");
    assert_eq!(ext_from_url_or_ctype("https://x/a.webp", None), "webp");
    assert_eq!(ext_from_url_or_ctype("https://x/a", None), "png");
}

#[test]
fn img_tag_escapes_quotes_in_alt() {
    assert_eq!(
        img_tag("/images/a.png", "say \"hi\""),
        "<img src=\"/images/a.png\" alt=\"say &quot;hi&quot;\" style=\"max-width:100%;height:auto\" />"
    );
}

#[test]
fn imported_names_are_made_safe() {
    assert_eq!(safe_image_name("my photo (1).png"), "my_photo__1_.png");
    assert_eq!(safe_image_name("ok-name_2.JPG"), "ok-name_2.JPG");
    assert_eq!(safe_image_name("é.png"), "_.png");
    assert_eq!(safe_image_name(""), "image.png");
}

#[test]
fn download_names_come_from_the_last_segment() {
    assert_eq!(download_image_name("https://x.org/a/b/cat.png?size=2", "png"), "cat_png.png");
    assert_eq!(download_image_name("https://x.org/a/", "jpg"), "image.jpg");
    let long = format!("https://x.org/{}", "a".repeat(60));
    assert_eq!(download_image_name(&long, "gif"), format!("{}.gif", "a".repeat(40)));
}

#[test]
fn only_web_links_are_downloaded() {
    assert_eq!(image_url("  https://x.org/a.png "), Ok("https://x.org/a.png".to_string()));
    assert_eq!(image_url("http://x"), Ok("http://x".to_string()));
    assert_eq!(
        image_url("ftp://x"),
        Err("URL must start with http:// or https://".to_string())
    );
}

#[test]
fn content_types_that_are_not_images_are_refused() {
    assert_eq!(check_image_type("Image/PNG"), Ok(()));
    assert_eq!(check_image_type("application/octet-stream"), Ok(()));
    assert_eq!(check_image_type("text/svg"), Ok(()));
    assert_eq!(
        check_image_type("text/html"),
        Err("URL does not look like an image (Content-Type: text/html)".to_string())
    );
}

#[test]
fn image_sizes_are_bounded() {
    assert_eq!(check_image_size(1), Ok(()));
    assert_eq!(check_image_size(12 * 1024 * 1024), Ok(()));
    assert_eq!(
        check_image_size(12 * 1024 * 1024 + 1),
        Err("Image larger than 12 MB — refuse to import".to_string())
    );
    assert_eq!(check_image_size(0), Err("Empty image body".to_string()));
}

#[test]
fn frame_messages_by_command() {
    assert_eq!(rich_payload("html", Some("<b>x</b>")), RichPayload::Html("<b>x</b>".to_string()));
    assert_eq!(rich_payload("html:drop", Some("y")), RichPayload::Html("y".to_string()));
    assert_eq!(
        rich_payload("bold", Some("1")),
        RichPayload::Command("bold".to_string(), "1".to_string())
    );
    assert_eq!(rich_payload("undo", None), RichPayload::Bare("undo".to_string()));
}
