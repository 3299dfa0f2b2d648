use mor_website_ui::presets::normalize_preset_url;

#[test]
fn github_blob_links_become_raw_links() {
    assert_eq!(
        normalize_preset_url("  https://github.com/owner/repo/blob/main/presets/dark.toml \n"),
        "https://raw.githubusercontent.com/owner/repo/main/presets/dark.toml"
    );
    assert_eq!(
        normalize_preset_url("http://github.com/o/r/blob/dev/a.json"),
        "https://raw.githubusercontent.com/o/r/dev/a.json"
    );
}

#[test]
fn jsdelivr_links_become_raw_links() {
    assert_eq!(
        normalize_preset_url("https://cdn.jsdelivr.net/gh/owner/repo@v2/themes/x.toml"),
        "https://raw.githubusercontent.com/owner/repo/v2/themes/x.toml"
    );
    assert_eq!(
        normalize_preset_url("cdn.jsdelivr.net/gh/owner/repo/x.toml"),
        "https://raw.githubusercontent.com/owner/repo/main/x.toml"
    );
}

#[test]
fn other_links_are_only_trimmed() {
    assert_eq!(normalize_preset_url("  https://example.com/a.toml  "), "https://example.com/a.toml");
    assert_eq!(
        normalize_preset_url("https://github.com/owner/repo/tree/main/x"),
        "https://github.com/owner/repo/tree/main/x"
    );
    assert_eq!(normalize_preset_url("https://github.com/o/blob/x"), "https://github.com/o/blob/x");
    assert_eq!(
        normalize_preset_url("https://cdn.jsdelivr.net/gh/owner/repo"),
        "https://cdn.jsdelivr.net/gh/owner/repo"
    );
    assert_eq!(normalize_preset_url(""), "");
}

#[test]
fn repeated_schemes_are_all_stripped() {
    assert_eq!(
        normalize_preset_url("https://https://github.com/o/r/blob/b/p"),
        "https://raw.githubusercontent.com/o/r/b/p"
    );
}

#[test]
fn normalising_twice_changes_nothing_more() {
    for u in [
        "  https://github.com/o/r/blob/main/themes/x.toml ",
        "https://cdn.jsdelivr.net/gh/o/r@dev/a/b.json",
        "https://cdn.jsdelivr.net/gh/o/r/a.json",
        "https://example.org/theme.toml",
        "https://github.com/o/r/blob/main/",
    ] {
        let once = normalize_preset_url(u);
        assert_eq!(normalize_preset_url(&once), once);
    }
    assert_eq!(normalize_preset_url("  https://example.org/x  "), "https://example.org/x");
}
