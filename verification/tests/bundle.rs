use mor_website_ui::bundle::{bundle_entries, BUNDLE_README};

#[test]
fn bundle_holds_css_backup_and_readme() {
    let e = bundle_entries("body{}", "a = 1");
    assert_eq!(e.len(), 3);
    assert_eq!((e[0].name.as_str(), e[0].contents.as_str()), ("mor-theme.css", "body{}"));
    assert_eq!((e[1].name.as_str(), e[1].contents.as_str()), ("workspace-backup.toml", "a = 1"));
    assert_eq!((e[2].name.as_str(), e[2].contents.as_str()), ("README.txt", BUNDLE_README));
    assert!(BUNDLE_README.starts_with("MorWebsite Theme Bundle\n"));
}
