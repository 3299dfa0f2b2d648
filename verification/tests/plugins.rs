use mor_website_ui::plugins::{asset_fits, select_release_asset, ReleaseAsset};

fn asset(name: Option<&str>, url: Option<&str>) -> ReleaseAsset {
    ReleaseAsset { name: name.map(|s| s.to_string()), download_url: url.map(|s| s.to_string()) }
}

#[test]
fn first_asset_for_the_system_is_chosen() {
    let assets = vec![
        asset(Some("tool-macos"), Some("u1")),
        asset(Some("Tool-LINUX-x64"), Some("u2")),
        asset(Some("tool-linux-arm"), Some("u3")),
    ];
    assert_eq!(
        select_release_asset(&assets, "linux"),
        Ok(("u2".to_string(), "Tool-LINUX-x64".to_string()))
    );
}

#[test]
fn windows_takes_any_exe() {
    let assets = vec![asset(Some("tool.EXE"), Some("w"))];
    assert_eq!(select_release_asset(&assets, "windows"), Ok(("w".to_string(), "tool.EXE".to_string())));
    assert!(asset_fits("tool.exe", "windows"));
    assert!(!asset_fits("tool.exe", "linux"));
}

#[test]
fn no_fitting_asset_is_an_error() {
    let assets = vec![asset(Some("tool-macos"), Some("u1")), asset(None, Some("u"))];
    assert_eq!(
        select_release_asset(&assets, "linux"),
        Err("Found the release, but no binary matched your OS (linux).".to_string())
    );
    let no_link = vec![asset(Some("tool-linux"), None)];
    assert_eq!(
        select_release_asset(&no_link, "linux"),
        Err("Found the release, but no binary matched your OS (linux).".to_string())
    );
}

#[test]
fn asset_names_are_compared_lowercased() {
    let assets = vec![asset(Some("TOOL-LINUX"), Some("u"))];
    assert!(select_release_asset(&assets, "linux").is_ok());
}
