//! The theme bundle: what goes into the archive exported for backup and sharing.
use vstd::prelude::*;

verus! {

/// Instructions shipped inside the bundle.
pub const BUNDLE_README: &'static str = "MorWebsite Theme Bundle\n\n1. Drop mor-theme.css into your website project root.\n2. Link it from every page:\n     <link rel=\"stylesheet\" href=\"/mor-theme.css\" />\n3. To keep editing later, open the folder in MorWebsite Editor and\n   load workspace-backup.toml via File → Load Site Config.\n\nSee docs/SITE_CONTRACT.md for the modular site contract.\n";

/// One file of the bundle.
#[derive(Clone, Debug, PartialEq)]
pub struct BundleEntry {
    pub name: String,
    pub contents: String,
}

impl View for BundleEntry {
    type V = (Seq<char>, Seq<char>);

    open spec fn view(&self) -> (Seq<char>, Seq<char>) {
        (self.name@, self.contents@)
    }
}

/// The bundle's files in archive order: the stylesheet, the workspace backup
/// and the instructions.
pub open spec fn bundle_files(css: Seq<char>, toml: Seq<char>) -> Seq<(Seq<char>, Seq<char>)> {
    seq![
        ("mor-theme.css"@, css),
        ("workspace-backup.toml"@, toml),
        ("README.txt"@, BUNDLE_README@),
    ]
}

/// The files of a theme bundle for a compiled stylesheet and its workspace TOML.
pub fn bundle_entries(css: &str, toml: &str) -> (r: Vec<BundleEntry>)
    ensures
        r@.map_values(|e: BundleEntry| e@) == bundle_files(css@, toml@),
{
    let r = vec![
        BundleEntry { name: String::from_str("mor-theme.css"), contents: String::from_str(css) },
        BundleEntry {
            name: String::from_str("workspace-backup.toml"),
            contents: String::from_str(toml),
        },
        BundleEntry {
            name: String::from_str("README.txt"),
            contents: String::from_str(BUNDLE_README),
        },
    ];
    assert(r@.map_values(|e: BundleEntry| e@) == bundle_files(css@, toml@));
    r
}

} // verus!
