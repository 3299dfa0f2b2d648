//! Plugin installation decisions: which release asset fits the running
//! operating system.
use crate::text::{chars_of, chars_eq, contains, find};
use crate::unicode::{lowercase, to_lowercase};
use vstd::prelude::*;

verus! {

/// One asset of a release: its file name and download link, where the release lists them.
#[derive(Clone, Debug, PartialEq)]
pub struct ReleaseAsset {
    pub name: Option<String>,
    pub download_url: Option<String>,
}

pub open spec fn opt_text(o: Option<String>) -> Option<Seq<char>> {
    match o {
        Some(s) => Some(s@),
        None => None,
    }
}

impl View for ReleaseAsset {
    type V = (Option<Seq<char>>, Option<Seq<char>>);

    open spec fn view(&self) -> (Option<Seq<char>>, Option<Seq<char>>) {
        (opt_text(self.name), opt_text(self.download_url))
    }
}

pub open spec fn or_text(o: Option<Seq<char>>, d: Seq<char>) -> Seq<char> {
    match o {
        Some(s) => s,
        None => d,
    }
}

/// An asset whose lowercased name mentions the target system fits it; on
/// Windows any `.exe` fits too.
pub open spec fn fits_target(lowered_name: Seq<char>, os_target: Seq<char>) -> bool {
    contains(lowered_name, os_target) || (os_target == "windows"@ && contains(
        lowered_name,
        ".exe"@,
    ))
}

/// Whether an asset, by its lowercased name, fits the target system.
pub fn asset_fits(lowered_name: &str, os_target: &str) -> (r: bool)
    ensures
        r == fits_target(lowered_name@, os_target@),
{
    let n = chars_of(lowered_name);
    let os = chars_of(os_target);
    let win = chars_of("windows");
    let exe = chars_of(".exe");
    find(&n, &os, 0).is_some() || (chars_eq(&os, &win) && find(&n, &exe, 0).is_some())
}

/// Index of the first asset that fits, from `i` on.
pub open spec fn first_fit(
    assets: Seq<(Option<Seq<char>>, Option<Seq<char>>)>,
    os_target: Seq<char>,
    i: int,
) -> Option<int>
    decreases assets.len() - i,
{
    if i < 0 || i >= assets.len() {
        None
    } else if fits_target(lowercase(or_text(assets[i].0, ""@)), os_target) {
        Some(i)
    } else {
        first_fit(assets, os_target, i + 1)
    }
}

/// The message when no asset fits.
pub open spec fn no_match_message(os_target: Seq<char>) -> Seq<char> {
    "Found the release, but no binary matched your OS ("@ + os_target + ")."@
}

/// The download link and file name of the first asset that fits the target
/// system (`plugin.bin` where the asset has no name); an error where none fits
/// or the fitting asset has no link.
pub open spec fn selected_asset(
    assets: Seq<(Option<Seq<char>>, Option<Seq<char>>)>,
    os_target: Seq<char>,
) -> Result<(Seq<char>, Seq<char>), Seq<char>> {
    match first_fit(assets, os_target, 0) {
        Some(i) => {
            let url = or_text(assets[i].1, ""@);
            if url.len() == 0 {
                Err(no_match_message(os_target))
            } else {
                Ok((url, or_text(assets[i].0, "plugin.bin"@)))
            }
        },
        None => Err(no_match_message(os_target)),
    }
}

fn text_or(o: &Option<String>, d: &str) -> (r: String)
    ensures
        r@ == or_text(opt_text(*o), d@),
{
    match o {
        Some(s) => s.clone(),
        None => String::from_str(d),
    }
}

/// Picks the release asset to download for the target system.
pub fn select_release_asset(assets: &Vec<ReleaseAsset>, os_target: &str) -> (r: Result<
    (String, String),
    String,
>)
    ensures
        match (r, selected_asset(assets@.map_values(|a: ReleaseAsset| a@), os_target@)) {
            (Ok((u, f)), Ok((v, g))) => u@ == v && f@ == g,
            (Err(e), Err(d)) => e@ == d,
            _ => false,
        },
{
    let ghost views = assets@.map_values(|a: ReleaseAsset| a@);
    let mut i: usize = 0;
    while i < assets.len()
        invariant
            0 <= i <= assets@.len(),
            views == assets@.map_values(|a: ReleaseAsset| a@),
            first_fit(views, os_target@, 0) == first_fit(views, os_target@, i as int),
        decreases assets.len() - i,
    {
        let a = &assets[i];
        assert(views[i as int] == a@);
        let name = text_or(&a.name, "");
        let lowered = to_lowercase(name.as_str());
        if asset_fits(lowered.as_str(), os_target) {
            let url = text_or(&a.download_url, "");
            let file_name = text_or(&a.name, "plugin.bin");
            if url.as_str().unicode_len() == 0 {
                let mut e = String::from_str("Found the release, but no binary matched your OS (");
                e.append(os_target);
                e.append(").");
                return Err(e);
            }
            return Ok((url, file_name));
        }
        i = i + 1;
    }
    let mut e = String::from_str("Found the release, but no binary matched your OS (");
    e.append(os_target);
    e.append(").");
    Err(e)
}

} // verus!
