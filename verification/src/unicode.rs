//! Unicode case mapping, as the standard library performs it.
use vstd::prelude::*;

verus! {

/// The lowercase form of a text under Unicode's full case mapping, as
/// `str::to_lowercase` computes it.
pub uninterp spec fn lowercase(s: Seq<char>) -> Seq<char>;

/// The uppercase form of one character under Unicode's full case mapping (one
/// to three characters), as `char::to_uppercase` yields it.
pub uninterp spec fn char_uppercase(c: char) -> Seq<char>;

/// `str::to_lowercase`. Its result is named `lowercase` of the input; what that
/// mapping is (Unicode's case tables) is not stated here.
#[verifier::external_body]
pub(crate) fn to_lowercase(s: &str) -> (r: String)
    ensures
        r@ == lowercase(s@),
{
    s.to_lowercase()
}

/// `char::to_uppercase`, collected into a string. Its result is named
/// `char_uppercase` of the input; the mapping itself is not stated here.
#[verifier::external_body]
pub(crate) fn to_uppercase(c: char) -> (r: String)
    ensures
        r@ == char_uppercase(c),
{
    c.to_uppercase().collect()
}

} // verus!
