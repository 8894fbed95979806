//! The version of this build.

use crate::text;
use vstd::prelude::*;

verus! {

pub const MAJOR_VERSION: u32 = 1;

pub const MINOR_VERSION: u32 = 5;

pub const PATCH_VERSION: u32 = 0;

/// `major.minor.patch`.
pub open spec fn version_text() -> Seq<char> {
    text::decimal(MAJOR_VERSION as nat) + "."@ + text::decimal(MINOR_VERSION as nat) + "."@
        + text::decimal(PATCH_VERSION as nat)
}

/// The version as three numbers.
pub fn version_tuple() -> (r: (u32, u32, u32))
    ensures
        r == (MAJOR_VERSION, MINOR_VERSION, PATCH_VERSION),
{
    (MAJOR_VERSION, MINOR_VERSION, PATCH_VERSION)
}

/// The version as text.
pub fn version_string() -> (r: String)
    ensures
        r@ == version_text(),
{
    let (major, minor, patch) = version_tuple();
    text::number_text(major as u64).concat(".").concat(
        text::number_text(minor as u64).as_str(),
    ).concat(".").concat(text::number_text(patch as u64).as_str())
}

} // verus!
