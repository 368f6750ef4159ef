//! Decisions around moving files between locations.
use vstd::prelude::*;

use crate::paths::PathStyle;

verus! {

/// The raw OS error code that a rename reports when source and destination
/// lie on different volumes: `ERROR_NOT_SAME_DEVICE` (17) under the Windows
/// rule, `EXDEV` (18) elsewhere. (On Unix, 17 is `EEXIST`: the destination
/// exists, which must never be taken for a cross-volume move.)
pub open spec fn cross_device_code(st: PathStyle) -> i32 {
    match st {
        PathStyle::Windows => 17,
        PathStyle::Unix => 18,
    }
}

/// Whether a failed rename's raw OS error code means that the source and the
/// destination are on different volumes, so that the move must copy and then
/// delete.
pub fn is_cross_device(code: Option<i32>, st: PathStyle) -> (r: bool)
    ensures
        r == (code == Some(cross_device_code(st))),
{
    match code {
        Some(c) => match st {
            PathStyle::Windows => c == 17,
            PathStyle::Unix => c == 18,
        },
        None => false,
    }
}

} // verus!
