//! Fixed-point volume scalars.
//!
//! A device volume is a scalar in `[0.0, 1.0]`.  The crate stores such a
//! scalar as a whole number of millionths, so that `0` stands for silence
//! and [`VOLUME_SCALE`] stands for full volume.

use vstd::prelude::*;

verus! {

/// The fixed-point representation of the volume scalar `1.0`: one million
/// millionths.
pub const VOLUME_SCALE: u32 = 1_000_000;

/// A volume value is valid when it lies in `[0.0, 1.0]`, that is, in
/// `[0, VOLUME_SCALE]` millionths.
pub open spec fn valid_volume(v: u32) -> bool {
    v <= VOLUME_SCALE
}

/// The lesser of two volume values.
pub open spec fn spec_min_volume(a: u32, b: u32) -> u32 {
    if a <= b {
        a
    } else {
        b
    }
}

/// What enforcement leaves of a device volume `vol` under the ceiling
/// `limit`: the volume is lowered to the ceiling exactly when it exceeds
/// it, and is untouched otherwise.
pub open spec fn clamped(vol: int, limit: u32) -> int {
    if vol <= limit {
        vol
    } else {
        limit as int
    }
}

/// Executable counterpart of [`spec_min_volume`].
#[verifier::when_used_as_spec(spec_min_volume)]
pub fn min_volume(a: u32, b: u32) -> (r: u32)
    ensures
        r == spec_min_volume(a, b),
{
    if a <= b {
        a
    } else {
        b
    }
}

} // verus!
