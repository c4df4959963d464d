//! The snap radii: how far from a query point a usable cell may be and still answer it.
//!
//! Both ends of a search snap before a single cell is expanded. The START snaps at the caller's
//! radius and the GOAL at the default radius for the mover kind; the two defaults are what a
//! caller gets when it has no reason to say otherwise.
use vstd::prelude::*;

verus! {

/// The snap radius a surface-restricted query uses.
///
/// Wider than the open-space default because a surface mover is routinely several cells off the
/// skin. The two ends of a search must agree on this: if a start can snap further than a goal, a
/// mover can be able to PLAN a route and unable to be given a destination.
pub const SURFACE_SNAP_R: i32 = 9;

/// The open-space default snap radius.
pub const FREE_SNAP_R: i32 = 5;

/// The radius a query of this kind should use when the caller has no reason to say otherwise.
pub fn default_snap_r(surface_only: bool) -> (r: i32)
    ensures
        r == (if surface_only {
            SURFACE_SNAP_R
        } else {
            FREE_SNAP_R
        }),
{
    if surface_only {
        SURFACE_SNAP_R
    } else {
        FREE_SNAP_R
    }
}

} // verus!
