//! OrbitNav core: voxel navigation over a dense occupancy grid.
//!
//! A uniform grid of cubic cells, each free or solid, plus what a mover needs to cross it: which
//! free cells touch solid (the SURFACE classification), which free cells reach each other
//! (connected COMPONENTS), and the dump format the derived arrays are compared through. Around
//! them: the bookkeeping of a worker pool ([`jobs`]), the handles a caller holds to its volumes
//! ([`registry`]), and the integer decisions of a route search ([`astar`], [`snap`]).
//!
//! Everything here is a function of plain data: byte arrays, integer cell coordinates and flat
//! indices. Where a lattice sits in world space, and everything computed from world points, is
//! floating point and is the caller's.
use vstd::prelude::*;

pub mod grid;
pub mod occupancy;
pub mod surface;
pub mod components;
pub mod volume;
pub mod navd;
pub mod jobs;
pub mod astar;
pub mod snap;
pub mod voxelize;
pub mod registry;

pub use astar::Outcome;
pub use grid::Grid;
pub use jobs::{JobId, JobState, JobTable};
pub use navd::{read_navd, write_navd, NavdError};
pub use occupancy::Occupancy;
pub use snap::SURFACE_SNAP_R;
pub use surface::SurfaceArrays;
pub use volume::Volume;
pub use voxelize::{Sides, Winding};

verus! {

} // verus!
