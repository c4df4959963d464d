//! How a mesh's triangles are oriented, and which of their sides claim cells.
//!
//! A one-sided triangle claims the cells whose centre is on its front side or on its plane; which
//! side is the front comes from the mesh's [`Winding`]. A double-sided triangle claims cells on
//! both sides.
use vstd::prelude::*;

verus! {

/// Which way a mesh's vertices run when a triangle is viewed from its front.
#[derive(Clone, Copy, Debug, PartialEq, Eq, Structural)]
pub enum Winding {
    /// Counter-clockwise from the front: the front is the side `(b - a) x (c - a)` points to.
    CounterClockwise,
    /// Clockwise from the front: the front is the side `(c - a) x (b - a)` points to.
    Clockwise,
}

/// Which sides of a mesh's triangles claim cells.
#[derive(Clone, Copy, Debug, PartialEq, Eq, Structural)]
pub enum Sides {
    /// Only cells whose centre is on the front side, or on the plane.
    Front(Winding),
    /// Cells on either side.
    Both,
}

} // verus!
