//! SURFACE classification: which free cells touch solid, and how enclosed each one is.
//!
//! Three arrays, all derived from occupancy alone:
//!
//! | array | meaning |
//! |---|---|
//! | `surface_bits` | one bit per axis neighbour that is solid, in [`crate::grid::DIRS`] order |
//! | `solid_sides` | the popcount of `surface_bits`, 0..=6 |
//! | `surface_flag` | 1 when a free cell has any solid cell in its 26-neighbourhood |
//!
//! `surface_bits` and `solid_sides` describe the SIX face neighbours; `surface_flag` describes all
//! TWENTY-SIX, so a cell touching solid only at a corner is flagged but has no bits. The flag
//! decides what a surface-restricted mover may stand on, while the bits and the popcount price how
//! enclosed a cell is.
//!
//! # Two rules that decide the output at the edges
//!
//! - **Out of bounds counts as OPEN, never solid.** A cell on the lattice boundary reads its missing
//!   neighbour as free.
//! - **A cell outside the grown solid bounding box is left entirely at zero**, without scanning. It
//!   has no solid cell within one step, so this only saves work.
//!
//! # Chunking
//!
//! Every cell's three outputs depend only on the occupancy array, never on another cell's output,
//! so classifying a range in pieces and concatenating the pieces gives the same arrays as
//! classifying it whole ([`lemma_chunks_concatenate`]). A caller with worker threads hands each one
//! a piece through [`classify_range`].
use crate::grid::{
    cells_of, dir_step, lemma_cell_of_index, lemma_index_bounds, lemma_index_of_cell, Cell, Grid,
};
use crate::occupancy::{any_solid, is_bbox, reached, solid_index, Occupancy};
use std::sync::atomic::{AtomicUsize, Ordering};
use std::sync::Arc;
use vstd::prelude::*;

verus! {

/// Whether the cell at integer coordinates `(x, y, z)` is in the lattice and solid.
pub open spec fn solid_xyz(grid: Grid, solid: Seq<u8>, x: int, y: int, z: int) -> bool {
    &&& 0 <= x < grid.dims[0]
    &&& 0 <= y < grid.dims[1]
    &&& 0 <= z < grid.dims[2]
    &&& solid[x + grid.dims[0] * (y + grid.dims[1] * z)] != 0
}

/// Whether the face neighbour of `c` in direction `d` (0..6, [`crate::grid::DIRS`] order) is
/// solid. A neighbour off the lattice is open.
pub open spec fn face_solid(grid: Grid, solid: Seq<u8>, c: Cell, d: int) -> bool {
    solid_xyz(grid, solid, c[0] + dir_step(d, 0), c[1] + dir_step(d, 1), c[2] + dir_step(d, 2))
}

/// `1 << d` when the face neighbour in direction `d` is solid, else 0.
pub open spec fn face_weight(grid: Grid, solid: Seq<u8>, c: Cell, d: int, w: int) -> int {
    if face_solid(grid, solid, c, d) {
        w
    } else {
        0
    }
}

/// The bit mask of solid face neighbours: bit `d` for direction `d`.
pub open spec fn face_mask(grid: Grid, solid: Seq<u8>, c: Cell) -> int {
    face_weight(grid, solid, c, 0, 1) + face_weight(grid, solid, c, 1, 2) + face_weight(
        grid,
        solid,
        c,
        2,
        4,
    ) + face_weight(grid, solid, c, 3, 8) + face_weight(grid, solid, c, 4, 16) + face_weight(
        grid,
        solid,
        c,
        5,
        32,
    )
}

/// How many face neighbours are solid.
pub open spec fn face_count(grid: Grid, solid: Seq<u8>, c: Cell) -> int {
    face_weight(grid, solid, c, 0, 1) + face_weight(grid, solid, c, 1, 1) + face_weight(
        grid,
        solid,
        c,
        2,
        1,
    ) + face_weight(grid, solid, c, 3, 1) + face_weight(grid, solid, c, 4, 1) + face_weight(
        grid,
        solid,
        c,
        5,
        1,
    )
}

/// Whether some cell of the 3x3x3 block around `c` (the centre included) is solid.
pub open spec fn near_solid(grid: Grid, solid: Seq<u8>, c: Cell) -> bool {
    exists|x: int, y: int, z: int|
        c[0] - 1 <= x <= c[0] + 1 && c[1] - 1 <= y <= c[1] + 1 && c[2] - 1 <= z <= c[2] + 1
            && #[trigger] solid_xyz(grid, solid, x, y, z)
}

/// What `surface_bits` holds at flat index `i`: the face mask of a free cell, 0 for a solid one.
pub open spec fn bits_at(grid: Grid, solid: Seq<u8>, i: int) -> u8 {
    if solid[i] != 0 {
        0
    } else {
        face_mask(grid, solid, grid.cell(i)) as u8
    }
}

/// What `solid_sides` holds at flat index `i`: how many face neighbours of a free cell are solid.
pub open spec fn sides_at(grid: Grid, solid: Seq<u8>, i: int) -> u8 {
    if solid[i] != 0 {
        0
    } else {
        face_count(grid, solid, grid.cell(i)) as u8
    }
}

/// What `surface_flag` holds at flat index `i`: 1 for a free cell with solid among its 26
/// neighbours.
pub open spec fn flag_at(grid: Grid, solid: Seq<u8>, i: int) -> u8 {
    if solid[i] == 0 && near_solid(grid, solid, grid.cell(i)) {
        1
    } else {
        0
    }
}

/// The three arrays SURFACE derives, each one byte per cell.
#[derive(Clone, Debug, PartialEq, Eq)]
pub struct SurfaceArrays {
    /// Bit per solid axis neighbour, in [`crate::grid::DIRS`] order: `1, 2, 4, 8, 16, 32`.
    pub surface_bits: Vec<u8>,
    /// Popcount of `surface_bits`, 0..=6.
    pub solid_sides: Vec<u8>,
    /// 1 when a free cell has any solid cell among its 26 neighbours.
    pub surface_flag: Vec<u8>,
}

impl SurfaceArrays {
    /// Three arrays of `n` bytes each.
    pub open spec fn has_len(&self, n: int) -> bool {
        &&& self.surface_bits.len() == n
        &&& self.solid_sides.len() == n
        &&& self.surface_flag.len() == n
    }

    /// Element `k` of the three arrays is what SURFACE derives for flat index `start + k` of
    /// `solid`, for every `k` below `len`.
    pub open spec fn classifies(&self, grid: Grid, solid: Seq<u8>, start: int, len: int) -> bool {
        &&& self.has_len(len)
        &&& forall|k: int|
            #![trigger self.surface_bits@[k]]
            #![trigger self.solid_sides@[k]]
            #![trigger self.surface_flag@[k]]
            0 <= k < len ==> {
                &&& self.surface_bits@[k] == bits_at(grid, solid, start + k)
                &&& self.solid_sides@[k] == sides_at(grid, solid, start + k)
                &&& self.surface_flag@[k] == flag_at(grid, solid, start + k)
            }
    }

    /// All-zero arrays for a grid of `n` cells.
    pub fn zeroed(n: usize) -> (s: Self)
        ensures
            s.surface_bits@ == Seq::new(n as nat, |i: int| 0u8),
            s.solid_sides@ == Seq::new(n as nat, |i: int| 0u8),
            s.surface_flag@ == Seq::new(n as nat, |i: int| 0u8),
    {
        let mut b: Vec<u8> = Vec::new();
        let mut s: Vec<u8> = Vec::new();
        let mut f: Vec<u8> = Vec::new();
        let mut k: usize = 0;
        while k < n
            invariant
                k <= n,
                b@ == Seq::new(k as nat, |i: int| 0u8),
                s@ == Seq::new(k as nat, |i: int| 0u8),
                f@ == Seq::new(k as nat, |i: int| 0u8),
            decreases n - k,
        {
            b.push(0);
            s.push(0);
            f.push(0);
            k += 1;
        }
        SurfaceArrays { surface_bits: b, solid_sides: s, surface_flag: f }
    }
}

/// Whether `(x, y, z)` is in the lattice and solid.
fn solid_xyz_exec(occ: &Occupancy, x: i32, y: i32, z: i32) -> (b: bool)
    requires
        occ.wf(),
    ensures
        b == solid_xyz(occ.grid, occ.solid@, x as int, y as int, z as int),
{
    let c: Cell = [x, y, z];
    if !occ.grid.in_bounds(c) {
        return false;
    }
    let i = occ.grid.cell_index(c);
    occ.solid[i] != 0
}

/// A solid cell within one step of `c` makes `c` lie in the solid box grown by one cell.
proof fn lemma_solid_in_box(grid: Grid, solid: Seq<u8>, lo: Cell, hi: Cell, x: int, y: int, z: int)
    requires
        grid.wf(),
        solid.len() == grid.cells(),
        is_bbox(grid, solid, lo, hi),
        solid_xyz(grid, solid, x, y, z),
    ensures
        lo[0] <= x <= hi[0],
        lo[1] <= y <= hi[1],
        lo[2] <= z <= hi[2],
{
    let c: Cell = [x as i32, y as i32, z as i32];
    lemma_cell_of_index(grid.dims, c);
    lemma_index_bounds(grid.dims, c);
    let j = grid.index(c);
    assert(solid_index(solid, j));
}

/// Every cell of a non-empty lattice's solid box is in bounds.
proof fn lemma_bbox_in_bounds(grid: Grid, solid: Seq<u8>, lo: Cell, hi: Cell)
    requires
        grid.wf(),
        solid.len() == grid.cells(),
        is_bbox(grid, solid, lo, hi),
    ensures
        0 <= lo[0] && hi[0] < grid.dims[0],
        0 <= lo[1] && hi[1] < grid.dims[1],
        0 <= lo[2] && hi[2] < grid.dims[2],
{
    assert(reached(grid, solid, 0, lo[0]));
    assert(reached(grid, solid, 1, lo[1]));
    assert(reached(grid, solid, 2, lo[2]));
    assert(reached(grid, solid, 0, hi[0]));
    assert(reached(grid, solid, 1, hi[1]));
    assert(reached(grid, solid, 2, hi[2]));
    let w0 = choose|i: int| #[trigger] solid_index(solid, i) && grid.cell(i)[0] == lo[0];
    let w1 = choose|i: int| #[trigger] solid_index(solid, i) && grid.cell(i)[1] == lo[1];
    let w2 = choose|i: int| #[trigger] solid_index(solid, i) && grid.cell(i)[2] == lo[2];
    let v0 = choose|i: int| #[trigger] solid_index(solid, i) && grid.cell(i)[0] == hi[0];
    let v1 = choose|i: int| #[trigger] solid_index(solid, i) && grid.cell(i)[1] == hi[1];
    let v2 = choose|i: int| #[trigger] solid_index(solid, i) && grid.cell(i)[2] == hi[2];
    lemma_index_of_cell(grid.dims, w0);
    lemma_index_of_cell(grid.dims, w1);
    lemma_index_of_cell(grid.dims, w2);
    lemma_index_of_cell(grid.dims, v0);
    lemma_index_of_cell(grid.dims, v1);
    lemma_index_of_cell(grid.dims, v2);
}

/// The SURFACE outputs of one cell.
fn classify_cell(occ: &Occupancy, lo: Cell, hi: Cell, i: usize) -> (r: (u8, u8, u8))
    requires
        occ.wf(),
        is_bbox(occ.grid, occ.solid@, lo, hi),
        i < occ.solid.len(),
    ensures
        r.0 == bits_at(occ.grid, occ.solid@, i as int),
        r.1 == sides_at(occ.grid, occ.solid@, i as int),
        r.2 == flag_at(occ.grid, occ.solid@, i as int),
{
    let ghost grid = occ.grid;
    let ghost solid = occ.solid@;
    if occ.solid[i] != 0 {
        return (0, 0, 0);  // a solid cell is not a surface cell; its three outputs stay zero
    }
    proof {
        lemma_index_of_cell(grid.dims, i as int);
        lemma_bbox_in_bounds(grid, solid, lo, hi);
    }
    let c = occ.grid.index_cell(i);
    // Outside the grown solid box there can be no solid neighbour, so skip the whole scan.
    if c[0] < lo[0] - 1 || c[1] < lo[1] - 1 || c[2] < lo[2] - 1 || c[0] > hi[0] + 1 || c[1]
        > hi[1] + 1 || c[2] > hi[2] + 1 {
        proof {
            assert forall|x: int, y: int, z: int|
                c[0] - 1 <= x <= c[0] + 1 && c[1] - 1 <= y <= c[1] + 1 && c[2] - 1 <= z <= c[2]
                    + 1 implies !#[trigger] solid_xyz(grid, solid, x, y, z) by {
                if solid_xyz(grid, solid, x, y, z) {
                    lemma_solid_in_box(grid, solid, lo, hi, x, y, z);
                }
            }
            assert(!face_solid(grid, solid, c, 0));
            assert(!face_solid(grid, solid, c, 1));
            assert(!face_solid(grid, solid, c, 2));
            assert(!face_solid(grid, solid, c, 3));
            assert(!face_solid(grid, solid, c, 4));
            assert(!face_solid(grid, solid, c, 5));
        }
        return (0, 0, 0);
    }
    // The six face neighbours, in DIRS order. A step that leaves the lattice reads as OPEN.

    let b0 = solid_xyz_exec(occ, c[0] - 1, c[1], c[2]);
    let b1 = solid_xyz_exec(occ, c[0] + 1, c[1], c[2]);
    let b2 = solid_xyz_exec(occ, c[0], c[1] - 1, c[2]);
    let b3 = solid_xyz_exec(occ, c[0], c[1] + 1, c[2]);
    let b4 = solid_xyz_exec(occ, c[0], c[1], c[2] - 1);
    let b5 = solid_xyz_exec(occ, c[0], c[1], c[2] + 1);
    assert(b0 == face_solid(grid, solid, c, 0));
    assert(b1 == face_solid(grid, solid, c, 1));
    assert(b2 == face_solid(grid, solid, c, 2));
    assert(b3 == face_solid(grid, solid, c, 3));
    assert(b4 == face_solid(grid, solid, c, 4));
    assert(b5 == face_solid(grid, solid, c, 5));
    let mask: u8 = (if b0 { 1u8 } else { 0u8 }) + (if b1 { 2u8 } else { 0u8 }) + (if b2 {
        4u8
    } else {
        0u8
    }) + (if b3 { 8u8 } else { 0u8 }) + (if b4 { 16u8 } else { 0u8 }) + (if b5 {
        32u8
    } else {
        0u8
    });
    let sides: u8 = (if b0 { 1u8 } else { 0u8 }) + (if b1 { 1u8 } else { 0u8 }) + (if b2 {
        1u8
    } else {
        0u8
    }) + (if b3 { 1u8 } else { 0u8 }) + (if b4 { 1u8 } else { 0u8 }) + (if b5 {
        1u8
    } else {
        0u8
    });
    if mask != 0 {
        // Any face neighbour solid already answers the 26-neighbourhood question.
        proof {
            if b0 {
                assert(solid_xyz(grid, solid, c[0] - 1, c[1] as int, c[2] as int));
            } else if b1 {
                assert(solid_xyz(grid, solid, c[0] + 1, c[1] as int, c[2] as int));
            } else if b2 {
                assert(solid_xyz(grid, solid, c[0] as int, c[1] - 1, c[2] as int));
            } else if b3 {
                assert(solid_xyz(grid, solid, c[0] as int, c[1] + 1, c[2] as int));
            } else if b4 {
                assert(solid_xyz(grid, solid, c[0] as int, c[1] as int, c[2] - 1));
            } else {
                assert(solid_xyz(grid, solid, c[0] as int, c[1] as int, c[2] + 1));
            }
        }
        return (mask, sides, 1);
    }
    // No face neighbour is solid, so look at the edge and corner neighbours. The scan covers the
    // whole 3x3x3 block, centre included, which is free here and so cannot change the answer.

    let mut found = false;
    let mut dz: i32 = -1;
    while dz <= 1 && !found
        invariant
            occ.wf(),
            grid == occ.grid,
            solid == occ.solid@,
            grid.contains(c),
            -1 <= dz <= 2,
            found ==> near_solid(grid, solid, c),
            !found ==> forall|x: int, y: int, z: int|
                c[0] - 1 <= x <= c[0] + 1 && c[1] - 1 <= y <= c[1] + 1 && c[2] - 1 <= z < c[2]
                    + dz ==> !#[trigger] solid_xyz(grid, solid, x, y, z),
        decreases 2 - dz,
    {
        let mut dy: i32 = -1;
        while dy <= 1 && !found
            invariant
                occ.wf(),
                grid == occ.grid,
                solid == occ.solid@,
                grid.contains(c),
                -1 <= dz <= 1,
                -1 <= dy <= 2,
                found ==> near_solid(grid, solid, c),
                !found ==> forall|x: int, y: int, z: int|
                    c[0] - 1 <= x <= c[0] + 1 && c[1] - 1 <= y <= c[1] + 1 && c[2] - 1 <= z < c[2]
                        + dz ==> !#[trigger] solid_xyz(grid, solid, x, y, z),
                !found ==> forall|x: int, y: int|
                    c[0] - 1 <= x <= c[0] + 1 && c[1] - 1 <= y < c[1] + dy ==> !#[trigger] solid_xyz(
                        grid,
                        solid,
                        x,
                        y,
                        c[2] + dz,
                    ),
            decreases 2 - dy,
        {
            let mut dx: i32 = -1;
            while dx <= 1 && !found
                invariant
                    occ.wf(),
                    grid == occ.grid,
                    solid == occ.solid@,
                    grid.contains(c),
                    -1 <= dz <= 1,
                    -1 <= dy <= 1,
                    -1 <= dx <= 2,
                    found ==> near_solid(grid, solid, c),
                    !found ==> forall|x: int, y: int, z: int|
                        c[0] - 1 <= x <= c[0] + 1 && c[1] - 1 <= y <= c[1] + 1 && c[2] - 1 <= z
                            < c[2] + dz ==> !#[trigger] solid_xyz(grid, solid, x, y, z),
                    !found ==> forall|x: int, y: int|
                        c[0] - 1 <= x <= c[0] + 1 && c[1] - 1 <= y < c[1] + dy ==> !#[trigger] solid_xyz(
                            grid,
                            solid,
                            x,
                            y,
                            c[2] + dz,
                        ),
                    !found ==> forall|x: int|
                        c[0] - 1 <= x < c[0] + dx ==> !#[trigger] solid_xyz(
                            grid,
                            solid,
                            x,
                            c[1] + dy,
                            c[2] + dz,
                        ),
                decreases 2 - dx,
            {
                if solid_xyz_exec(occ, c[0] + dx, c[1] + dy, c[2] + dz) {
                    found = true;
                    assert(solid_xyz(grid, solid, c[0] + dx, c[1] + dy, c[2] + dz));
                }
                dx += 1;
            }
            dy += 1;
        }
        dz += 1;
    }
    (mask, sides, if found { 1 } else { 0 })
}

/// Classify flat indices `start..end`. Element `k` of the result is flat index `start + k`.
///
/// `(lo, hi)` is the solid box of `occ`, as [`Occupancy::solid_bbox`] gives it.
pub fn classify_range(occ: &Occupancy, lo: Cell, hi: Cell, start: usize, end: usize) -> (s:
    SurfaceArrays)
    requires
        occ.wf(),
        is_bbox(occ.grid, occ.solid@, lo, hi),
        start <= end <= occ.solid.len(),
    ensures
        s.classifies(occ.grid, occ.solid@, start as int, end - start),
{
    let mut bits: Vec<u8> = Vec::new();
    let mut sides: Vec<u8> = Vec::new();
    let mut flag: Vec<u8> = Vec::new();
    let mut i = start;
    while i < end
        invariant
            occ.wf(),
            is_bbox(occ.grid, occ.solid@, lo, hi),
            start <= i <= end <= occ.solid.len(),
            bits.len() == i - start,
            sides.len() == i - start,
            flag.len() == i - start,
            forall|k: int|
                #![trigger bits@[k]]
                #![trigger sides@[k]]
                #![trigger flag@[k]]
                0 <= k < i - start ==> {
                    &&& bits@[k] == bits_at(occ.grid, occ.solid@, start + k)
                    &&& sides@[k] == sides_at(occ.grid, occ.solid@, start + k)
                    &&& flag@[k] == flag_at(occ.grid, occ.solid@, start + k)
                },
        decreases end - i,
    {
        let (b, s, f) = classify_cell(occ, lo, hi, i);
        bits.push(b);
        sides.push(s);
        flag.push(f);
        i += 1;
    }
    SurfaceArrays { surface_bits: bits, solid_sides: sides, surface_flag: flag }
}

/// With no solid cell anywhere, every SURFACE output is zero.
proof fn lemma_no_solid_all_zero(grid: Grid, solid: Seq<u8>, i: int)
    requires
        grid.wf(),
        solid.len() == grid.cells(),
        !any_solid(solid),
        0 <= i < solid.len(),
    ensures
        bits_at(grid, solid, i) == 0,
        sides_at(grid, solid, i) == 0,
        flag_at(grid, solid, i) == 0,
{
    assert(!solid_index(solid, i));
    let c = grid.cell(i);
    assert forall|x: int, y: int, z: int| !#[trigger] solid_xyz(grid, solid, x, y, z) by {
        if solid_xyz(grid, solid, x, y, z) {
            let cc: Cell = [x as i32, y as i32, z as i32];
            lemma_index_bounds(grid.dims, cc);
            assert(solid_index(solid, grid.index(cc)));
        }
    }
    assert(!face_solid(grid, solid, c, 0));
    assert(!face_solid(grid, solid, c, 1));
    assert(!face_solid(grid, solid, c, 2));
    assert(!face_solid(grid, solid, c, 3));
    assert(!face_solid(grid, solid, c, 4));
    assert(!face_solid(grid, solid, c, 5));
}

/// Classify every cell. The result does not depend on `workers`: splitting the walk across
/// threads is the caller's business, through [`classify_range`].
pub fn derive_surface(occ: &Occupancy, workers: usize) -> (s: SurfaceArrays)
    requires
        occ.wf(),
    ensures
        s.classifies(occ.grid, occ.solid@, 0, occ.grid.cells()),
{
    let n = occ.grid.cell_count();
    if n == 0 {
        return SurfaceArrays::zeroed(n);
    }
    match occ.solid_bbox() {
        None => {
            // No solid cells: every cell is outside the box, so every cell stays zero.
            let s = SurfaceArrays::zeroed(n);
            proof {
                assert forall|k: int| 0 <= k < n implies {
                    &&& #[trigger] s.surface_bits@[k] == bits_at(occ.grid, occ.solid@, k)
                    &&& s.solid_sides@[k] == sides_at(occ.grid, occ.solid@, k)
                    &&& s.surface_flag@[k] == flag_at(occ.grid, occ.solid@, k)
                } by {
                    lemma_no_solid_all_zero(occ.grid, occ.solid@, k);
                }
            }
            s
        },
        Some((lo, hi)) => classify_range(occ, lo, hi, 0, n),
    }
}

/// Classifying `a..b` and `b..c` and concatenating the pieces gives exactly the arrays classifying
/// `a..c` gives: the per-cell outputs never read another cell's output, so the split cannot show.
pub proof fn lemma_chunks_concatenate(
    grid: Grid,
    solid: Seq<u8>,
    left: SurfaceArrays,
    right: SurfaceArrays,
    whole: SurfaceArrays,
    a: int,
    b: int,
    c: int,
)
    requires
        a <= b <= c,
        left.classifies(grid, solid, a, b - a),
        right.classifies(grid, solid, b, c - b),
        whole.classifies(grid, solid, a, c - a),
    ensures
        left.surface_bits@ + right.surface_bits@ == whole.surface_bits@,
        left.solid_sides@ + right.solid_sides@ == whole.solid_sides@,
        left.surface_flag@ + right.surface_flag@ == whole.surface_flag@,
{
    assert forall|k: int| 0 <= k < c - a implies (left.surface_bits@
        + right.surface_bits@)[k] == whole.surface_bits@[k] && (left.solid_sides@
        + right.solid_sides@)[k] == whole.solid_sides@[k] && (left.surface_flag@
        + right.surface_flag@)[k] == whole.surface_flag@[k] by {
        if k < b - a {
            assert(left.surface_bits@[k] == bits_at(grid, solid, a + k));
            assert(left.solid_sides@[k] == sides_at(grid, solid, a + k));
            assert(left.surface_flag@[k] == flag_at(grid, solid, a + k));
        } else {
            let k2 = k - (b - a);
            assert(right.surface_bits@[k2] == bits_at(grid, solid, b + k2));
            assert(right.solid_sides@[k2] == sides_at(grid, solid, b + k2));
            assert(right.surface_flag@[k2] == flag_at(grid, solid, b + k2));
        }
        assert(whole.surface_bits@[k] == bits_at(grid, solid, a + k));
        assert(whole.solid_sides@[k] == sides_at(grid, solid, a + k));
        assert(whole.surface_flag@[k] == flag_at(grid, solid, a + k));
    }
    assert(left.surface_bits@ + right.surface_bits@ =~= whole.surface_bits@);
    assert(left.solid_sides@ + right.solid_sides@ =~= whole.solid_sides@);
    assert(left.surface_flag@ + right.surface_flag@ =~= whole.surface_flag@);
}

/// The three arrays' views classify flat indices `start..start + len` of `solid`, as
/// [`SurfaceArrays::classifies`] says of a value.
pub open spec fn seqs_classify(
    grid: Grid,
    solid: Seq<u8>,
    bits: Seq<u8>,
    sides: Seq<u8>,
    flag: Seq<u8>,
    start: int,
    len: int,
) -> bool {
    &&& bits.len() == len
    &&& sides.len() == len
    &&& flag.len() == len
    &&& forall|k: int|
        #![trigger bits[k]]
        #![trigger sides[k]]
        #![trigger flag[k]]
        0 <= k < len ==> {
            &&& bits[k] == bits_at(grid, solid, start + k)
            &&& sides[k] == sides_at(grid, solid, start + k)
            &&& flag[k] == flag_at(grid, solid, start + k)
        }
}

/// The `surface_bits` of `pieces`, one after another.
pub open spec fn flat_bits(pieces: Seq<SurfaceArrays>) -> Seq<u8>
    decreases pieces.len(),
{
    if pieces.len() == 0 {
        Seq::empty()
    } else {
        flat_bits(pieces.drop_last()) + pieces.last().surface_bits@
    }
}

/// The `solid_sides` of `pieces`, one after another.
pub open spec fn flat_sides(pieces: Seq<SurfaceArrays>) -> Seq<u8>
    decreases pieces.len(),
{
    if pieces.len() == 0 {
        Seq::empty()
    } else {
        flat_sides(pieces.drop_last()) + pieces.last().solid_sides@
    }
}

/// The `surface_flag` of `pieces`, one after another.
pub open spec fn flat_flag(pieces: Seq<SurfaceArrays>) -> Seq<u8>
    decreases pieces.len(),
{
    if pieces.len() == 0 {
        Seq::empty()
    } else {
        flat_flag(pieces.drop_last()) + pieces.last().surface_flag@
    }
}

/// How many cells each worker's chunk holds when `n` cells are split `workers` ways: the ceiling
/// of `n / workers`.
pub open spec fn chunk_len(n: int, workers: int) -> int {
    (n + workers - 1) / workers
}

/// The `k`-th chunk of `n` cells in chunks of `c`: `k * c` up to `(k + 1) * c`, or `n` for the
/// last.
pub open spec fn chunk_at(n: int, c: int, k: int) -> (usize, usize) {
    ((k * c) as usize, (if (k + 1) * c <= n {
        (k + 1) * c
    } else {
        n
    }) as usize)
}

/// The chunks `n` cells are split into for `workers` workers, in order: every chunk but the last
/// holds the ceiling of `n / workers` cells, and together they cover `0..n` without gap or
/// overlap.
pub fn chunk_ranges(n: usize, workers: usize) -> (r: Vec<(usize, usize)>)
    requires
        workers >= 1,
    ensures
        forall|k: int|
            0 <= k < r.len() ==> #[trigger] r@[k] == chunk_at(n as int, chunk_len(n as int, workers as int), k),
        forall|k: int| 0 <= k < r.len() ==> (#[trigger] r@[k]).0 < r@[k].1,
        forall|k: int| 0 <= k < r.len() - 1 ==> (#[trigger] r@[k]).1 == r@[k + 1].0,
        n == 0 <==> r.len() == 0,
        n > 0 ==> r@[0].0 == 0 && r@[r.len() - 1].1 == n,
{
    let mut r: Vec<(usize, usize)> = Vec::new();
    if n == 0 {
        return r;
    }
    let q = n / workers;
    let rem = n % workers;
    if rem != 0 {
        assert(q < usize::MAX) by (nonlinear_arith)
            requires
                workers >= 1,
                q == n / workers,
                n % workers != 0,
        {
            assert(workers >= 2);
        }
    }
    let c = if rem == 0 {
        q
    } else {
        q + 1
    };
    proof {
        assert(c == chunk_len(n as int, workers as int)) by (nonlinear_arith)
            requires
                workers >= 1,
                q == n / workers,
                rem == n % workers,
                c == q + if rem == 0 { 0int } else { 1int },
        {}
        assert(c >= 1) by (nonlinear_arith)
            requires
                workers >= 1,
                n >= 1,
                c == q + if rem == 0 { 0int } else { 1int },
                q == n / workers,
                rem == n % workers,
        {}
    }
    let mut start: usize = 0;
    let ghost mut k: int = 0;
    while start < n
        invariant
            c >= 1,
            c == chunk_len(n as int, workers as int),
            0 < n,
            start <= n,
            r.len() == k,
            start == k * c || (start == n && k >= 1),
            start < n ==> start == k * c,
            forall|j: int| 0 <= j < k ==> #[trigger] r@[j] == chunk_at(n as int, c as int, j),
            forall|j: int| 0 <= j < k ==> (#[trigger] r@[j]).0 < r@[j].1,
            forall|j: int| 0 <= j < k - 1 ==> (#[trigger] r@[j]).1 == r@[j + 1].0,
            k > 0 ==> r@[k - 1].1 == start,
            k > 0 ==> r@[0].0 == 0,
            k == 0 ==> start == 0,
        decreases n - start,
    {
        let end = if n - start > c {
            start + c
        } else {
            n
        };
        proof {
            assert((k + 1) * c == k * c + c) by (nonlinear_arith);
            assert(chunk_at(n as int, c as int, k) == (start, end));
        }
        r.push((start, end));
        proof {
            k = k + 1;
            assert(end < n ==> end == k * c) by (nonlinear_arith)
                requires
                    end < n ==> end == start + c,
                    start == (k - 1) * c,
            {}
        }
        start = end;
    }
    r
}

/// Pieces that classify consecutive ranges, concatenated, classify the range they cover: so a
/// derive split across workers gives exactly the arrays a serial one does.
pub proof fn lemma_pieces_concatenate(
    grid: Grid,
    solid: Seq<u8>,
    pieces: Seq<SurfaceArrays>,
    ranges: Seq<(usize, usize)>,
)
    requires
        pieces.len() == ranges.len(),
        pieces.len() > 0,
        forall|k: int| 0 <= k < ranges.len() ==> (#[trigger] ranges[k]).0 <= ranges[k].1,
        forall|k: int| 0 <= k < ranges.len() - 1 ==> (#[trigger] ranges[k]).1 == ranges[k + 1].0,
        forall|k: int|
            0 <= k < pieces.len() ==> (#[trigger] pieces[k]).classifies(
                grid,
                solid,
                ranges[k].0 as int,
                ranges[k].1 - ranges[k].0,
            ),
    ensures
        seqs_classify(
            grid,
            solid,
            flat_bits(pieces),
            flat_sides(pieces),
            flat_flag(pieces),
            ranges[0].0 as int,
            ranges[ranges.len() - 1].1 - ranges[0].0,
        ),
    decreases pieces.len(),
{
    let m = pieces.len() as int;
    let a = ranges[0].0 as int;
    let last = pieces[m - 1];
    let b = ranges[m - 1].0 as int;
    let c = ranges[m - 1].1 as int;
    assert(last.classifies(grid, solid, b, c - b));
    if m == 1 {
        assert(flat_bits(pieces) =~= last.surface_bits@) by {
            assert(pieces.drop_last().len() == 0);
            assert(flat_bits(pieces.drop_last()) == Seq::<u8>::empty());
            assert(flat_bits(pieces) == flat_bits(pieces.drop_last()) + last.surface_bits@);
        }
        assert(flat_sides(pieces) =~= last.solid_sides@) by {
            assert(pieces.drop_last().len() == 0);
            assert(flat_sides(pieces.drop_last()) == Seq::<u8>::empty());
            assert(flat_sides(pieces) == flat_sides(pieces.drop_last()) + last.solid_sides@);
        }
        assert(flat_flag(pieces) =~= last.surface_flag@) by {
            assert(pieces.drop_last().len() == 0);
            assert(flat_flag(pieces.drop_last()) == Seq::<u8>::empty());
            assert(flat_flag(pieces) == flat_flag(pieces.drop_last()) + last.surface_flag@);
        }
    } else {
        let front = pieces.drop_last();
        let fr = ranges.drop_last();
        assert forall|k: int| 0 <= k < fr.len() - 1 implies (#[trigger] fr[k]).1 == fr[k + 1].0 by {
            assert(fr[k] == ranges[k]);
            assert(fr[k + 1] == ranges[k + 1]);
        }
        assert forall|k: int| 0 <= k < front.len() implies (#[trigger] front[k]).classifies(
            grid,
            solid,
            fr[k].0 as int,
            fr[k].1 - fr[k].0,
        ) by {
            assert(front[k] == pieces[k]);
            assert(fr[k] == ranges[k]);
        }
        lemma_pieces_concatenate(grid, solid, front, fr);
        assert(fr[m - 2].1 == b);
        let fb = flat_bits(front);
        let fs = flat_sides(front);
        let ff = flat_flag(front);
        assert(flat_bits(pieces) == fb + last.surface_bits@);
        assert(flat_sides(pieces) == fs + last.solid_sides@);
        assert(flat_flag(pieces) == ff + last.surface_flag@);
        assert forall|k: int| 0 <= k < c - a implies {
            &&& #[trigger] flat_bits(pieces)[k] == bits_at(grid, solid, a + k)
            &&& flat_sides(pieces)[k] == sides_at(grid, solid, a + k)
            &&& flat_flag(pieces)[k] == flag_at(grid, solid, a + k)
        } by {
            if k < b - a {
                assert(fb[k] == bits_at(grid, solid, a + k));
                assert(fs[k] == sides_at(grid, solid, a + k));
                assert(ff[k] == flag_at(grid, solid, a + k));
            } else {
                let j = k - (b - a);
                assert(last.surface_bits@[j] == bits_at(grid, solid, b + j));
                assert(last.solid_sides@[j] == sides_at(grid, solid, b + j));
                assert(last.surface_flag@[j] == flag_at(grid, solid, b + j));
            }
        }
    }
}

/// The pieces, concatenated in order.
pub fn join_pieces(pieces: &Vec<SurfaceArrays>) -> (s: SurfaceArrays)
    ensures
        s.surface_bits@ == flat_bits(pieces@),
        s.solid_sides@ == flat_sides(pieces@),
        s.surface_flag@ == flat_flag(pieces@),
{
    let mut bits: Vec<u8> = Vec::new();
    let mut sides: Vec<u8> = Vec::new();
    let mut flag: Vec<u8> = Vec::new();
    let mut p: usize = 0;
    while p < pieces.len()
        invariant
            p <= pieces.len(),
            bits@ == flat_bits(pieces@.subrange(0, p as int)),
            sides@ == flat_sides(pieces@.subrange(0, p as int)),
            flag@ == flat_flag(pieces@.subrange(0, p as int)),
        decreases pieces.len() - p,
    {
        let piece = &pieces[p];
        let ghost before_b = bits@;
        let ghost before_s = sides@;
        let ghost before_f = flag@;
        append_bytes(&mut bits, &piece.surface_bits);
        append_bytes(&mut sides, &piece.solid_sides);
        append_bytes(&mut flag, &piece.surface_flag);
        proof {
            let next = pieces@.subrange(0, p + 1);
            assert(next.drop_last() =~= pieces@.subrange(0, p as int));
            assert(next.last() == pieces@[p as int]);
        }
        p += 1;
    }
    proof {
        assert(pieces@.subrange(0, pieces.len() as int) =~= pieces@);
    }
    SurfaceArrays { surface_bits: bits, solid_sides: sides, surface_flag: flag }
}

/// Append the bytes of `src` to `dst`.
fn append_bytes(dst: &mut Vec<u8>, src: &Vec<u8>)
    ensures
        final(dst)@ == old(dst)@ + src@,
{
    let ghost start = dst@;
    let mut i: usize = 0;
    while i < src.len()
        invariant
            i <= src.len(),
            dst@ == start + src@.subrange(0, i as int),
        decreases src.len() - i,
    {
        dst.push(src[i]);
        i += 1;
        proof {
            assert(start + src@.subrange(0, i as int) =~= (start + src@.subrange(0, i - 1)).push(
                src@[i - 1],
            ));
        }
    }
    proof {
        assert(src@.subrange(0, src.len() as int) =~= src@);
    }
}

/// How many worker threads a derive of `n` cells should use, given a pool of `available`.
///
/// Kept beside the classifier so the split rule and the work it splits stay together.
pub fn workers_for(n: usize, available: usize) -> (w: usize)
    ensures
        n < 8192 ==> w == 1,
        n >= 8192 ==> w == if available == 0 {
            1
        } else {
            available
        },
{
    if n < 8192 {
        1
    } else if available == 0 {
        1
    } else {
        available
    }
}

/// Shared progress counter, so a caller can report a long derive without locking.
///
/// The count is shared by every clone and may be advanced by other threads at any time, so
/// nothing here states what a read returns.
#[derive(Clone, Debug)]
pub struct Progress(Arc<AtomicUsize>);

impl Progress {
    /// A counter at zero.
    pub fn new() -> (p: Self) {
        Progress(Arc::new(AtomicUsize::new(0)))
    }

    /// Add `k` to the count.
    pub fn add(&self, k: usize) {
        let _ = self.0.fetch_add(k, Ordering::Relaxed);
    }

    /// The count so far.
    pub fn get(&self) -> (n: usize) {
        self.0.load(Ordering::Relaxed)
    }
}

impl Default for Progress {
    fn default() -> (p: Self) {
        Progress::new()
    }
}

} // verus!
