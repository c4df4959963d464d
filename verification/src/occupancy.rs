//! The occupancy grid: which cells hold solid material.
//!
//! This is the ONE input the derive phases read. A cell nothing wrote is FREE: a caller may sample
//! only the neighbourhoods where geometry can possibly be, and leave the rest untouched.
//! Everything here treats a zero byte as "free" without asking how it got that way.
use crate::grid::{cell_of, cells_of, lemma_index_of_cell, Cell, Grid};
use vstd::prelude::*;

verus! {

/// A lattice plus one byte per cell: non-zero means solid.
#[derive(Clone, Debug)]
pub struct Occupancy {
    /// The lattice these bytes address.
    pub grid: Grid,
    /// One byte per cell, flat-indexed. Non-zero is solid.
    pub solid: Vec<u8>,
}

/// Whether flat index `i` of `solid` is a solid cell.
pub open spec fn solid_index(solid: Seq<u8>, i: int) -> bool {
    0 <= i < solid.len() && solid[i] != 0
}

/// `lo..=hi` is exactly the cell-space box of the solid cells of `solid`: every solid cell lies
/// inside it, and each of its six faces is reached by some solid cell.
pub open spec fn is_bbox(grid: Grid, solid: Seq<u8>, lo: Cell, hi: Cell) -> bool {
    &&& forall|i: int|
        #![trigger solid_index(solid, i)]
        solid_index(solid, i) ==> {
            let c = grid.cell(i);
            &&& lo[0] <= c[0] <= hi[0]
            &&& lo[1] <= c[1] <= hi[1]
            &&& lo[2] <= c[2] <= hi[2]
        }
    &&& reached(grid, solid, 0, lo[0]) && reached(grid, solid, 1, lo[1]) && reached(grid, solid, 2, lo[2])
    &&& reached(grid, solid, 0, hi[0]) && reached(grid, solid, 1, hi[1]) && reached(grid, solid, 2, hi[2])
}

/// Some solid cell of `solid` has coordinate `v` on axis `a`.
pub open spec fn reached(grid: Grid, solid: Seq<u8>, a: int, v: i32) -> bool {
    exists|i: int| #[trigger] solid_index(solid, i) && grid.cell(i)[a] == v
}

/// Solid cell `w`, below `bound`, has coordinate `v` on axis `a`.
pub open spec fn witnesses(grid: Grid, solid: Seq<u8>, w: int, a: int, v: i32, bound: int) -> bool {
    &&& 0 <= w < bound
    &&& solid_index(solid, w)
    &&& grid.cell(w)[a] == v
}

/// Whether any cell of `solid` is solid.
pub open spec fn any_solid(solid: Seq<u8>) -> bool {
    exists|i: int| #[trigger] solid_index(solid, i)
}

impl Occupancy {
    /// One byte per cell of a lattice whose flat indices fit the indexing arithmetic.
    pub open spec fn wf(&self) -> bool {
        &&& self.grid.wf()
        &&& self.solid.len() == self.grid.cells()
    }

    /// An all-free grid of the right size.
    pub fn empty(grid: Grid) -> (o: Self)
        requires
            grid.wf(),
        ensures
            o.wf(),
            o.grid == grid,
            o.solid@ == Seq::new(grid.cells() as nat, |i: int| 0u8),
    {
        let n = grid.cell_count();
        let mut solid: Vec<u8> = Vec::new();
        let mut k: usize = 0;
        while k < n
            invariant
                k <= n,
                solid@ == Seq::new(k as nat, |i: int| 0u8),
            decreases n - k,
        {
            solid.push(0);
            k += 1;
        }
        Occupancy { grid, solid }
    }

    /// Wrap caller-supplied occupancy. `None` if `solid` is not exactly one byte per cell.
    pub fn new(grid: Grid, solid: Vec<u8>) -> (r: Option<Self>)
        requires
            cells_of(grid.dims) <= usize::MAX,
        ensures
            r is None <==> solid.len() != cells_of(grid.dims),
            r matches Some(o) ==> o.grid == grid && o.solid@ == solid@,
    {
        if solid.len() != grid.cell_count() {
            return None;
        }
        Some(Occupancy { grid, solid })
    }

    /// Whether the cell at flat index `i` is solid.
    pub fn is_solid_index(&self, i: usize) -> (b: bool)
        requires
            i < self.solid.len(),
        ensures
            b == (self.solid@[i as int] != 0),
    {
        self.solid[i] != 0
    }

    /// The inclusive cell-space bounding box of the solid cells, or `None` when none are solid.
    ///
    /// `None` means every cell of a SURFACE pass skips its neighbourhood scan: with no solid cell
    /// there is nothing any neighbourhood could contain.
    pub fn solid_bbox(&self) -> (r: Option<(Cell, Cell)>)
        requires
            self.wf(),
        ensures
            r is None <==> !any_solid(self.solid@),
            r matches Some((lo, hi)) ==> is_bbox(self.grid, self.solid@, lo, hi),
    {
        let n = self.solid.len();
        let mut lo: Cell = [i32::MAX, i32::MAX, i32::MAX];
        let mut hi: Cell = [i32::MIN, i32::MIN, i32::MIN];
        let mut any = false;
        let ghost mut wlo: Seq<int> = seq![0int, 0int, 0int];
        let ghost mut whi: Seq<int> = seq![0int, 0int, 0int];
        let mut i: usize = 0;
        while i < n
            invariant
                n == self.solid.len(),
                self.wf(),
                i <= n,
                wlo.len() == 3,
                whi.len() == 3,
                any <==> exists|j: int| 0 <= j < i && #[trigger] solid_index(self.solid@, j),
                forall|j: int|
                    #![trigger solid_index(self.solid@, j)]
                    0 <= j < i && solid_index(self.solid@, j) ==> {
                        let c = self.grid.cell(j);
                        &&& lo[0] <= c[0] <= hi[0]
                        &&& lo[1] <= c[1] <= hi[1]
                        &&& lo[2] <= c[2] <= hi[2]
                    },
                any ==> {
                    &&& witnesses(self.grid, self.solid@, wlo[0], 0, lo[0], i as int)
                    &&& witnesses(self.grid, self.solid@, wlo[1], 1, lo[1], i as int)
                    &&& witnesses(self.grid, self.solid@, wlo[2], 2, lo[2], i as int)
                    &&& witnesses(self.grid, self.solid@, whi[0], 0, hi[0], i as int)
                    &&& witnesses(self.grid, self.solid@, whi[1], 1, hi[1], i as int)
                    &&& witnesses(self.grid, self.solid@, whi[2], 2, hi[2], i as int)
                },
            decreases n - i,
        {
            if self.solid[i] != 0 {
                proof {
                    lemma_index_of_cell(self.grid.dims, i as int);
                }
                let c = self.grid.index_cell(i);
                let first = !any;
                any = true;
                if first || c[0] < lo[0] {
                    lo = [c[0], lo[1], lo[2]];
                    proof { wlo = wlo.update(0, i as int); }
                }
                if first || c[1] < lo[1] {
                    lo = [lo[0], c[1], lo[2]];
                    proof { wlo = wlo.update(1, i as int); }
                }
                if first || c[2] < lo[2] {
                    lo = [lo[0], lo[1], c[2]];
                    proof { wlo = wlo.update(2, i as int); }
                }
                if first || c[0] > hi[0] {
                    hi = [c[0], hi[1], hi[2]];
                    proof { whi = whi.update(0, i as int); }
                }
                if first || c[1] > hi[1] {
                    hi = [hi[0], c[1], hi[2]];
                    proof { whi = whi.update(1, i as int); }
                }
                if first || c[2] > hi[2] {
                    hi = [hi[0], hi[1], c[2]];
                    proof { whi = whi.update(2, i as int); }
                }
                assert(solid_index(self.solid@, i as int));
            }
            i += 1;
        }
        if any {
            proof {
                assert(solid_index(self.solid@, wlo[0]) && solid_index(self.solid@, wlo[1])
                    && solid_index(self.solid@, wlo[2]));
                assert(solid_index(self.solid@, whi[0]) && solid_index(self.solid@, whi[1])
                    && solid_index(self.solid@, whi[2]));
            }
            Some((lo, hi))
        } else {
            None
        }
    }
}

} // verus!
