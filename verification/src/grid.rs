//! The cell lattice: addressing and bounds.
//!
//! A [`Grid`] is `dims` cubic cells. Cells are addressed by a FLAT index with x varying fastest:
//!
//! ```text
//! index = c.x + dims.x * (c.y + dims.y * c.z)
//! ```
//!
//! Every array in this crate -- occupancy, the three surface arrays, both component label arrays --
//! is indexed that way, and the derive loops walk them by stride arithmetic rather than by calling
//! back here. That layout is part of the dump format, so it is stated once and
//! never varied.
//!
//! Where the lattice sits in world space (its origin and cell size) is not part of this type: every
//! computation that touches it is floating point and lives with the caller.
use vstd::arithmetic::div_mod::{
    lemma_fundamental_div_mod, lemma_fundamental_div_mod_converse, lemma_mod_bound,
    lemma_multiply_divide_lt,
};
use vstd::prelude::*;

verus! {

/// A cell coordinate. Signed, because a query point may resolve outside the lattice.
pub type Cell = [i32; 3];

/// The sentinel a cell-returning query answers with when there is no such cell.
pub const NO_CELL: Cell = [-1, -1, -1];

/// The six axis neighbours, in the fixed order every bit mask and neighbour walk uses:
/// `-x, +x, -y, +y, -z, +z`, contributing bits `1, 2, 4, 8, 16, 32`.
pub const DIRS: [Cell; 6] = [[-1, 0, 0], [1, 0, 0], [0, -1, 0], [0, 1, 0], [0, 0, -1], [0, 0, 1]];

/// The step of axis direction `d` (0..6) along axis `a` (0..3), as [`DIRS`] lists it.
pub open spec fn dir_step(d: int, a: int) -> int {
    if d == 2 * a {
        -1
    } else if d == 2 * a + 1 {
        1
    } else {
        0
    }
}

/// How many cells `dims` holds: zero if any extent is non-positive.
pub open spec fn cells_of(dims: Cell) -> int {
    if dims[0] <= 0 || dims[1] <= 0 || dims[2] <= 0 {
        0
    } else {
        dims[0] * dims[1] * dims[2]
    }
}

/// Whether `c` addresses a cell of a lattice of `dims`.
pub open spec fn in_bounds_of(dims: Cell, c: Cell) -> bool {
    &&& 0 <= c[0] < dims[0]
    &&& 0 <= c[1] < dims[1]
    &&& 0 <= c[2] < dims[2]
}

/// The flat index of `c`, x fastest.
pub open spec fn index_of(dims: Cell, c: Cell) -> int {
    c[0] + dims[0] * (c[1] + dims[1] * c[2])
}

/// The cell a flat index addresses.
pub open spec fn cell_of(dims: Cell, i: int) -> Cell {
    let (x, y) = (dims[0] as int, dims[1] as int);
    [(i % x) as i32, ((i / x) % y) as i32, ((i / x) / y) as i32]
}

/// The cell one step from `c` in direction `d`.
pub open spec fn step_of(c: Cell, d: int) -> Cell {
    [
        (c[0] + dir_step(d, 0)) as i32,
        (c[1] + dir_step(d, 1)) as i32,
        (c[2] + dir_step(d, 2)) as i32,
    ]
}

/// `dims` cells along x, y and z.
#[derive(Clone, Copy, Debug, PartialEq, Eq)]
pub struct Grid {
    /// Cell counts along x, y and z.
    pub dims: Cell,
}

impl Grid {
    /// The lattice is small enough that every flat index fits an `i32`, as the indexing
    /// arithmetic requires. A lattice with a non-positive extent holds no cells and qualifies.
    pub open spec fn wf(self) -> bool {
        cells_of(self.dims) <= i32::MAX
    }

    /// How many cells the lattice holds.
    pub open spec fn cells(self) -> int {
        cells_of(self.dims)
    }

    /// Whether `c` addresses a cell of this lattice.
    pub open spec fn contains(self, c: Cell) -> bool {
        in_bounds_of(self.dims, c)
    }

    /// The flat index of `c`.
    pub open spec fn index(self, c: Cell) -> int {
        index_of(self.dims, c)
    }

    /// The cell flat index `i` addresses.
    pub open spec fn cell(self, i: int) -> Cell {
        cell_of(self.dims, i)
    }

    /// A lattice of `dims` cells.
    pub fn new(dims: Cell) -> (g: Self)
        ensures
            g.dims == dims,
    {
        Grid { dims }
    }

    /// How many cells the lattice holds. Zero if any extent is non-positive.
    pub fn cell_count(&self) -> (n: usize)
        requires
            cells_of(self.dims) <= usize::MAX,
        ensures
            n == cells_of(self.dims),
    {
        if self.dims[0] <= 0 || self.dims[1] <= 0 || self.dims[2] <= 0 {
            return 0;
        }
        let x = self.dims[0] as usize;
        let y = self.dims[1] as usize;
        let z = self.dims[2] as usize;
        proof {
            lemma_product_bounds(self.dims[0] as int, self.dims[1] as int, self.dims[2] as int);
        }
        x * y * z
    }

    /// Whether `c` addresses a cell of this lattice.
    pub fn in_bounds(&self, c: Cell) -> (b: bool)
        ensures
            b == in_bounds_of(self.dims, c),
    {
        c[0] >= 0 && c[1] >= 0 && c[2] >= 0 && c[0] < self.dims[0] && c[1] < self.dims[1] && c[2]
            < self.dims[2]
    }

    /// The flat index of `c`, which must be in bounds.
    pub fn cell_index(&self, c: Cell) -> (i: usize)
        requires
            self.wf(),
            in_bounds_of(self.dims, c),
        ensures
            i == index_of(self.dims, c),
            i < cells_of(self.dims),
    {
        proof {
            lemma_index_bounds(self.dims, c);
        }
        (c[0] + self.dims[0] * (c[1] + self.dims[1] * c[2])) as usize
    }

    /// The cell a flat index addresses. Inverse of [`Grid::cell_index`].
    pub fn index_cell(&self, i: usize) -> (c: Cell)
        requires
            self.dims[0] > 0,
            self.dims[1] > 0,
            i <= i32::MAX,
        ensures
            c == cell_of(self.dims, i as int),
    {
        let dx = self.dims[0] as usize;
        let dy = self.dims[1] as usize;
        let x = i % dx;
        let rest = i / dx;
        proof {
            lemma_fundamental_div_mod(i as int, dx as int);
            lemma_mod_bound(i as int, dx as int);
            lemma_mod_bound(rest as int, dy as int);
            assert(rest <= i) by (nonlinear_arith)
                requires
                    rest == i / dx,
                    dx >= 1,
            ;
            assert(rest / dy <= rest) by (nonlinear_arith)
                requires
                    dy >= 1,
            ;
        }
        [x as i32, (rest % dy) as i32, (rest / dy) as i32]
    }

    /// The flat-index steps for the six [`DIRS`], in the same order.
    pub fn neighbour_strides(&self) -> (s: [isize; 6])
        requires
            -self.dims[0] <= isize::MAX,
            isize::MIN < self.dims[0] * self.dims[1] <= isize::MAX,
        ensures
            s@ == seq![
                -1isize,
                1isize,
                -self.dims[0] as isize,
                self.dims[0] as isize,
                -(self.dims[0] * self.dims[1]) as isize,
                (self.dims[0] * self.dims[1]) as isize,
            ],
    {
        let dx = self.dims[0] as isize;
        assert(isize::MIN < dx * self.dims[1] <= isize::MAX);
        let plane = dx * self.dims[1] as isize;
        [-1, 1, -dx, dx, -plane, plane]
    }
}

/// The partial products of three positive extents are bounded by the full product.
pub proof fn lemma_product_bounds(x: int, y: int, z: int)
    requires
        x > 0,
        y > 0,
        z > 0,
    ensures
        x * y <= x * y * z,
        x * y >= x,
        x * y >= y,
        x * y * z >= z,
{
    assert(x * y <= x * y * z) by (nonlinear_arith)
        requires
            x > 0,
            y > 0,
            z > 0,
    ;
    assert(x * y >= x) by (nonlinear_arith)
        requires
            x > 0,
            y > 0,
    ;
    assert(x * y >= y) by (nonlinear_arith)
        requires
            x > 0,
            y > 0,
    ;
    assert(x * y * z >= z) by (nonlinear_arith)
        requires
            x > 0,
            y > 0,
            z > 0,
    ;
}

/// An in-bounds cell's flat index, and every partial sum on the way to it, lies in the lattice.
pub proof fn lemma_index_bounds(dims: Cell, c: Cell)
    requires
        in_bounds_of(dims, c),
    ensures
        0 <= c[1] + dims[1] * c[2] < dims[1] * dims[2],
        0 <= dims[1] * c[2] <= dims[1] * dims[2],
        0 <= dims[0] * (c[1] + dims[1] * c[2]) <= index_of(dims, c),
        0 <= index_of(dims, c) < cells_of(dims),
        dims[1] * dims[2] <= cells_of(dims),
{
    let (x, y, z) = (dims[0] as int, dims[1] as int, dims[2] as int);
    assert(y * z <= x * y * z) by (nonlinear_arith)
        requires
            x >= 1,
            y >= 1,
            z >= 1,
    ;
    let (a, b, e) = (c[0] as int, c[1] as int, c[2] as int);
    assert(0 <= b + y * e < y * z && 0 <= y * e <= y * z) by (nonlinear_arith)
        requires
            0 <= b < y,
            0 <= e < z,
    ;
    let q = b + y * e;
    assert(0 <= x * q && a + x * q < x * (y * z)) by (nonlinear_arith)
        requires
            0 <= a < x,
            0 <= q < y * z,
    ;
    assert(x * (y * z) == x * y * z) by (nonlinear_arith);
}

/// Round trip one way: an in-bounds cell is recovered from its flat index.
pub proof fn lemma_cell_of_index(dims: Cell, c: Cell)
    requires
        in_bounds_of(dims, c),
    ensures
        cell_of(dims, index_of(dims, c)) == c,
{
    lemma_index_bounds(dims, c);
    let (x, y) = (dims[0] as int, dims[1] as int);
    let q = c[1] + y * c[2];
    let i = index_of(dims, c);
    assert(i == q * x + c[0]) by (nonlinear_arith)
        requires
            i == c[0] + x * q,
    ;
    lemma_fundamental_div_mod_converse(i, x, q, c[0] as int);
    assert(q == c[2] * y + c[1]) by (nonlinear_arith)
        requires
            q == c[1] + y * c[2],
    ;
    lemma_fundamental_div_mod_converse(q, y, c[2] as int, c[1] as int);
    let r = cell_of(dims, i);
    assert(r[0] == c[0] && r[1] == c[1] && r[2] == c[2]);
    assert(r =~= c);
}

/// Round trip the other way: every flat index of the lattice addresses an in-bounds cell whose
/// index it is.
pub proof fn lemma_index_of_cell(dims: Cell, i: int)
    requires
        0 <= i < cells_of(dims),
    ensures
        in_bounds_of(dims, cell_of(dims, i)),
        index_of(dims, cell_of(dims, i)) == i,
{
    let (x, y, z) = (dims[0] as int, dims[1] as int, dims[2] as int);
    assert(x > 0 && y > 0 && z > 0);
    let q = i / x;
    lemma_fundamental_div_mod(i, x);
    lemma_mod_bound(i, x);
    assert(i < x * (y * z)) by (nonlinear_arith)
        requires
            i < x * y * z,
    ;
    lemma_multiply_divide_lt(i, x, y * z);
    assert(q >= 0) by (nonlinear_arith)
        requires
            q == i / x,
            i >= 0,
            x > 0,
    ;
    lemma_fundamental_div_mod(q, y);
    lemma_mod_bound(q, y);
    lemma_multiply_divide_lt(q, y, z);
    assert(q / y >= 0) by (nonlinear_arith)
        requires
            q >= 0,
            y > 0,
    ;
    let c = cell_of(dims, i);
    assert(c[0] == i % x && c[1] == q % y && c[2] == q / y);
    assert(index_of(dims, c) == i) by (nonlinear_arith)
        requires
            c[0] == i % x,
            c[1] == q % y,
            c[2] == q / y,
            i == x * q + i % x,
            q == y * (q / y) + q % y,
            index_of(dims, c) == c[0] + x * (c[1] + y * c[2]),
    ;
}

/// Flat indexing is a bijection between the in-bounds cells and `0..cell_count`: the round trip
/// holds both ways.
pub proof fn lemma_index_round_trip(g: Grid, c: Cell, i: int)
    ensures
        g.contains(c) ==> g.cell(g.index(c)) == c && 0 <= g.index(c) < g.cells(),
        0 <= i < g.cells() ==> g.contains(g.cell(i)) && g.index(g.cell(i)) == i,
{
    if g.contains(c) {
        lemma_cell_of_index(g.dims, c);
        lemma_index_bounds(g.dims, c);
    }
    if 0 <= i < g.cells() {
        lemma_index_of_cell(g.dims, i);
    }
}

} // verus!
