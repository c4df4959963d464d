//! A finished navigation volume: occupancy plus everything derived from it.
//!
//! Built once and then read-only. A caller that wants to change one publishes a replacement
//! rather than mutating in place.
use crate::components::{
    is_canonical_labelling, label_components, lemma_canonical_labelling_unique, pass_graph,
    NO_COMPONENT,
};
use crate::grid::{
    cells_of, dir_step, lemma_index_of_cell, lemma_index_round_trip, Cell, Grid, NO_CELL,
};
use crate::occupancy::Occupancy;
use crate::surface::{bits_at, derive_surface, flag_at, near_solid, sides_at, SurfaceArrays};
use vstd::prelude::*;

verus! {

/// Occupancy plus the five derived arrays.
#[derive(Clone, Debug, PartialEq)]
pub struct Volume {
    /// The lattice.
    pub grid: Grid,
    /// One byte per cell; non-zero is solid.
    pub solid: Vec<u8>,
    /// Bit per solid axis neighbour, in [`crate::grid::DIRS`] order.
    pub surface_bits: Vec<u8>,
    /// Popcount of `surface_bits`.
    pub solid_sides: Vec<u8>,
    /// 1 when a free cell has solid in its 26-neighbourhood.
    pub surface_flag: Vec<u8>,
    /// Free-graph component label per cell, -1 outside the graph.
    pub comp_free: Vec<i32>,
    /// Surface-graph component label per cell, -1 outside the graph.
    pub comp_surf: Vec<i32>,
}

impl Volume {
    /// Every array holds one entry per cell of a lattice whose indices fit the arithmetic.
    pub open spec fn wf(&self) -> bool {
        &&& self.grid.wf()
        &&& self.solid.len() == self.grid.cells()
        &&& self.surface_bits.len() == self.grid.cells()
        &&& self.solid_sides.len() == self.grid.cells()
        &&& self.surface_flag.len() == self.grid.cells()
        &&& self.comp_free.len() == self.grid.cells()
        &&& self.comp_surf.len() == self.grid.cells()
    }

    /// The occupancy the volume carries.
    pub open spec fn occ(&self) -> Occupancy {
        Occupancy { grid: self.grid, solid: self.solid }
    }

    /// The five derived arrays are exactly what SURFACE and COMPONENTS derive from `solid`.
    pub open spec fn is_derived(&self) -> bool {
        &&& (SurfaceArrays {
            surface_bits: self.surface_bits,
            solid_sides: self.solid_sides,
            surface_flag: self.surface_flag,
        }).classifies(self.grid, self.solid@, 0, self.grid.cells())
        &&& is_canonical_labelling(pass_graph(self.occ(), self.surface_flag@, false), self.comp_free@)
        &&& is_canonical_labelling(pass_graph(self.occ(), self.surface_flag@, true), self.comp_surf@)
    }

    /// The label of flat index `i` in the graph a mover of this kind uses.
    pub open spec fn label(&self, i: int, surface_only: bool) -> i32 {
        if surface_only {
            self.comp_surf@[i]
        } else {
            self.comp_free@[i]
        }
    }

    /// Whether `c` is in bounds and not solid.
    pub open spec fn free_at(&self, c: Cell) -> bool {
        self.grid.contains(c) && self.solid@[self.grid.index(c)] == 0
    }

    /// Whether `c` is in bounds and carries the surface flag.
    pub open spec fn surface_at(&self, c: Cell) -> bool {
        self.grid.contains(c) && self.surface_flag@[self.grid.index(c)] != 0
    }

    /// Whether the scan that starts at `start` finds a cell of `comp` at offset `off`.
    pub open spec fn scan_hits(&self, comp: i32, surface_only: bool, start: int, off: int) -> bool {
        self.label((start + off) % self.grid.cells(), surface_only) == comp
    }

    /// The first flat index of component `comp` the scan meets, walking forward from `start + off`
    /// and wrapping, or -1 when it meets none before coming back round.
    pub open spec fn first_hit(&self, comp: i32, surface_only: bool, start: int, off: int) -> int
        decreases self.grid.cells() - off,
    {
        if off >= self.grid.cells() || off < 0 {
            -1
        } else if self.scan_hits(comp, surface_only, start, off) {
            (start + off) % self.grid.cells()
        } else {
            self.first_hit(comp, surface_only, start, off + 1)
        }
    }

    /// What [`Volume::random_cell_in_component_from`] answers.
    pub open spec fn drawn_cell(&self, comp: i32, surface_only: bool, draw: u64) -> Cell {
        let n = self.grid.cells();
        if n == 0 || comp < 0 {
            NO_CELL
        } else {
            let j = self.first_hit(comp, surface_only, (draw % (n as u64)) as int, 0);
            if j < 0 {
                NO_CELL
            } else {
                self.grid.cell(j)
            }
        }
    }

    /// Derive everything from occupancy. The result does not depend on `workers`.
    pub fn derive(occ: &Occupancy, workers: usize) -> (v: Self)
        requires
            occ.wf(),
        ensures
            v.wf(),
            v.grid == occ.grid,
            v.solid@ == occ.solid@,
            v.is_derived(),
    {
        let surf = derive_surface(occ, workers);
        let (comp_free, comp_surf) = label_components(occ, &surf);
        let solid = clone_bytes(&occ.solid);
        let v = Volume {
            grid: occ.grid,
            solid,
            surface_bits: surf.surface_bits,
            solid_sides: surf.solid_sides,
            surface_flag: surf.surface_flag,
            comp_free,
            comp_surf,
        };
        proof {
            assert(v.occ().grid == occ.grid);
            assert(v.occ().solid@ == occ.solid@);
            assert(pass_graph(v.occ(), v.surface_flag@, false) == pass_graph(*occ, v.surface_flag@, false));
            assert(pass_graph(v.occ(), v.surface_flag@, true) == pass_graph(*occ, v.surface_flag@, true));
        }
        v
    }

    /// Assemble from arrays that were derived elsewhere. Used by the dump reader.
    pub fn from_parts(
        grid: Grid,
        solid: Vec<u8>,
        surf: SurfaceArrays,
        comp_free: Vec<i32>,
        comp_surf: Vec<i32>,
    ) -> (v: Self)
        ensures
            v.grid == grid,
            v.solid@ == solid@,
            v.surface_bits@ == surf.surface_bits@,
            v.solid_sides@ == surf.solid_sides@,
            v.surface_flag@ == surf.surface_flag@,
            v.comp_free@ == comp_free@,
            v.comp_surf@ == comp_surf@,
    {
        Volume {
            grid,
            solid,
            surface_bits: surf.surface_bits,
            solid_sides: surf.solid_sides,
            surface_flag: surf.surface_flag,
            comp_free,
            comp_surf,
        }
    }

    /// The occupancy this volume was derived from.
    pub fn occupancy(&self) -> (o: Occupancy)
        ensures
            o.grid == self.grid,
            o.solid@ == self.solid@,
    {
        Occupancy { grid: self.grid, solid: clone_bytes(&self.solid) }
    }

    /// How many cells the volume holds.
    pub fn cell_count(&self) -> (n: usize)
        requires
            self.wf(),
        ensures
            n == self.grid.cells(),
    {
        self.grid.cell_count()
    }

    /// Whether `c` is in bounds and not solid.
    pub fn is_free_cell(&self, c: Cell) -> (b: bool)
        requires
            self.wf(),
        ensures
            b == self.free_at(c),
    {
        self.grid.in_bounds(c) && self.solid[self.grid.cell_index(c)] == 0
    }

    /// Whether `c` is in bounds and carries the surface flag.
    pub fn is_surface_cell(&self, c: Cell) -> (b: bool)
        requires
            self.wf(),
        ensures
            b == self.surface_at(c),
    {
        self.grid.in_bounds(c) && self.surface_flag[self.grid.cell_index(c)] != 0
    }

    /// Whether `c` may be stood in by a mover of this kind: free, and on the surface when the
    /// mover is restricted to it.
    pub fn is_usable_cell(&self, c: Cell, surface_only: bool) -> (b: bool)
        requires
            self.wf(),
        ensures
            b == (self.free_at(c) && (!surface_only || self.surface_at(c))),
    {
        self.is_free_cell(c) && (!surface_only || self.is_surface_cell(c))
    }

    /// The component label of a cell by flat index.
    pub fn label_at_index(&self, i: usize, surface_only: bool) -> (l: i32)
        requires
            self.wf(),
            i < self.grid.cells(),
        ensures
            l == self.label(i as int, surface_only),
    {
        if surface_only {
            self.comp_surf[i]
        } else {
            self.comp_free[i]
        }
    }

    /// A cell of component `comp`, chosen by scanning forward from `draw % cell_count` and
    /// wrapping, or [`NO_CELL`] when the component has no cell.
    ///
    /// The caller supplies one integer from whatever generator it already has. Every member is
    /// reachable ([`Volume::lemma_every_member_drawable`]) and the answer is a pure function of
    /// `draw`.
    pub fn random_cell_in_component_from(&self, comp: i32, surface_only: bool, draw: u64) -> (c:
        Cell)
        requires
            self.wf(),
        ensures
            c == self.drawn_cell(comp, surface_only, draw),
    {
        let n = self.cell_count();
        if n == 0 || comp < 0 {
            return NO_CELL;
        }
        let start = (draw % (n as u64)) as usize;
        let mut off: usize = 0;
        while off < n
            invariant
                self.wf(),
                n == self.grid.cells(),
                n > 0,
                comp >= 0,
                start < n,
                start == draw % (n as u64),
                off <= n,
                self.first_hit(comp, surface_only, start as int, 0) == self.first_hit(
                    comp,
                    surface_only,
                    start as int,
                    off as int,
                ),
            decreases n - off,
        {
            let j = (start + off) % n;
            if self.label_at_index(j, surface_only) == comp {
                proof {
                    lemma_index_of_cell(self.grid.dims, j as int);
                }
                return self.grid.index_cell(j);
            }
            off += 1;
        }
        NO_CELL
    }

    /// Deriving is a function of the occupancy alone: two derived volumes over the same lattice
    /// and the same solid bytes hold the same five arrays. So a dump re-derived from its `solid`
    /// reproduces what it carried exactly when it was derived by these rules.
    pub proof fn lemma_derived_is_unique(a: Volume, b: Volume)
        requires
            a.wf(),
            b.wf(),
            a.is_derived(),
            b.is_derived(),
            a.grid == b.grid,
            a.solid@ == b.solid@,
        ensures
            a.surface_bits@ == b.surface_bits@,
            a.solid_sides@ == b.solid_sides@,
            a.surface_flag@ == b.surface_flag@,
            a.comp_free@ == b.comp_free@,
            a.comp_surf@ == b.comp_surf@,
    {
        let n = a.grid.cells();
        assert forall|k: int| 0 <= k < n implies a.surface_bits@[k] == b.surface_bits@[k] && a.solid_sides@[k]
            == b.solid_sides@[k] && a.surface_flag@[k] == b.surface_flag@[k] by {
            assert(a.surface_bits@[k] == bits_at(a.grid, a.solid@, 0 + k));
            assert(b.surface_bits@[k] == bits_at(b.grid, b.solid@, 0 + k));
            assert(a.solid_sides@[k] == sides_at(a.grid, a.solid@, 0 + k));
            assert(b.solid_sides@[k] == sides_at(b.grid, b.solid@, 0 + k));
            assert(a.surface_flag@[k] == flag_at(a.grid, a.solid@, 0 + k));
            assert(b.surface_flag@[k] == flag_at(b.grid, b.solid@, 0 + k));
        }
        assert(a.surface_bits@ =~= b.surface_bits@);
        assert(a.solid_sides@ =~= b.solid_sides@);
        assert(a.surface_flag@ =~= b.surface_flag@);
        assert(pass_graph(a.occ(), a.surface_flag@, false) == pass_graph(b.occ(), b.surface_flag@, false));
        assert(pass_graph(a.occ(), a.surface_flag@, true) == pass_graph(b.occ(), b.surface_flag@, true));
        lemma_canonical_labelling_unique(pass_graph(a.occ(), a.surface_flag@, false), a.comp_free@, b.comp_free@);
        lemma_canonical_labelling_unique(pass_graph(a.occ(), a.surface_flag@, true), a.comp_surf@, b.comp_surf@);
    }

    /// The component label of cell `c` in the graph a mover of this kind uses, or
    /// [`NO_COMPONENT`] when `c` is outside the lattice.
    pub fn component_of_cell(&self, c: Cell, surface_only: bool) -> (l: i32)
        requires
            self.wf(),
        ensures
            l == (if self.grid.contains(c) {
                self.label(self.grid.index(c), surface_only)
            } else {
                NO_COMPONENT
            }),
    {
        if !self.grid.in_bounds(c) {
            return NO_COMPONENT;
        }
        self.label_at_index(self.grid.cell_index(c), surface_only)
    }

    /// The sum of the outward directions (away from the solid) of the solid face neighbours of
    /// `c`, as its surface bits record them; zero outside the lattice. Normalised, this is the
    /// direction a mover on the surface at `c` should lean away from.
    pub fn outward_at(&self, c: Cell) -> (v: Cell)
        requires
            self.wf(),
        ensures
            v == (if self.grid.contains(c) {
                outward_of(self.surface_bits@[self.grid.index(c)])
            } else {
                [0i32, 0i32, 0i32]
            }),
    {
        if !self.grid.in_bounds(c) {
            return [0, 0, 0];
        }
        let bits = self.surface_bits[self.grid.cell_index(c)];
        let x: i32 = (if bits & 1 != 0 { 1 } else { 0 }) - (if bits & 2 != 0 { 1 } else { 0 });
        let y: i32 = (if bits & 4 != 0 { 1 } else { 0 }) - (if bits & 8 != 0 { 1 } else { 0 });
        let z: i32 = (if bits & 16 != 0 { 1 } else { 0 }) - (if bits & 32 != 0 { 1 } else { 0 });
        [x, y, z]
    }

    /// The scan from `start` meets component `comp` whenever some offset `t` at or after `off`
    /// (and before coming back round) hits it.
    proof fn lemma_first_hit_finds(&self, comp: i32, surface_only: bool, start: int, off: int, t: int)
        requires
            0 <= off <= t < self.grid.cells(),
            self.scan_hits(comp, surface_only, start, t),
        ensures
            self.first_hit(comp, surface_only, start, off) >= 0,
        decreases t - off,
    {
        if !self.scan_hits(comp, surface_only, start, off) {
            self.lemma_first_hit_finds(comp, surface_only, start, off + 1, t);
        }
    }

    /// A component that has a cell is never missed: whatever the draw, the scan wraps round the
    /// whole lattice, so the answer is a cell of that component and never [`NO_CELL`].
    pub proof fn lemma_draw_finds_every_nonempty_component(
        &self,
        comp: i32,
        surface_only: bool,
        draw: u64,
        j: int,
    )
        requires
            self.wf(),
            0 <= j < self.grid.cells(),
            comp >= 0,
            self.label(j, surface_only) == comp,
        ensures
            self.drawn_cell(comp, surface_only, draw) != NO_CELL,
            self.grid.contains(self.drawn_cell(comp, surface_only, draw)),
            self.label(self.grid.index(self.drawn_cell(comp, surface_only, draw)), surface_only)
                == comp,
    {
        let n = self.grid.cells();
        let start = (draw % (n as u64)) as int;
        assert(0 <= start < n);
        let t = if j >= start {
            j - start
        } else {
            j - start + n
        };
        assert((start + t) % n == j) by {
            vstd::arithmetic::div_mod::lemma_small_mod(j as nat, n as nat);
            if j < start {
                vstd::arithmetic::div_mod::lemma_mod_add_multiples_vanish(j, n);
            }
        }
        assert(self.scan_hits(comp, surface_only, start, t));
        self.lemma_first_hit_finds(comp, surface_only, start, 0, t);
        self.lemma_first_hit_is_member(comp, surface_only, start, 0);
        let k = self.first_hit(comp, surface_only, start, 0);
        lemma_index_round_trip(self.grid, NO_CELL, k);
        self.lemma_draw_lands_in_component(comp, surface_only, draw);
    }

    /// On a derived volume a cell is a surface cell exactly when it is a free cell of the lattice
    /// with a solid cell somewhere in its 26-neighbourhood; so a mover restricted to the surface
    /// may stand exactly on the free cells that touch solid at a face, an edge or a corner.
    pub proof fn lemma_surface_cell_touches_solid(&self, c: Cell, surface_only: bool)
        requires
            self.wf(),
            self.is_derived(),
        ensures
            self.surface_at(c) <==> (self.grid.contains(c) && flag_at(
                self.grid,
                self.solid@,
                self.grid.index(c),
            ) == 1),
            self.surface_at(c) <==> (self.grid.contains(c) && self.solid@[self.grid.index(c)] == 0
                && near_solid(self.grid, self.solid@, c)),
            (self.free_at(c) && (!surface_only || self.surface_at(c))) <==> (self.grid.contains(c)
                && self.solid@[self.grid.index(c)] == 0 && (!surface_only || near_solid(
                self.grid,
                self.solid@,
                c,
            ))),
    {
        if self.grid.contains(c) {
            lemma_index_round_trip(self.grid, c, 0);
            let i = self.grid.index(c);
            assert(self.surface_flag@[i] == flag_at(self.grid, self.solid@, 0 + i));
        }
    }

    /// A cell the draw lands on belongs to the component it was asked for.
    pub proof fn lemma_draw_lands_in_component(&self, comp: i32, surface_only: bool, draw: u64)
        requires
            self.wf(),
            self.drawn_cell(comp, surface_only, draw) != NO_CELL,
        ensures
            comp >= 0,
            self.grid.contains(self.drawn_cell(comp, surface_only, draw)),
            self.label(
                self.grid.index(self.drawn_cell(comp, surface_only, draw)),
                surface_only,
            ) == comp,
    {
        let n = self.grid.cells();
        let start = (draw % (n as u64)) as int;
        self.lemma_first_hit_is_member(comp, surface_only, start, 0);
        let j = self.first_hit(comp, surface_only, start, 0);
        lemma_index_of_cell(self.grid.dims, j);
    }

    /// Whatever the scan returns is an in-range index of component `comp`.
    pub proof fn lemma_first_hit_is_member(
        &self,
        comp: i32,
        surface_only: bool,
        start: int,
        off: int,
    )
        requires
            self.grid.cells() > 0,
        ensures
            self.first_hit(comp, surface_only, start, off) >= 0 ==> {
                let j = self.first_hit(comp, surface_only, start, off);
                &&& 0 <= j < self.grid.cells()
                &&& self.label(j, surface_only) == comp
            },
        decreases self.grid.cells() - off,
    {
        if 0 <= off < self.grid.cells() && !self.scan_hits(comp, surface_only, start, off) {
            self.lemma_first_hit_is_member(comp, surface_only, start, off + 1);
        }
    }

    /// Every cell of a component is some draw's answer: drawing its own flat index lands on it.
    pub proof fn lemma_every_member_drawable(&self, comp: i32, surface_only: bool, j: int)
        requires
            self.wf(),
            0 <= j < self.grid.cells(),
            comp >= 0,
            self.label(j, surface_only) == comp,
        ensures
            self.drawn_cell(comp, surface_only, j as u64) == self.grid.cell(j),
    {
        let n = self.grid.cells();
        vstd::arithmetic::div_mod::lemma_small_mod(j as nat, n as nat);
        assert(((j as u64) % (n as u64)) as int == j);
        assert((j + 0) % n == j);
        assert(self.scan_hits(comp, surface_only, j, 0));
    }
}

/// The sum of the outward directions of the face neighbours `bits` marks solid: a solid `-x`
/// neighbour (bit 1) points `+x`, a solid `+x` neighbour (bit 2) points `-x`, and so on along y
/// (bits 4 and 8) and z (bits 16 and 32).
pub open spec fn outward_of(bits: u8) -> Cell {
    [
        ((if bits & 1 != 0 { 1int } else { 0int }) - (if bits & 2 != 0 { 1int } else { 0int })) as i32,
        ((if bits & 4 != 0 { 1int } else { 0int }) - (if bits & 8 != 0 { 1int } else { 0int })) as i32,
        ((if bits & 16 != 0 { 1int } else { 0int }) - (if bits & 32 != 0 { 1int } else { 0int })) as i32,
    ]
}

/// The value of bit `d` (0..6) of a surface mask: 1, 2, 4, 8, 16, 32.
pub open spec fn dir_weight(d: int) -> int {
    if d == 0 {
        1
    } else if d == 1 {
        2
    } else if d == 2 {
        4
    } else if d == 3 {
        8
    } else if d == 4 {
        16
    } else {
        32
    }
}

/// Whether `bits` records a solid face neighbour in direction `d`.
pub open spec fn has_dir(bits: u8, d: int) -> bool {
    (bits as int / dir_weight(d)) % 2 == 1
}

/// The sum, over the first `d` directions that `bits` marks solid, of the direction pointing away
/// from that neighbour, along axis `a`.
pub open spec fn away_sum(bits: u8, a: int, d: int) -> int
    decreases d,
{
    if d <= 0 {
        0
    } else {
        away_sum(bits, a, d - 1) + if has_dir(bits, d - 1) {
            -dir_step(d - 1, a)
        } else {
            0
        }
    }
}

/// The outward hint is the sum, over every direction whose face neighbour the mask marks solid,
/// of the opposite of that direction; so a single solid neighbour in direction `d` gives exactly
/// the opposite of `d`.
pub proof fn lemma_outward_is_sum_of_away_dirs(bits: u8, d: int)
    ensures
        forall|a: int| 0 <= a < 3 ==> #[trigger] outward_of(bits)[a] == away_sum(bits, a, 6),
        0 <= d < 6 ==> outward_of(dir_weight(d) as u8) == [
            -dir_step(d, 0) as i32,
            -dir_step(d, 1) as i32,
            -dir_step(d, 2) as i32,
        ],
{
    assert((bits & 1 != 0) == ((bits / 1) % 2 == 1)) by (bit_vector);
    assert((bits & 2 != 0) == ((bits / 2) % 2 == 1)) by (bit_vector);
    assert((bits & 4 != 0) == ((bits / 4) % 2 == 1)) by (bit_vector);
    assert((bits & 8 != 0) == ((bits / 8) % 2 == 1)) by (bit_vector);
    assert((bits & 16 != 0) == ((bits / 16) % 2 == 1)) by (bit_vector);
    assert((bits & 32 != 0) == ((bits / 32) % 2 == 1)) by (bit_vector);
    reveal_with_fuel(away_sum, 7);
    assert forall|a: int| 0 <= a < 3 implies #[trigger] outward_of(bits)[a] == away_sum(bits, a, 6) by {
        assert(has_dir(bits, 0) == ((bits / 1) % 2 == 1));
        assert(has_dir(bits, 1) == ((bits / 2) % 2 == 1));
        assert(has_dir(bits, 2) == ((bits / 4) % 2 == 1));
        assert(has_dir(bits, 3) == ((bits / 8) % 2 == 1));
        assert(has_dir(bits, 4) == ((bits / 16) % 2 == 1));
        assert(has_dir(bits, 5) == ((bits / 32) % 2 == 1));
    }
    if 0 <= d < 6 {
        if d == 0 {
            assert(outward_of(1u8) == [1i32, 0i32, 0i32]) by {
                assert(1u8 & 2 == 0 && 1u8 & 4 == 0 && 1u8 & 8 == 0 && 1u8 & 16 == 0 && 1u8 & 32 == 0 && 1u8 & 1 != 0) by (bit_vector);
            }
        } else if d == 1 {
            assert(outward_of(2u8) == [-1i32, 0i32, 0i32]) by {
                assert(2u8 & 1 == 0 && 2u8 & 4 == 0 && 2u8 & 8 == 0 && 2u8 & 16 == 0 && 2u8 & 32 == 0 && 2u8 & 2 != 0) by (bit_vector);
            }
        } else if d == 2 {
            assert(outward_of(4u8) == [0i32, 1i32, 0i32]) by {
                assert(4u8 & 1 == 0 && 4u8 & 2 == 0 && 4u8 & 8 == 0 && 4u8 & 16 == 0 && 4u8 & 32 == 0 && 4u8 & 4 != 0) by (bit_vector);
            }
        } else if d == 3 {
            assert(outward_of(8u8) == [0i32, -1i32, 0i32]) by {
                assert(8u8 & 1 == 0 && 8u8 & 2 == 0 && 8u8 & 4 == 0 && 8u8 & 16 == 0 && 8u8 & 32 == 0 && 8u8 & 8 != 0) by (bit_vector);
            }
        } else if d == 4 {
            assert(outward_of(16u8) == [0i32, 0i32, 1i32]) by {
                assert(16u8 & 1 == 0 && 16u8 & 2 == 0 && 16u8 & 4 == 0 && 16u8 & 8 == 0 && 16u8 & 32 == 0 && 16u8 & 16 != 0) by (bit_vector);
            }
        } else {
            assert(outward_of(32u8) == [0i32, 0i32, -1i32]) by {
                assert(32u8 & 1 == 0 && 32u8 & 2 == 0 && 32u8 & 4 == 0 && 32u8 & 8 == 0 && 32u8 & 16 == 0 && 32u8 & 32 != 0) by (bit_vector);
            }
        }
    }
}

/// A copy of a byte array.
fn clone_bytes(v: &Vec<u8>) -> (r: Vec<u8>)
    ensures
        r@ == v@,
{
    let mut r: Vec<u8> = Vec::new();
    let mut i: usize = 0;
    while i < v.len()
        invariant
            i <= v.len(),
            r@ == v@.subrange(0, i as int),
        decreases v.len() - i,
    {
        r.push(v[i]);
        i += 1;
    }
    r
}

} // verus!
