//! COMPONENTS: which free cells can reach each other, labelled twice.
//!
//! Two independent passes over one flood fill:
//!
//! | pass | array | membership |
//! |---|---|---|
//! | 0 | `comp_free` | free |
//! | 1 | `comp_surf` | free AND carrying the surface flag |
//!
//! Labels start at 0 in each pass, and a cell in no component keeps -1. The label NUMBERS are
//! part of the dump format and are compared byte for byte, which makes the numbering itself part
//! of the contract.
//!
//! # What fixes the numbering
//!
//! **The linear seed scan, and nothing else.** Labels are handed out in the order the scan finds
//! the next unlabelled member, walking flat index 0 upward, so component 0 is the one containing
//! the lowest-indexed member. [`is_canonical_labelling`] states that order, and
//! [`lemma_canonical_labelling_unique`] shows it leaves exactly one labelling possible.
//!
//! Frontier discipline does NOT affect the output. A cell is labelled at the moment it is PUSHED,
//! so every cell of a connected component receives the seed's label whatever order the frontier is
//! drained in. That, too, is what uniqueness says: any correct fill produces the same array.
use crate::grid::{
    cell_of, cells_of, dir_step, in_bounds_of, index_of, lemma_cell_of_index, lemma_index_bounds,
    lemma_index_of_cell, step_of, Cell, Grid,
};
use crate::occupancy::Occupancy;
use crate::surface::SurfaceArrays;
use vstd::prelude::*;

verus! {

/// The label a cell in no component carries.
pub const NO_COMPONENT: i32 = -1;

/// The graph one labelling pass walks: the member cells of a lattice, joined across shared faces.
pub struct LabelGraph {
    /// The lattice.
    pub grid: Grid,
    /// One byte per cell; non-zero is solid, and solid cells are never members.
    pub solid: Seq<u8>,
    /// The surface flag per cell; consulted only by the surface pass.
    pub flag: Seq<u8>,
    /// Whether membership also asks for the surface flag.
    pub surface_pass: bool,
}

/// The direction opposite `d`: `-x` for `+x` and so on.
pub open spec fn opposite(d: int) -> int {
    if d % 2 == 0 {
        d + 1
    } else {
        d - 1
    }
}

impl LabelGraph {
    /// How many cells the graph spans.
    pub open spec fn n(self) -> int {
        self.solid.len() as int
    }

    /// The lattice and the arrays agree in size and the lattice's indices fit the arithmetic.
    pub open spec fn wf(self) -> bool {
        &&& self.grid.wf()
        &&& self.solid.len() == self.grid.cells()
        &&& self.flag.len() == self.grid.cells()
    }

    /// Whether flat index `i` is a member: free, and flagged when this is the surface pass.
    pub open spec fn member(self, i: int) -> bool {
        &&& 0 <= i < self.solid.len()
        &&& self.solid[i] == 0
        &&& (!self.surface_pass || self.flag[i] != 0)
    }

    /// Whether cell `i` has a face neighbour in direction `d` inside the lattice.
    pub open spec fn has_step(self, i: int, d: int) -> bool {
        &&& 0 <= d < 6
        &&& self.grid.contains(step_of(self.grid.cell(i), d))
    }

    /// The flat index of cell `i`'s face neighbour in direction `d`.
    pub open spec fn step(self, i: int, d: int) -> int {
        self.grid.index(step_of(self.grid.cell(i), d))
    }

    /// Whether `j` is a face neighbour of `i`.
    pub open spec fn adjacent(self, i: int, j: int) -> bool {
        exists|d: int| #[trigger] self.has_step(i, d) && self.step(i, d) == j
    }

    /// Whether `p[k]` and `p[k + 1]` are face neighbours.
    pub open spec fn link(self, p: Seq<int>, k: int) -> bool {
        self.adjacent(p[k], p[k + 1])
    }

    /// A walk over members, each step to a face neighbour.
    pub open spec fn is_path(self, p: Seq<int>) -> bool {
        &&& p.len() >= 1
        &&& forall|k: int| 0 <= k < p.len() ==> self.member(#[trigger] p[k])
        &&& forall|k: int| 0 <= k < p.len() - 1 ==> #[trigger] self.link(p, k)
    }

    /// Whether a walk over members leads from `i` to `j`.
    pub open spec fn connected(self, i: int, j: int) -> bool {
        exists|p: Seq<int>| #[trigger] self.is_path(p) && p[0] == i && p.last() == j
    }

    /// Every member face neighbour of cell `k` carries `k`'s label.
    pub open spec fn closed_at(self, labels: Seq<i32>, k: int) -> bool {
        forall|d: int|
            #[trigger] self.has_step(k, d) && self.member(self.step(k, d)) ==> labels[self.step(
                k,
                d,
            )] == labels[k]
    }
}

/// The largest label among `s[0..i]`, or -1 when there is none.
pub open spec fn prefix_max(s: Seq<i32>, i: int) -> int
    decreases i,
{
    if i <= 0 {
        -1
    } else {
        let m = prefix_max(s, i - 1);
        if s[i - 1] > m {
            s[i - 1] as int
        } else {
            m
        }
    }
}

/// `labels` is THE labelling of `g`'s components that the linear seed scan produces:
///
/// - a cell carries [`NO_COMPONENT`] exactly when it is not a member;
/// - two members carry the same label exactly when a walk over members joins them;
/// - scanning upward from index 0, every label is at most one more than the largest seen before
///   it, so components are numbered 0, 1, 2, ... in the order of their lowest member.
#[verifier::opaque]
pub open spec fn is_canonical_labelling(g: LabelGraph, labels: Seq<i32>) -> bool {
    &&& labels.len() == g.n()
    &&& forall|i: int|
        #![trigger labels[i]]
        0 <= i < labels.len() ==> labels[i] >= NO_COMPONENT && (labels[i] == NO_COMPONENT
            <==> !g.member(i))
    &&& forall|i: int, j: int|
        #![trigger labels[i], labels[j]]
        g.member(i) && g.member(j) ==> (labels[i] == labels[j] <==> g.connected(i, j))
    &&& forall|i: int| #![trigger labels[i]] 0 <= i < labels.len() ==> labels[i] <= prefix_max(labels, i) + 1
}

/// The graph of the free pass, or of the surface pass, over `occ` and a surface flag array.
pub open spec fn pass_graph(occ: Occupancy, flag: Seq<u8>, surface_pass: bool) -> LabelGraph {
    LabelGraph { grid: occ.grid, solid: occ.solid@, flag, surface_pass }
}

/// Stepping one way and then back returns to the cell, and both ends are in the lattice.
pub proof fn lemma_step_symmetric(g: LabelGraph, i: int, d: int)
    requires
        g.wf(),
        0 <= i < g.n(),
        g.has_step(i, d),
    ensures
        0 <= g.step(i, d) < g.n(),
        g.has_step(g.step(i, d), opposite(d)),
        g.step(g.step(i, d), opposite(d)) == i,
{
    let c = g.grid.cell(i);
    lemma_index_of_cell(g.grid.dims, i);
    let s = step_of(c, d);
    lemma_cell_of_index(g.grid.dims, s);
    lemma_index_bounds(g.grid.dims, s);
    let j = g.step(i, d);
    assert(g.grid.cell(j) == s);
    let back = step_of(s, opposite(d));
    assert(back =~= c);
}

/// Face adjacency is symmetric.
pub proof fn lemma_adjacent_symmetric(g: LabelGraph, i: int, j: int)
    requires
        g.wf(),
        0 <= i < g.n(),
        g.adjacent(i, j),
    ensures
        g.adjacent(j, i),
        0 <= j < g.n(),
{
    let d = choose|d: int| #[trigger] g.has_step(i, d) && g.step(i, d) == j;
    lemma_step_symmetric(g, i, d);
    assert(g.has_step(j, opposite(d)));
}

/// A walk read backwards is a walk.
pub proof fn lemma_path_reverse(g: LabelGraph, p: Seq<int>)
    requires
        g.wf(),
        g.is_path(p),
    ensures
        g.is_path(p.reverse()),
        p.reverse()[0] == p.last(),
        p.reverse().last() == p[0],
{
    let r = p.reverse();
    assert forall|k: int| 0 <= k < r.len() implies g.member(#[trigger] r[k]) by {
        assert(r[k] == p[p.len() - 1 - k]);
        assert(g.member(p[p.len() - 1 - k]));
    }
    assert forall|k: int| 0 <= k < r.len() - 1 implies #[trigger] g.link(r, k) by {
        let m = p.len() - 2 - k;
        assert(g.link(p, m));
        assert(g.member(p[m]));
        lemma_adjacent_symmetric(g, p[m], p[m + 1]);
        assert(r[k] == p[m + 1]);
        assert(r[k + 1] == p[m]);
    }
}

/// A walk followed by a walk that starts where it ends is a walk.
pub proof fn lemma_path_concat(g: LabelGraph, p: Seq<int>, q: Seq<int>)
    requires
        g.is_path(p),
        g.is_path(q),
        p.last() == q[0],
    ensures
        g.is_path(p + q.drop_first()),
        (p + q.drop_first())[0] == p[0],
        (p + q.drop_first()).last() == q.last(),
{
    let r = p + q.drop_first();
    assert forall|k: int| 0 <= k < r.len() implies g.member(#[trigger] r[k]) by {
        if k < p.len() {
            assert(r[k] == p[k]);
        } else {
            assert(r[k] == q[k - p.len() + 1]);
        }
    }
    assert forall|k: int| 0 <= k < r.len() - 1 implies #[trigger] g.link(r, k) by {
        if k < p.len() - 1 {
            assert(g.link(p, k));
            assert(r[k] == p[k] && r[k + 1] == p[k + 1]);
        } else {
            let m = k - p.len() + 1;
            assert(g.link(q, m));
            assert(r[k] == q[m] && r[k + 1] == q[m + 1]);
        }
    }
}

/// Two members joined to a common member are joined to each other.
pub proof fn lemma_connected_via(g: LabelGraph, s: int, p: Seq<int>, q: Seq<int>)
    requires
        g.wf(),
        g.is_path(p),
        g.is_path(q),
        p[0] == s,
        q[0] == s,
    ensures
        g.connected(p.last(), q.last()),
{
    lemma_path_reverse(g, p);
    lemma_path_concat(g, p.reverse(), q);
    let w = p.reverse() + q.drop_first();
    assert(g.is_path(w) && w[0] == p.last() && w.last() == q.last());
}

/// Along a walk whose labelled cells are all closed, every cell carries the first cell's label.
pub proof fn lemma_closed_path_same_label(g: LabelGraph, labels: Seq<i32>, p: Seq<int>, k: int)
    requires
        g.wf(),
        labels.len() == g.n(),
        g.is_path(p),
        labels[p[0]] != NO_COMPONENT,
        forall|m: int|
            #![trigger labels[m]]
            0 <= m < labels.len() && labels[m] != NO_COMPONENT ==> g.closed_at(labels, m),
        0 <= k < p.len(),
    ensures
        labels[p[k]] == labels[p[0]],
    decreases k,
{
    if k > 0 {
        lemma_closed_path_same_label(g, labels, p, k - 1);
        assert(g.link(p, k - 1));
        assert(g.member(p[k - 1]));
        let d = choose|d: int| #[trigger] g.has_step(p[k - 1], d) && g.step(p[k - 1], d) == p[k];
        assert(g.closed_at(labels, p[k - 1]));
        assert(g.member(p[k]));
    }
}

/// How many cells of `s` are unlabelled.
pub open spec fn unlabelled(s: Seq<i32>) -> nat
    decreases s.len(),
{
    if s.len() == 0 {
        0
    } else {
        unlabelled(s.drop_last()) + if s.last() == NO_COMPONENT {
            1nat
        } else {
            0nat
        }
    }
}

/// Labelling an unlabelled cell lowers the unlabelled count by one.
pub proof fn lemma_unlabelled_update(s: Seq<i32>, i: int, v: i32)
    requires
        0 <= i < s.len(),
        s[i] == NO_COMPONENT,
        v != NO_COMPONENT,
    ensures
        unlabelled(s.update(i, v)) + 1 == unlabelled(s),
    decreases s.len(),
{
    let t = s.update(i, v);
    if i == s.len() - 1 {
        assert(t.drop_last() =~= s.drop_last());
    } else {
        assert(t.drop_last() =~= s.drop_last().update(i, v));
        lemma_unlabelled_update(s.drop_last(), i, v);
    }
}

/// `prefix_max` never falls below -1.
pub proof fn lemma_prefix_max_floor(s: Seq<i32>, i: int)
    ensures
        prefix_max(s, i) >= -1,
    decreases i,
{
    if i > 0 {
        lemma_prefix_max_floor(s, i - 1);
    }
}

/// Every label before index `i` is at most `prefix_max(s, i)`.
pub proof fn lemma_prefix_max_bounds(s: Seq<i32>, i: int, k: int)
    requires
        0 <= k < i,
    ensures
        s[k] <= prefix_max(s, i),
    decreases i,
{
    if k < i - 1 {
        lemma_prefix_max_bounds(s, i - 1, k);
    }
}


/// The flat-index offset of direction `d` on a lattice of `dims`.
pub open spec fn stride_of(dims: Cell, d: int) -> int {
    if d == 0 {
        -1
    } else if d == 1 {
        1
    } else if d == 2 {
        -(dims[0] as int)
    } else if d == 3 {
        dims[0] as int
    } else if d == 4 {
        -(dims[0] * dims[1])
    } else {
        dims[0] * dims[1]
    }
}

/// Stepping a cell in direction `d` moves its flat index by the stride of `d`.
pub proof fn lemma_step_index(dims: Cell, c: Cell, d: int)
    requires
        0 <= d < 6,
        i32::MIN < c[0] < i32::MAX,
        i32::MIN < c[1] < i32::MAX,
        i32::MIN < c[2] < i32::MAX,
    ensures
        index_of(dims, step_of(c, d)) == index_of(dims, c) + stride_of(dims, d),
{
    let s = step_of(c, d);
    let (x, y) = (dims[0] as int, dims[1] as int);
    let (a, b, e) = (s[0] as int, s[1] as int, s[2] as int);
    let (a0, b0, e0) = (c[0] as int, c[1] as int, c[2] as int);
    assert(a + x * (b + y * e) == a0 + x * (b0 + y * e0) + stride_of(dims, d)) by (nonlinear_arith)
        requires
            a == a0 + dir_step(d, 0),
            b == b0 + dir_step(d, 1),
            e == e0 + dir_step(d, 2),
            0 <= d < 6,
            stride_of(dims, d) == if d == 0 {
                -1
            } else if d == 1 {
                1
            } else if d == 2 {
                -x
            } else if d == 3 {
                x
            } else if d == 4 {
                -(x * y)
            } else {
                x * y
            },
            dir_step(d, 0) == if d == 0 {
                -1
            } else if d == 1 {
                1
            } else {
                0
            },
            dir_step(d, 1) == if d == 2 {
                -1
            } else if d == 3 {
                1
            } else {
                0
            },
            dir_step(d, 2) == if d == 4 {
                -1
            } else if d == 5 {
                1
            } else {
                0
            },
    ;
}

/// The face neighbour of cell `i` (whose coordinates are `c`) in direction `d`, reached by
/// stride: whether it is in the lattice, and its flat index when it is. Bounds are checked on the
/// stepped axis alone, which is why the stride is safe to add.
fn neighbour(g: &Grid, c: Cell, i: usize, d: usize, dx: usize, plane: usize) -> (r: (bool, usize))
    requires
        g.wf(),
        0 <= i < g.cells(),
        c == g.cell(i as int),
        d < 6,
        dx == g.dims[0],
        plane == g.dims[0] * g.dims[1],
    ensures
        r.0 == (LabelGraph { grid: *g, solid: Seq::empty(), flag: Seq::empty(), surface_pass: false }).has_step(
            i as int,
            d as int,
        ),
        r.0 ==> r.1 == g.index(step_of(g.cell(i as int), d as int)) && r.1 < g.cells(),
{
    proof {
        lemma_index_of_cell(g.dims, i as int);
        lemma_step_index(g.dims, c, d as int);
    }
    let ok = if d == 0 {
        c[0] > 0
    } else if d == 1 {
        c[0] < g.dims[0] - 1
    } else if d == 2 {
        c[1] > 0
    } else if d == 3 {
        c[1] < g.dims[1] - 1
    } else if d == 4 {
        c[2] > 0
    } else {
        c[2] < g.dims[2] - 1
    };
    if !ok {
        return (false, 0);
    }
    proof {
        lemma_index_bounds(g.dims, step_of(c, d as int));
    }
    let j = if d == 0 {
        i - 1
    } else if d == 1 {
        i + 1
    } else if d == 2 {
        i - dx
    } else if d == 3 {
        i + dx
    } else if d == 4 {
        i - plane
    } else {
        i + plane
    };
    (true, j)
}


/// What the fill keeps true between steps: labels range over the handed-out labels, every labelled
/// cell is a member joined to its label's seed by a recorded walk, and the seeds are the cells
/// each label started from, in increasing index order.
pub open spec fn fill_inv(
    g: LabelGraph,
    labels: Seq<i32>,
    seeds: Seq<int>,
    paths: Map<int, Seq<int>>,
    next: int,
) -> bool {
    &&& labels.len() == g.n()
    &&& seeds.len() == next
    &&& forall|k: int|
        #![trigger labels[k]]
        0 <= k < labels.len() ==> NO_COMPONENT <= labels[k] < next
    &&& forall|k: int|
        #![trigger labels[k]]
        0 <= k < labels.len() && labels[k] != NO_COMPONENT ==> {
            &&& g.member(k)
            &&& k >= seeds[labels[k] as int]
            &&& paths.contains_key(k)
            &&& g.is_path(paths[k])
            &&& paths[k][0] == seeds[labels[k] as int]
            &&& paths[k].last() == k
        }
    &&& forall|l: int|
        #![trigger seeds[l]]
        0 <= l < next ==> l <= seeds[l] < g.n() && labels[seeds[l]] == l
    &&& forall|l1: int, l2: int|
        #![trigger seeds[l1], seeds[l2]]
        0 <= l1 < l2 < next ==> seeds[l1] < seeds[l2]
}

/// Every member below `s` is labelled.
pub open spec fn scanned(g: LabelGraph, labels: Seq<i32>, s: int) -> bool {
    forall|k: int| #![trigger labels[k]] 0 <= k < s && g.member(k) ==> labels[k] != NO_COMPONENT
}

/// Every labelled cell outside the frontier, other than `skip`, is closed.
pub open spec fn closed_outside(g: LabelGraph, labels: Seq<i32>, frontier: Seq<usize>, skip: int) -> bool {
    forall|k: int|
        #![trigger labels[k]]
        0 <= k < labels.len() && labels[k] != NO_COMPONENT && !frontier.contains(k as usize) && k
            != skip ==> g.closed_at(labels, k)
}

/// The frontier holds distinct cells of the current label.
pub open spec fn frontier_ok(labels: Seq<i32>, frontier: Seq<usize>, label: int) -> bool {
    &&& forall|m: int|
        #![trigger frontier[m]]
        0 <= m < frontier.len() ==> frontier[m] < labels.len() && labels[frontier[m] as int]
            == label
    &&& forall|m1: int, m2: int|
        #![trigger frontier[m1], frontier[m2]]
        0 <= m1 < m2 < frontier.len() ==> frontier[m1] != frontier[m2]
}

/// A finished fill is the canonical labelling.
pub proof fn lemma_fill_canonical(
    g: LabelGraph,
    labels: Seq<i32>,
    seeds: Seq<int>,
    paths: Map<int, Seq<int>>,
    next: int,
)
    requires
        g.wf(),
        fill_inv(g, labels, seeds, paths, next),
        scanned(g, labels, g.n()),
        closed_outside(g, labels, Seq::empty(), -1),
    ensures
        is_canonical_labelling(g, labels),
{
    reveal(is_canonical_labelling);
    assert forall|i: int| #![trigger labels[i]] 0 <= i < labels.len() implies labels[i] >= NO_COMPONENT
        && (labels[i] == NO_COMPONENT <==> !g.member(i)) by {}
    assert forall|m: int|
        #![trigger labels[m]]
        0 <= m < labels.len() && labels[m] != NO_COMPONENT implies g.closed_at(labels, m) by {
        assert(!Seq::<usize>::empty().contains(m as usize));
    }
    assert forall|i: int, j: int|
        #![trigger labels[i], labels[j]]
        g.member(i) && g.member(j) implies (labels[i] == labels[j] <==> g.connected(i, j)) by {
        assert(labels[i] != NO_COMPONENT && labels[j] != NO_COMPONENT);
        if labels[i] == labels[j] {
            lemma_connected_via(g, seeds[labels[i] as int], paths[i], paths[j]);
        }
        if g.connected(i, j) {
            let p = choose|p: Seq<int>| #[trigger] g.is_path(p) && p[0] == i && p.last() == j;
            lemma_closed_path_same_label(g, labels, p, p.len() - 1);
        }
    }
    assert forall|i: int| #![trigger labels[i]] 0 <= i < labels.len() implies labels[i]
        <= prefix_max(labels, i) + 1 by {
        lemma_prefix_max_floor(labels, i);
        let l = labels[i] as int;
        if l >= 1 {
            let s0 = seeds[l - 1];
            assert(seeds[l - 1] < seeds[l]);
            assert(labels[s0] == l - 1);
            lemma_prefix_max_bounds(labels, i, s0);
        }
    }
}

/// One labelling pass of the flood fill. `surface_pass` adds the surface-flag membership test.
fn label_pass(occ: &Occupancy, flag: &Vec<u8>, n: usize, surface_pass: bool) -> (labels: Vec<i32>)
    requires
        occ.wf(),
        flag.len() == occ.solid.len(),
        n == occ.solid.len(),
    ensures
        labels.len() == n,
        is_canonical_labelling(pass_graph(*occ, flag@, surface_pass), labels@),
{
    let ghost g = pass_graph(*occ, flag@, surface_pass);
    let mut labels: Vec<i32> = Vec::new();
    let mut k: usize = 0;
    while k < n
        invariant
            k <= n,
            labels@ == Seq::new(k as nat, |i: int| NO_COMPONENT),
        decreases n - k,
    {
        labels.push(NO_COMPONENT);
        k += 1;
    }
    let ghost mut seeds: Seq<int> = Seq::empty();
    let ghost mut paths: Map<int, Seq<int>> = Map::empty();
    let mut frontier: Vec<usize> = Vec::new();
    let mut next_label: i32 = 0;
    if n == 0 {
        proof {
            lemma_fill_canonical(g, labels@, seeds, paths, 0);
        }
        return labels;
    }
    let g_exec = occ.grid;
    let dx = g_exec.dims[0] as usize;
    proof {
        lemma_index_bounds(g_exec.dims, [0i32, 0i32, 0i32]);
        assert(g_exec.dims[0] * g_exec.dims[1] <= g_exec.dims[0] * g_exec.dims[1] * g_exec.dims[2])
            by (nonlinear_arith)
            requires
                g_exec.dims[0] > 0,
                g_exec.dims[1] > 0,
                g_exec.dims[2] > 0,
        ;
    }
    let plane = dx * (g_exec.dims[1] as usize);

    // The seed scan. Walking flat index 0 upward is what numbers the components.
    let mut seed: usize = 0;
    while seed < n
        invariant
            g == pass_graph(*occ, flag@, surface_pass),
            occ.wf(),
            flag.len() == occ.solid.len(),
            n == occ.solid.len(),
            g.wf(),
            g_exec == occ.grid,
            dx == g_exec.dims[0],
            plane == g_exec.dims[0] * g_exec.dims[1],
            seed <= n,
            frontier@.len() == 0,
            fill_inv(g, labels@, seeds, paths, next_label as int),
            scanned(g, labels@, seed as int),
            closed_outside(g, labels@, frontier@, -1),
            forall|l: int| #![trigger seeds[l]] 0 <= l < next_label ==> seeds[l] < seed,
        decreases n - seed,
    {
        if labels[seed] != NO_COMPONENT || !(occ.solid[seed] == 0 && (!surface_pass || flag[seed]
            != 0)) {
            seed += 1;
            continue;
        }
        proof {
            if next_label > 0 {
                assert(seeds[next_label - 1] < seed);
            }
        }
        let label = next_label;
        next_label += 1;
        let ghost old_labels = labels@;
        labels.set(seed, label);
        frontier.push(seed);
        proof {
            lemma_unlabelled_update(old_labels, seed as int, label);
            let p = seq![seed as int];
            assert(g.is_path(p));
            seeds = seeds.push(seed as int);
            paths = paths.insert(seed as int, p);
            assert(labels@[seed as int] == label);
            assert forall|k: int|
                #![trigger labels@[k]]
                0 <= k < labels@.len() && labels@[k] != NO_COMPONENT implies {
                &&& g.member(k)
                &&& k >= seeds[labels@[k] as int]
                &&& paths.contains_key(k)
                &&& g.is_path(paths[k])
                &&& paths[k][0] == seeds[labels@[k] as int]
                &&& paths[k].last() == k
            } by {
                if k != seed {
                    assert(old_labels[k] == labels@[k]);
                }
            }
            assert forall|k: int|
                #![trigger labels@[k]]
                0 <= k < labels@.len() && labels@[k] != NO_COMPONENT && !frontier@.contains(
                    k as usize,
                ) && k != -1 implies g.closed_at(labels@, k) by {
                if k != seed {
                    assert(old_labels[k] == labels@[k]);
                    assert(!Seq::<usize>::empty().contains(k as usize));
                    assert(g.closed_at(old_labels, k));
                    assert forall|d: int|
                        #[trigger] g.has_step(k, d) && g.member(g.step(k, d)) implies labels@[g.step(
                            k,
                            d,
                        )] == labels@[k] by {
                        assert(old_labels[g.step(k, d)] == old_labels[k]);
                    }
                } else {
                    assert(frontier@[0] == seed);
                }
            }
        }
        while frontier.len() > 0
            invariant
                g == pass_graph(*occ, flag@, surface_pass),
                occ.wf(),
                flag.len() == occ.solid.len(),
                n == occ.solid.len(),
                g.wf(),
                g_exec == occ.grid,
                dx == g_exec.dims[0],
                plane == g_exec.dims[0] * g_exec.dims[1],
                seed < n,
                label == next_label - 1,
                0 <= label,
                seeds[label as int] == seed,
                fill_inv(g, labels@, seeds, paths, next_label as int),
                scanned(g, labels@, seed as int),
                labels@[seed as int] == label,
                frontier_ok(labels@, frontier@, label as int),
                closed_outside(g, labels@, frontier@, -1),
            decreases 2 * unlabelled(labels@) + frontier@.len(),
        {
            let ghost before = 2 * unlabelled(labels@) + frontier@.len();
            let ghost popped_from = frontier@;
            let i = frontier.pop().unwrap();
            proof {
                assert(popped_from =~= frontier@.push(i));
                assert(labels@[i as int] == label) by {
                    assert(popped_from[popped_from.len() - 1] == i);
                }
                assert(!frontier@.contains(i)) by {
                    if frontier@.contains(i) {
                        let m = choose|m: int| 0 <= m < frontier@.len() && frontier@[m] == i;
                        assert(popped_from[m] == popped_from[popped_from.len() - 1]);
                    }
                }
                assert forall|m: int|
                    #![trigger frontier@[m]]
                    0 <= m < frontier@.len() implies frontier@[m] < labels@.len() && labels@[frontier@[m] as int]
                        == label by {
                    assert(frontier@[m] == popped_from[m]);
                }
                assert forall|m1: int, m2: int|
                    #![trigger frontier@[m1], frontier@[m2]]
                    0 <= m1 < m2 < frontier@.len() implies frontier@[m1] != frontier@[m2] by {
                    assert(frontier@[m1] == popped_from[m1] && frontier@[m2] == popped_from[m2]);
                }
                assert forall|k: int|
                    #![trigger labels@[k]]
                    0 <= k < labels@.len() && labels@[k] != NO_COMPONENT && !frontier@.contains(
                        k as usize,
                    ) && k != i implies g.closed_at(labels@, k) by {
                    if popped_from.contains(k as usize) {
                        let m = choose|m: int| 0 <= m < popped_from.len() && popped_from[m] == k as usize;
                        if m < frontier@.len() {
                            assert(frontier@[m] == popped_from[m]);
                        }
                    }
                }
                lemma_index_of_cell(g.grid.dims, i as int);
            }
            let c = g_exec.index_cell(i);
            let mut d: usize = 0;
            while d < 6
                invariant
                    g == pass_graph(*occ, flag@, surface_pass),
                    occ.wf(),
                    flag.len() == occ.solid.len(),
                    n == occ.solid.len(),
                    g.wf(),
                    g_exec == occ.grid,
                    dx == g_exec.dims[0],
                    plane == g_exec.dims[0] * g_exec.dims[1],
                    seed < n,
                    label == next_label - 1,
                    0 <= label,
                    seeds[label as int] == seed,
                    i < n,
                    c == g.grid.cell(i as int),
                    d <= 6,
                    labels@[i as int] == label,
                    !frontier@.contains(i),
                    fill_inv(g, labels@, seeds, paths, next_label as int),
                    scanned(g, labels@, seed as int),
                    frontier_ok(labels@, frontier@, label as int),
                    closed_outside(g, labels@, frontier@, i as int),
                    forall|e: int|
                        #![trigger g.has_step(i as int, e)]
                        0 <= e < d && g.has_step(i as int, e) && g.member(g.step(i as int, e))
                            ==> labels@[g.step(i as int, e)] == label,
                    2 * unlabelled(labels@) + frontier@.len() < before,
                decreases 6 - d,
            {
                let (ok, j) = neighbour(&g_exec, c, i, d, dx, plane);
                if ok {
                    proof {
                        lemma_step_symmetric(g, i as int, d as int);
                    }
                    let is_member = occ.solid[j] == 0 && (!surface_pass || flag[j] != 0);
                    if labels[j] == NO_COMPONENT && is_member {
                        // Labelled at PUSH, which is what makes the frontier order unobservable.
                        let ghost old_labels = labels@;
                        let ghost old_frontier = frontier@;
                        labels.set(j, label);
                        frontier.push(j);
                        proof {
                            lemma_unlabelled_update(old_labels, j as int, label);
                            assert(g.has_step(i as int, d as int));
                            assert(g.adjacent(i as int, j as int));
                            let pi = paths[i as int];
                            let pj = pi.push(j as int);
                            assert(g.link(pj, pj.len() - 2));
                            assert forall|m: int| 0 <= m < pj.len() implies g.member(#[trigger] pj[m]) by {
                                if m < pi.len() {
                                    assert(pj[m] == pi[m]);
                                }
                            }
                            assert forall|m: int| 0 <= m < pj.len() - 1 implies #[trigger] g.link(pj, m) by {
                                if m < pi.len() - 1 {
                                    assert(g.link(pi, m));
                                    assert(pj[m] == pi[m] && pj[m + 1] == pi[m + 1]);
                                }
                            }
                            assert(g.is_path(pj));
                            paths = paths.insert(j as int, pj);
                            // j is a member above the seed: every member below it is labelled.
                            assert(j as int >= seed) by {
                                if (j as int) < seed {
                                    assert(old_labels[j as int] != NO_COMPONENT);
                                }
                            }
                            assert forall|k: int|
                                #![trigger labels@[k]]
                                0 <= k < labels@.len() && labels@[k] != NO_COMPONENT implies {
                                &&& g.member(k)
                                &&& k >= seeds[labels@[k] as int]
                                &&& paths.contains_key(k)
                                &&& g.is_path(paths[k])
                                &&& paths[k][0] == seeds[labels@[k] as int]
                                &&& paths[k].last() == k
                            } by {
                                if k != j {
                                    assert(old_labels[k] == labels@[k]);
                                }
                            }
                            assert forall|l: int|
                                #![trigger seeds[l]]
                                0 <= l < next_label implies l <= seeds[l] < g.n() && labels@[seeds[l]] == l by {
                                assert(old_labels[seeds[l]] == l);
                            }
                            assert forall|m: int|
                                #![trigger frontier@[m]]
                                0 <= m < frontier@.len() implies frontier@[m] < labels@.len() && labels@[frontier@[m] as int]
                                    == label by {
                                if m < old_frontier.len() {
                                    assert(frontier@[m] == old_frontier[m]);
                                }
                            }
                            assert forall|m1: int, m2: int|
                                #![trigger frontier@[m1], frontier@[m2]]
                                0 <= m1 < m2 < frontier@.len() implies frontier@[m1] != frontier@[m2] by {
                                if m2 == old_frontier.len() {
                                    assert(labels@[old_frontier[m1] as int] == label);
                                    assert(old_labels[old_frontier[m1] as int] == label);
                                }
                            }
                            assert forall|k: int|
                                #![trigger labels@[k]]
                                0 <= k < labels@.len() && labels@[k] != NO_COMPONENT
                                    && !frontier@.contains(k as usize) && k != i implies g.closed_at(
                                labels@,
                                k,
                            ) by {
                                assert(k != j) by {
                                    assert(frontier@[frontier@.len() - 1] == j);
                                }
                                assert(old_labels[k] == labels@[k]);
                                assert(!old_frontier.contains(k as usize)) by {
                                    if old_frontier.contains(k as usize) {
                                        let m = choose|m: int| 0 <= m < old_frontier.len() && old_frontier[m] == k as usize;
                                        assert(frontier@[m] == old_frontier[m]);
                                    }
                                }
                                assert(g.closed_at(old_labels, k));
                                assert forall|e: int|
                                    #[trigger] g.has_step(k, e) && g.member(g.step(k, e)) implies labels@[g.step(
                                        k,
                                        e,
                                    )] == labels@[k] by {
                                    assert(old_labels[g.step(k, e)] == old_labels[k]);
                                }
                            }
                            assert forall|e: int|
                                #![trigger g.has_step(i as int, e)]
                                0 <= e < d + 1 && g.has_step(i as int, e) && g.member(g.step(i as int, e))
                                    implies labels@[g.step(i as int, e)] == label by {
                                if e < d {
                                    assert(old_labels[g.step(i as int, e)] == label);
                                }
                            }
                            assert(!frontier@.contains(i)) by {
                                if frontier@.contains(i) {
                                    let m = choose|m: int| 0 <= m < frontier@.len() && frontier@[m] == i;
                                    if m < old_frontier.len() {
                                        assert(old_frontier.contains(i));
                                    }
                                }
                            }
                        }
                    } else {
                        proof {
                            if is_member {
                                let l = labels@[j as int];
                                assert(l != NO_COMPONENT);
                                if l != label {
                                    // j carries an earlier, complete label: it is closed, and i is
                                    // its member neighbour, so i would carry that label too.
                                    assert(!frontier@.contains(j)) by {
                                        if frontier@.contains(j) {
                                            let m = choose|m: int| 0 <= m < frontier@.len() && frontier@[m] == j;
                                            assert(labels@[frontier@[m] as int] == label);
                                        }
                                    }
                                    assert(g.closed_at(labels@, j as int));
                                    assert(g.has_step(j as int, opposite(d as int)));
                                    assert(false);
                                }
                            }
                        }
                    }
                }
                d += 1;
            }
            proof {
                assert forall|k: int|
                    #![trigger labels@[k]]
                    0 <= k < labels@.len() && labels@[k] != NO_COMPONENT && !frontier@.contains(
                        k as usize,
                    ) && k != -1 implies g.closed_at(labels@, k) by {
                    if k == i {
                        assert forall|e: int|
                            #[trigger] g.has_step(k, e) && g.member(g.step(k, e)) implies labels@[g.step(
                                k,
                                e,
                            )] == labels@[k] by {}
                    }
                }
            }
        }
        seed += 1;
    }
    proof {
        assert(frontier@ =~= Seq::<usize>::empty());
        lemma_fill_canonical(g, labels@, seeds, paths, next_label as int);
    }
    labels
}

/// Label both graphs. Returns `(comp_free, comp_surf)`, one `i32` per cell, each the canonical
/// labelling of its pass.
pub fn label_components(occ: &Occupancy, surf: &SurfaceArrays) -> (r: (Vec<i32>, Vec<i32>))
    requires
        occ.wf(),
        surf.surface_flag.len() == occ.solid.len(),
    ensures
        r.0.len() == occ.solid.len(),
        r.1.len() == occ.solid.len(),
        is_canonical_labelling(pass_graph(*occ, surf.surface_flag@, false), r.0@),
        is_canonical_labelling(pass_graph(*occ, surf.surface_flag@, true), r.1@),
{
    let n = occ.grid.cell_count();
    let free = label_pass(occ, &surf.surface_flag, n, false);
    let surface = label_pass(occ, &surf.surface_flag, n, true);
    (free, surface)
}


/// Under the numbering rule, the labels seen before index `i` are exactly `0..=prefix_max`: no
/// label is skipped.
pub proof fn lemma_prefix_contiguous(s: Seq<i32>, i: int, v: int)
    requires
        0 <= i <= s.len(),
        forall|k: int| #![trigger s[k]] 0 <= k < s.len() ==> s[k] <= prefix_max(s, k) + 1,
        0 <= v <= prefix_max(s, i),
    ensures
        exists|j: int| 0 <= j < i && s[j] == v,
    decreases i,
{
    if i > 0 {
        let m = prefix_max(s, i - 1);
        assert(s[i - 1] <= m + 1);
        if v <= m {
            lemma_prefix_contiguous(s, i - 1, v);
            let j = choose|j: int| 0 <= j < i - 1 && s[j] == v;
            assert(0 <= j < i && s[j] == v);
        } else {
            assert(s[i - 1] == v);
        }
    }
}

/// `prefix_max(s, i)` reads only `s[0..i]`.
pub proof fn lemma_prefix_max_prefix(a: Seq<i32>, b: Seq<i32>, i: int)
    requires
        forall|k: int| 0 <= k < i ==> a[k] == b[k],
    ensures
        prefix_max(a, i) == prefix_max(b, i),
    decreases i,
{
    if i > 0 {
        lemma_prefix_max_prefix(a, b, i - 1);
        assert(a[i - 1] == b[i - 1]);
    }
}

/// The lowest member of its component opens a new label: one more than any seen before it.
proof fn lemma_opens_new_label(g: LabelGraph, a: Seq<i32>, t: int)
    requires
        is_canonical_labelling(g, a),
        0 <= t < a.len(),
        g.member(t),
        forall|j: int| 0 <= j < t && g.member(j) ==> !g.connected(j, t),
    ensures
        a[t] == prefix_max(a, t) + 1,
{
    reveal(is_canonical_labelling);
    assert(a[t] <= prefix_max(a, t) + 1);
    if a[t] <= prefix_max(a, t) {
        assert(a[t] >= 0);
        lemma_prefix_contiguous(a, t, a[t] as int);
        let j = choose|j: int| 0 <= j < t && a[j] == a[t];
        assert(a[j] != NO_COMPONENT);
        assert(g.member(j));
        assert(a[j] == a[t]);
        assert(g.connected(j, t));
    }
}

/// Two canonical labellings that agree below `t` agree at `t`.
proof fn lemma_canonical_agree_at(g: LabelGraph, a: Seq<i32>, b: Seq<i32>, t: int)
    requires
        is_canonical_labelling(g, a),
        is_canonical_labelling(g, b),
        0 <= t < a.len(),
        forall|k: int| 0 <= k < t ==> a[k] == b[k],
    ensures
        a[t] == b[t],
{
    reveal(is_canonical_labelling);
    if !g.member(t) {
        assert(a[t] == NO_COMPONENT);
        assert(b[t] == NO_COMPONENT);
    } else if exists|j: int| 0 <= j < t && g.member(j) && g.connected(j, t) {
        let j = choose|j: int| 0 <= j < t && g.member(j) && g.connected(j, t);
        assert(a[j] == a[t]);
        assert(b[j] == b[t]);
        assert(a[j] == b[j]);
    } else {
        lemma_prefix_max_prefix(a, b, t);
        lemma_opens_new_label(g, a, t);
        lemma_opens_new_label(g, b, t);
    }
}

/// Two canonical labellings of one graph agree on every index below `i`.
proof fn lemma_canonical_agree_below(g: LabelGraph, a: Seq<i32>, b: Seq<i32>, i: int)
    requires
        is_canonical_labelling(g, a),
        is_canonical_labelling(g, b),
        0 <= i <= a.len(),
    ensures
        forall|k: int| 0 <= k < i ==> a[k] == b[k],
    decreases i,
{
    if i > 0 {
        lemma_canonical_agree_below(g, a, b, i - 1);
        lemma_canonical_agree_at(g, a, b, i - 1);
    }
}

/// The numbering rule leaves no freedom: two labellings that both meet
/// [`is_canonical_labelling`] for one graph are the same array. So the order a flood fill drains
/// its frontier in cannot show in its output, and neither can anything else but the seed scan.
pub proof fn lemma_canonical_labelling_unique(g: LabelGraph, a: Seq<i32>, b: Seq<i32>)
    requires
        is_canonical_labelling(g, a),
        is_canonical_labelling(g, b),
    ensures
        a == b,
{
    reveal(is_canonical_labelling);
    lemma_canonical_agree_below(g, a, b, a.len() as int);
    assert(a =~= b);
}

} // verus!
