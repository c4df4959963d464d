//! How a search for a route ends, and the decisions that settle one without expanding a cell.
//!
//! The search itself (a weighted A* over `f32` scores, with a float heuristic) is driven by the
//! caller; what is decided here is decided on integers alone:
//!
//! - [`resolve_ends`]: before a single expansion, an unbuilt volume answers [`Outcome::Unbuilt`],
//!   an end with no usable cell within its snap radius answers [`Outcome::Unsnappable`], and two
//!   ends in different components answer [`Outcome::Unreachable`]. In that order, because each
//!   step can change the answer.
//! - [`failure_outcome`]: a search that stopped without reaching its goal was either stopped by
//!   its expansion cap with the frontier still alive ([`Outcome::Capped`]: ask again with more
//!   budget) or ran out of frontier ([`Outcome::Unreachable`]: never ask again).
use vstd::prelude::*;
use crate::components::{is_canonical_labelling, pass_graph};
use crate::grid::{lemma_index_round_trip, Cell};
use crate::volume::Volume;

verus! {

/// How a search ended.
///
/// A caller must be able to tell a route that does not exist from one it was not given time to
/// find: `Capped` means ask again with more budget, `Unreachable` means never ask again.
#[derive(Clone, Copy, Debug, PartialEq, Eq, Structural)]
pub enum Outcome {
    /// Still running; no answer yet.
    Pending,
    /// A route was found.
    Found,
    /// The straight line was already clear; the waypoints are just the destination.
    Direct,
    /// The two ends are in different components. No budget will help.
    Unreachable,
    /// The expansion cap was reached with the frontier still alive. More budget might help.
    Capped,
    /// One or both ends had no usable cell within the snap radius.
    Unsnappable,
    /// The volume has no derived data.
    Unbuilt,
    /// The volume was replaced or freed while the search was in flight.
    Stale,
    /// The search failed or could not run.
    Failed,
}

/// The number each outcome is reported under, `Pending` = 0 through `Failed` = 8.
pub open spec fn outcome_code(o: Outcome) -> i64 {
    match o {
        Outcome::Pending => 0,
        Outcome::Found => 1,
        Outcome::Direct => 2,
        Outcome::Unreachable => 3,
        Outcome::Capped => 4,
        Outcome::Unsnappable => 5,
        Outcome::Unbuilt => 6,
        Outcome::Stale => 7,
        Outcome::Failed => 8,
    }
}

/// Whether the search has stopped, whatever the answer.
pub open spec fn settled(o: Outcome) -> bool {
    !(o is Pending)
}

/// Whether waypoints are available.
pub open spec fn carries_path(o: Outcome) -> bool {
    o is Found || o is Direct
}

impl Outcome {
    /// Whether the search has stopped, whatever the answer.
    pub fn is_settled(self) -> (b: bool)
        ensures
            b == settled(self),
    {
        !matches!(self, Outcome::Pending)
    }

    /// Whether waypoints are available.
    pub fn has_path(self) -> (b: bool)
        ensures
            b == carries_path(self),
    {
        matches!(self, Outcome::Found | Outcome::Direct)
    }

    /// The number this outcome is reported under.
    pub fn code(self) -> (c: i64)
        ensures
            c == outcome_code(self),
    {
        match self {
            Outcome::Pending => 0,
            Outcome::Found => 1,
            Outcome::Direct => 2,
            Outcome::Unreachable => 3,
            Outcome::Capped => 4,
            Outcome::Unsnappable => 5,
            Outcome::Unbuilt => 6,
            Outcome::Stale => 7,
            Outcome::Failed => 8,
        }
    }
}

/// A search that has waypoints has stopped; and every outcome has its own number.
pub proof fn lemma_outcomes(a: Outcome, b: Outcome)
    ensures
        carries_path(a) ==> settled(a),
        outcome_code(a) == outcome_code(b) <==> a == b,
        0 <= outcome_code(a) <= 8,
{
}

/// Whether `c` is the no-cell marker `[-1, -1, -1]`.
pub open spec fn is_no_cell(c: Cell) -> bool {
    c[0] == -1 && c[1] == -1 && c[2] == -1
}

/// What a search over `vol` settles to before it expands a cell, given the cells its START and
/// GOAL snapped to (the no-cell marker for an end that found none): `Unbuilt`, `Unsnappable` or
/// `Unreachable`, in that order, or `Pending` when the search must go on.
pub open spec fn ends_outcome(vol: Volume, start: Cell, goal: Cell, surface_only: bool) -> Outcome {
    if vol.grid.cells() == 0 {
        Outcome::Unbuilt
    } else if is_no_cell(start) || is_no_cell(goal) {
        Outcome::Unsnappable
    } else if vol.label(vol.grid.index(start), surface_only) != vol.label(
        vol.grid.index(goal),
        surface_only,
    ) {
        Outcome::Unreachable
    } else {
        Outcome::Pending
    }
}

/// Settle what can be settled before a search expands a cell. `start` and `goal` are where the
/// two ends snapped: a cell of the volume, or the no-cell marker.
pub fn resolve_ends(vol: &Volume, start: Cell, goal: Cell, surface_only: bool) -> (o: Outcome)
    requires
        vol.wf(),
        is_no_cell(start) || vol.grid.contains(start),
        is_no_cell(goal) || vol.grid.contains(goal),
    ensures
        o == ends_outcome(*vol, start, goal, surface_only),
{
    if vol.cell_count() == 0 {
        return Outcome::Unbuilt;
    }
    let start_missing = start[0] == -1 && start[1] == -1 && start[2] == -1;
    let goal_missing = goal[0] == -1 && goal[1] == -1 && goal[2] == -1;
    if start_missing || goal_missing {
        return Outcome::Unsnappable;
    }
    let start_ci = vol.grid.cell_index(start);
    let goal_ci = vol.grid.cell_index(goal);
    if vol.label_at_index(start_ci, surface_only) != vol.label_at_index(goal_ci, surface_only) {
        return Outcome::Unreachable;
    }
    Outcome::Pending
}

/// Before a search expands a cell, two snapped ends of a built volume are refused as
/// `Unreachable` exactly when they carry different labels in the graph the mover kind walks:
/// `comp_surf` for a surface mover, `comp_free` otherwise. On a derived volume, with both ends
/// usable by the mover, that is exactly when no walk over that graph joins them: the search goes
/// on (`Pending`) only for ends a route can join.
pub proof fn lemma_ends_compare_the_mover_graph(
    vol: Volume,
    start: Cell,
    goal: Cell,
    surface_only: bool,
)
    requires
        vol.wf(),
        vol.grid.contains(start),
        vol.grid.contains(goal),
    ensures
        surface_only ==> (ends_outcome(vol, start, goal, true) == Outcome::Unreachable
            <==> vol.comp_surf@[vol.grid.index(start)] != vol.comp_surf@[vol.grid.index(goal)]),
        !surface_only ==> (ends_outcome(vol, start, goal, false) == Outcome::Unreachable
            <==> vol.comp_free@[vol.grid.index(start)] != vol.comp_free@[vol.grid.index(goal)]),
        ends_outcome(vol, start, goal, surface_only) == Outcome::Pending || ends_outcome(
            vol,
            start,
            goal,
            surface_only,
        ) == Outcome::Unreachable,
        vol.is_derived() && vol.free_at(start) && vol.free_at(goal) && (!surface_only || (
        vol.surface_at(start) && vol.surface_at(goal))) ==> (ends_outcome(
            vol,
            start,
            goal,
            surface_only,
        ) == Outcome::Pending <==> pass_graph(vol.occ(), vol.surface_flag@, surface_only).connected(
            vol.grid.index(start),
            vol.grid.index(goal),
        )),
{
    lemma_index_round_trip(vol.grid, start, 0);
    lemma_index_round_trip(vol.grid, goal, 0);
    let i = vol.grid.index(start);
    let j = vol.grid.index(goal);
    if vol.is_derived() && vol.free_at(start) && vol.free_at(goal) && (!surface_only || (
    vol.surface_at(start) && vol.surface_at(goal))) {
        reveal(is_canonical_labelling);
        let g = pass_graph(vol.occ(), vol.surface_flag@, surface_only);
        let labels = if surface_only {
            vol.comp_surf@
        } else {
            vol.comp_free@
        };
        assert(is_canonical_labelling(g, labels));
        assert(g.member(i));
        assert(g.member(j));
        assert(labels[i] == labels[j] <==> g.connected(i, j));
    }
}

/// How a search that stopped without reaching its goal ended: `Capped` when the expansion cap
/// stopped it with the frontier still alive, `Unreachable` when the frontier ran out.
pub fn failure_outcome(expansions: u32, max_expansions: u32, frontier_empty: bool) -> (o: Outcome)
    ensures
        o == (if expansions >= max_expansions && !frontier_empty {
            Outcome::Capped
        } else {
            Outcome::Unreachable
        }),
{
    if expansions >= max_expansions && !frontier_empty {
        Outcome::Capped
    } else {
        Outcome::Unreachable
    }
}

} // verus!
