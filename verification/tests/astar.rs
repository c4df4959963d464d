use orbitnav_core::astar::{failure_outcome, resolve_ends, Outcome};
use orbitnav_core::grid::{Grid, NO_CELL};
use orbitnav_core::occupancy::Occupancy;
use orbitnav_core::volume::Volume;

/// Two rooms with no doorway at all.
fn sealed() -> Volume {
    let g = Grid::new([24, 8, 8]);
    let mut o = Occupancy::empty(g);
    for y in 0..8 {
        for z in 0..8 {
            o.solid[g.cell_index([12, y, z])] = 1;
        }
    }
    Volume::derive(&o, 1)
}

#[test]
fn an_empty_volume_resolves_unbuilt() {
    let v = Volume::derive(&Occupancy::empty(Grid::new([0, 0, 0])), 1);
    assert_eq!(resolve_ends(&v, NO_CELL, NO_CELL, false), Outcome::Unbuilt);
}

#[test]
fn a_missing_end_resolves_unsnappable() {
    let v = sealed();
    assert_eq!(resolve_ends(&v, NO_CELL, [1, 1, 1], false), Outcome::Unsnappable);
    assert_eq!(resolve_ends(&v, [1, 1, 1], NO_CELL, true), Outcome::Unsnappable);
}

#[test]
fn ends_in_different_rooms_resolve_unreachable() {
    let v = sealed();
    assert_eq!(resolve_ends(&v, [1, 1, 1], [22, 1, 1], false), Outcome::Unreachable);
    assert_eq!(resolve_ends(&v, [11, 1, 1], [13, 1, 1], true), Outcome::Unreachable);
}

#[test]
fn ends_in_one_room_go_on_searching() {
    let v = sealed();
    assert_eq!(resolve_ends(&v, [1, 1, 1], [10, 6, 6], false), Outcome::Pending);
    assert_eq!(resolve_ends(&v, [11, 1, 1], [11, 6, 6], true), Outcome::Pending);
}

#[test]
fn the_cap_is_distinguishable_from_an_exhausted_frontier() {
    assert_eq!(failure_outcome(40, 40, false), Outcome::Capped);
    assert_eq!(failure_outcome(41, 40, false), Outcome::Capped);
    assert_eq!(failure_outcome(40, 40, true), Outcome::Unreachable);
    assert_eq!(failure_outcome(39, 40, false), Outcome::Unreachable);
}

#[test]
fn settled_and_path_carrying_outcomes() {
    let all = [
        Outcome::Pending,
        Outcome::Found,
        Outcome::Direct,
        Outcome::Unreachable,
        Outcome::Capped,
        Outcome::Unsnappable,
        Outcome::Unbuilt,
        Outcome::Stale,
        Outcome::Failed,
    ];
    for (k, o) in all.iter().enumerate() {
        assert_eq!(o.code(), k as i64);
        assert_eq!(o.is_settled(), k != 0);
        assert_eq!(o.has_path(), k == 1 || k == 2);
        if o.has_path() {
            assert!(o.is_settled());
        }
    }
}
