use orbitnav_core::grid::{Grid, NO_CELL};
use orbitnav_core::occupancy::Occupancy;
use orbitnav_core::volume::Volume;

fn floor_world() -> Volume {
    let g = Grid::new([8, 8, 6]);
    let mut o = Occupancy::empty(g);
    for y in 0..8 {
        for x in 0..8 {
            o.solid[g.cell_index([x, y, 0])] = 1;
        }
    }
    Volume::derive(&o, 1)
}

#[test]
fn free_and_surface_membership_differ() {
    let v = floor_world();
    assert!(
        v.is_usable_cell([4, 4, 1], true),
        "just above the floor is surface"
    );
    assert!(v.is_usable_cell([4, 4, 4], false), "high up is free");
    assert!(!v.is_usable_cell([4, 4, 4], true), "but not surface");
}

#[test]
fn a_draw_always_lands_in_the_component() {
    let v = floor_world();
    // The component of the cell holding the point (4.5, 4.5, 4.5) on a unit lattice at the origin.
    let comp = v.label_at_index(v.grid.cell_index([4, 4, 4]), false);
    assert!(comp >= 0);
    for draw in [0u64, 1, 17, 999, u64::MAX] {
        let c = v.random_cell_in_component_from(comp, false, draw);
        assert_ne!(c, NO_CELL);
        assert_eq!(v.label_at_index(v.grid.cell_index(c), false), comp);
    }
}

#[test]
fn an_empty_component_answers_no_cell() {
    let v = floor_world();
    assert_eq!(v.random_cell_in_component_from(99, false, 0), NO_CELL);
    assert_eq!(v.random_cell_in_component_from(-1, false, 0), NO_CELL);
}

#[test]
fn a_draw_scans_forward_from_its_index_and_wraps() {
    let v = floor_world();
    // Free cells start at flat index 64 (the floor is indices 0..64), all one component.
    assert_eq!(v.random_cell_in_component_from(0, false, 0), v.grid.index_cell(64));
    assert_eq!(v.random_cell_in_component_from(0, false, 64), v.grid.index_cell(64));
    assert_eq!(v.random_cell_in_component_from(0, false, 100), v.grid.index_cell(100));
    // 384 cells: a draw of 384 + 5 starts at index 5, in the floor, and scans forward to 64.
    assert_eq!(v.random_cell_in_component_from(0, false, 389), v.grid.index_cell(64));
}

#[test]
fn a_solid_cell_is_neither_free_nor_usable() {
    let v = floor_world();
    assert!(!v.is_free_cell([4, 4, 0]));
    assert!(!v.is_usable_cell([4, 4, 0], false));
    assert!(!v.is_free_cell([8, 0, 1]), "out of bounds");
    assert!(v.is_surface_cell([0, 0, 1]));
    assert_eq!(v.cell_count(), 384);
}

#[test]
fn deriving_a_volume_again_gives_the_same_volume() {
    let v = floor_world();
    let o = v.occupancy();
    assert_eq!(o.grid, v.grid);
    assert_eq!(o.solid, v.solid);
    let again = Volume::derive(&o, 3);
    assert_eq!(again, v);
}

#[test]
fn a_cell_above_the_floor_points_away_from_it() {
    let v = floor_world();
    assert_eq!(v.outward_at([4, 4, 1]), [0, 0, 1]);
}

#[test]
fn a_cell_touching_nothing_has_no_hint() {
    let v = floor_world();
    assert_eq!(v.outward_at([4, 4, 5]), [0, 0, 0]);
    assert_eq!(v.outward_at([40, 4, 5]), [0, 0, 0], "outside the lattice");
}

#[test]
fn a_cell_in_a_corner_points_out_of_it() {
    let g = Grid::new([4, 4, 4]);
    let mut o = Occupancy::empty(g);
    for c in [[0, 1, 1], [1, 0, 1], [1, 1, 0]] {
        o.solid[g.cell_index(c)] = 1;
    }
    let v = Volume::derive(&o, 1);
    assert_eq!(v.outward_at([1, 1, 1]), [1, 1, 1]);
}

#[test]
fn the_component_of_a_cell_outside_is_none() {
    let v = floor_world();
    assert_eq!(v.component_of_cell([4, 4, 4], false), 0);
    assert_eq!(v.component_of_cell([4, 4, 4], true), -1);
    assert_eq!(v.component_of_cell([4, 4, 1], true), 0);
    assert_eq!(v.component_of_cell([-1, 4, 4], false), -1);
}
