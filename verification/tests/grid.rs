use orbitnav_core::grid::{Grid, DIRS};

fn g() -> Grid {
    Grid::new([5, 7, 3])
}

#[test]
fn index_and_cell_round_trip_on_a_non_cubic_grid() {
    let g = g();
    assert_eq!(g.cell_count(), 5 * 7 * 3);
    for i in 0..g.cell_count() {
        assert_eq!(g.cell_index(g.index_cell(i)), i);
    }
}

#[test]
fn x_varies_fastest() {
    let g = g();
    assert_eq!(g.cell_index([1, 0, 0]), 1);
    assert_eq!(g.cell_index([0, 1, 0]), 5);
    assert_eq!(g.cell_index([0, 0, 1]), 35);
}

#[test]
fn strides_match_the_dirs_order() {
    let g = g();
    let s = g.neighbour_strides();
    for d in 0..6 {
        let from = [2, 3, 1];
        let to = [
            from[0] + DIRS[d][0],
            from[1] + DIRS[d][1],
            from[2] + DIRS[d][2],
        ];
        let expected = g.cell_index(to) as isize - g.cell_index(from) as isize;
        assert_eq!(s[d], expected, "stride {d}");
    }
}

#[test]
fn a_degenerate_extent_has_no_cells() {
    assert_eq!(Grid::new([0, 4, 4]).cell_count(), 0);
    assert_eq!(Grid::new([4, -1, 4]).cell_count(), 0);
}

#[test]
fn in_bounds_is_exactly_the_lattice() {
    let g = g();
    assert!(g.in_bounds([0, 0, 0]));
    assert!(g.in_bounds([4, 6, 2]));
    assert!(!g.in_bounds([5, 0, 0]));
    assert!(!g.in_bounds([0, 7, 0]));
    assert!(!g.in_bounds([0, 0, 3]));
    assert!(!g.in_bounds([-1, 0, 0]));
}

#[test]
fn the_last_index_is_the_far_corner() {
    let g = g();
    assert_eq!(g.index_cell(104), [4, 6, 2]);
    assert_eq!(g.index_cell(0), [0, 0, 0]);
    assert_eq!(g.index_cell(6), [1, 1, 0]);
}
