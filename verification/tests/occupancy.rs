use orbitnav_core::grid::Grid;
use orbitnav_core::occupancy::Occupancy;

fn grid() -> Grid {
    Grid::new([6, 5, 4])
}

#[test]
fn an_all_free_grid_has_no_bbox() {
    assert_eq!(Occupancy::empty(grid()).solid_bbox(), None);
}

#[test]
fn one_solid_cell_gives_a_degenerate_box() {
    let g = grid();
    let mut o = Occupancy::empty(g);
    o.solid[g.cell_index([2, 3, 1])] = 1;
    assert_eq!(o.solid_bbox(), Some(([2, 3, 1], [2, 3, 1])));
}

#[test]
fn the_box_matches_a_brute_force_min_max() {
    let g = grid();
    let mut o = Occupancy::empty(g);
    for c in [[1, 1, 1], [4, 2, 0], [0, 4, 3]] {
        o.solid[g.cell_index(c)] = 1;
    }
    assert_eq!(o.solid_bbox(), Some(([0, 1, 0], [4, 4, 3])));
}

#[test]
fn a_wrong_sized_array_is_refused() {
    assert!(Occupancy::new(grid(), vec![0; 3]).is_none());
    assert!(Occupancy::new(grid(), vec![0; grid().cell_count()]).is_some());
}

#[test]
fn any_non_zero_byte_is_solid() {
    let g = grid();
    let mut o = Occupancy::empty(g);
    o.solid[7] = 200;
    assert!(o.is_solid_index(7));
    assert!(!o.is_solid_index(8));
    assert_eq!(o.solid_bbox(), Some((g.index_cell(7), g.index_cell(7))));
}
