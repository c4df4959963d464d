use orbitnav_core::grid::{Grid, DIRS};
use orbitnav_core::occupancy::Occupancy;
use orbitnav_core::surface::{
    chunk_ranges, classify_range, derive_surface, join_pieces, workers_for, Progress, SurfaceArrays,
};

fn grid(d: [i32; 3]) -> Grid {
    Grid::new(d)
}

fn with_solid(d: [i32; 3], cells: &[[i32; 3]]) -> Occupancy {
    let g = grid(d);
    let mut o = Occupancy::empty(g);
    for &c in cells {
        o.solid[g.cell_index(c)] = 1;
    }
    o
}

#[test]
fn an_all_free_volume_derives_to_all_zero() {
    let o = Occupancy::empty(grid([12, 12, 12]));
    let s = derive_surface(&o, 1);
    assert!(s.surface_bits.iter().all(|&b| b == 0));
    assert!(s.solid_sides.iter().all(|&b| b == 0));
    assert!(s.surface_flag.iter().all(|&b| b == 0));
}

#[test]
fn each_direction_sets_its_own_bit() {
    let g = grid([5, 5, 5]);
    let centre = [2, 2, 2];
    for (d, dir) in DIRS.iter().enumerate() {
        let nb = [centre[0] + dir[0], centre[1] + dir[1], centre[2] + dir[2]];
        let o = with_solid([5, 5, 5], &[nb]);
        let s = derive_surface(&o, 1);
        let i = g.cell_index(centre);
        assert_eq!(s.surface_bits[i], 1 << d, "direction {d}");
        assert_eq!(s.solid_sides[i], 1);
        assert_eq!(s.surface_flag[i], 1);
    }
}

#[test]
fn out_of_bounds_reads_as_open() {
    let g = grid([4, 4, 4]);
    let o = with_solid([4, 4, 4], &[[1, 0, 0]]);
    let s = derive_surface(&o, 1);
    let i = g.cell_index([0, 0, 0]);
    assert_eq!(s.surface_bits[i], 1 << 1, "only +x is solid");
    assert_eq!(s.solid_sides[i], 1, "the three off-lattice sides are open");
}

#[test]
fn a_corner_only_neighbour_flags_without_bits() {
    let g = grid([5, 5, 5]);
    let o = with_solid([5, 5, 5], &[[3, 3, 3]]);
    let s = derive_surface(&o, 1);
    let i = g.cell_index([2, 2, 2]);
    assert_eq!(s.surface_bits[i], 0, "a diagonal is not a face neighbour");
    assert_eq!(s.solid_sides[i], 0);
    assert_eq!(s.surface_flag[i], 1, "but it is inside the 26-neighbourhood");
}

#[test]
fn a_solid_cell_derives_nothing() {
    let g = grid([5, 5, 5]);
    let o = with_solid([5, 5, 5], &[[2, 2, 2], [3, 2, 2]]);
    let s = derive_surface(&o, 1);
    let i = g.cell_index([2, 2, 2]);
    assert_eq!(
        (s.surface_bits[i], s.solid_sides[i], s.surface_flag[i]),
        (0, 0, 0)
    );
}

#[test]
fn a_cell_far_outside_the_box_stays_zero() {
    let g = grid([20, 5, 5]);
    let o = with_solid([20, 5, 5], &[[1, 2, 2]]);
    let s = derive_surface(&o, 1);
    let i = g.cell_index([18, 2, 2]);
    assert_eq!(s.surface_flag[i], 0);
}

fn shell_and_bar() -> Occupancy {
    let d = [40, 40, 40];
    let g = grid(d);
    let mut o = Occupancy::empty(g);
    for z in 0..d[2] {
        for y in 0..d[1] {
            for x in 0..d[0] {
                let shell = x == 5 || x == 34 || y == 5 || y == 34;
                let bar = x == y && z % 3 == 0;
                if shell || bar {
                    o.solid[g.cell_index([x, y, z])] = 1;
                }
            }
        }
    }
    o
}

#[test]
fn chunking_is_identical() {
    let o = shell_and_bar();
    let serial = derive_surface(&o, 1);
    for w in [2usize, 3, 7, 16] {
        assert_eq!(derive_surface(&o, w), serial, "{w} workers diverged");
    }
}

#[test]
fn ranges_concatenate_to_the_whole() {
    let o = shell_and_bar();
    let whole = derive_surface(&o, 1);
    let (lo, hi) = o.solid_bbox().unwrap();
    let n = o.grid.cell_count();
    let cuts = [0usize, 1, 999, 20000, 33333, n];
    let mut joined = SurfaceArrays {
        surface_bits: Vec::new(),
        solid_sides: Vec::new(),
        surface_flag: Vec::new(),
    };
    for k in 0..cuts.len() - 1 {
        let part = classify_range(&o, lo, hi, cuts[k], cuts[k + 1]);
        assert_eq!(part.surface_bits.len(), cuts[k + 1] - cuts[k]);
        joined.surface_bits.extend(part.surface_bits);
        joined.solid_sides.extend(part.solid_sides);
        joined.surface_flag.extend(part.surface_flag);
    }
    assert_eq!(joined, whole);
}

#[test]
fn sides_count_the_bits() {
    let o = with_solid([5, 5, 5], &[[1, 2, 2], [3, 2, 2], [2, 1, 2], [2, 2, 3]]);
    let s = derive_surface(&o, 1);
    let i = o.grid.cell_index([2, 2, 2]);
    assert_eq!(s.surface_bits[i], 1 | 2 | 4 | 32);
    assert_eq!(s.solid_sides[i], 4);
    assert_eq!(s.surface_flag[i], 1);
}

#[test]
fn small_grids_use_one_worker() {
    assert_eq!(workers_for(10, 8), 1);
    assert_eq!(workers_for(8191, 3), 1);
    assert_eq!(workers_for(8192, 3), 3);
    assert_eq!(workers_for(1_000_000, 0), 1);
    assert_eq!(workers_for(1_000_000, 8), 8);
}

#[test]
fn zeroed_arrays_have_the_length_asked_for() {
    let z = SurfaceArrays::zeroed(17);
    assert_eq!(z.surface_bits, vec![0u8; 17]);
    assert_eq!(z.solid_sides, vec![0u8; 17]);
    assert_eq!(z.surface_flag, vec![0u8; 17]);
}

#[test]
fn progress_counts_what_is_added() {
    let p = Progress::new();
    assert_eq!(p.get(), 0);
    p.add(5);
    p.add(7);
    assert_eq!(p.get(), 12);
}

#[test]
fn chunks_cover_the_cells_in_order() {
    assert_eq!(chunk_ranges(10, 3), vec![(0, 4), (4, 8), (8, 10)]);
    assert_eq!(chunk_ranges(12, 3), vec![(0, 4), (4, 8), (8, 12)]);
    assert_eq!(chunk_ranges(5, 8), vec![(0, 1), (1, 2), (2, 3), (3, 4), (4, 5)]);
    assert_eq!(chunk_ranges(7, 1), vec![(0, 7)]);
    assert_eq!(chunk_ranges(0, 4), vec![]);
}

#[test]
fn joined_chunks_are_the_serial_derive() {
    let o = shell_and_bar();
    let serial = derive_surface(&o, 1);
    let (lo, hi) = o.solid_bbox().unwrap();
    for w in [2usize, 3, 7, 16] {
        let pieces: Vec<SurfaceArrays> = chunk_ranges(o.grid.cell_count(), w)
            .into_iter()
            .map(|(a, b)| classify_range(&o, lo, hi, a, b))
            .collect();
        assert_eq!(join_pieces(&pieces), serial, "{w} chunks diverged");
    }
}
