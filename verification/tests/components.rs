use orbitnav_core::components::{label_components, NO_COMPONENT};
use orbitnav_core::grid::Grid;
use orbitnav_core::occupancy::Occupancy;
use orbitnav_core::surface::{derive_surface, SurfaceArrays};

fn world(d: [i32; 3], solid: &[[i32; 3]]) -> (Occupancy, SurfaceArrays) {
    let g = Grid::new(d);
    let mut o = Occupancy::empty(g);
    for &c in solid {
        o.solid[g.cell_index(c)] = 1;
    }
    let s = derive_surface(&o, 1);
    (o, s)
}

#[test]
fn an_empty_world_is_one_free_component_and_no_surface() {
    let (o, s) = world([6, 6, 6], &[]);
    let (free, surface) = label_components(&o, &s);
    assert!(free.iter().all(|&l| l == 0));
    assert!(surface.iter().all(|&l| l == NO_COMPONENT));
}

#[test]
fn a_solid_cell_is_in_neither_graph() {
    let (o, s) = world([5, 5, 5], &[[2, 2, 2]]);
    let (free, surface) = label_components(&o, &s);
    let i = o.grid.cell_index([2, 2, 2]);
    assert_eq!(free[i], NO_COMPONENT);
    assert_eq!(surface[i], NO_COMPONENT);
}

#[test]
fn a_sealed_room_is_its_own_component() {
    let d = [7, 7, 7];
    let mut solid = Vec::new();
    for z in 2..=4 {
        for y in 2..=4 {
            for x in 2..=4 {
                if [x, y, z] != [3, 3, 3] {
                    solid.push([x, y, z]);
                }
            }
        }
    }
    let (o, s) = world(d, &solid);
    let (free, _) = label_components(&o, &s);
    let inside = free[o.grid.cell_index([3, 3, 3])];
    let outside = free[o.grid.cell_index([0, 0, 0])];
    assert_ne!(inside, outside, "the cavity must not join the outside");
    assert_eq!(free.iter().filter(|&&l| l == inside).count(), 1);
}

#[test]
fn labels_are_numbered_by_the_linear_seed_scan() {
    let d = [11, 5, 5];
    let mut solid = Vec::new();
    for x in 0..11 {
        for y in 0..5 {
            for z in 0..5 {
                let wall = x == 5;
                if wall {
                    solid.push([x, y, z]);
                }
            }
        }
    }
    let (o, s) = world(d, &solid);
    let (free, _) = label_components(&o, &s);
    assert_eq!(
        free[o.grid.cell_index([0, 0, 0])],
        0,
        "lowest index seeds component 0"
    );
    assert_eq!(free[o.grid.cell_index([6, 0, 0])], 1);
}

#[test]
fn the_surface_pass_restarts_numbering_at_zero() {
    let d = [9, 5, 5];
    let (o, s) = world(d, &[[2, 2, 2], [6, 2, 2]]);
    let (_, surface) = label_components(&o, &s);
    let mut seen: Vec<i32> = surface
        .iter()
        .copied()
        .filter(|&l| l != NO_COMPONENT)
        .collect();
    seen.sort_unstable();
    seen.dedup();
    assert_eq!(
        seen.first(),
        Some(&0),
        "the surface pass numbers from 0, not from the free pass's next label"
    );
}

/// A FIFO frontier over the same seed scan, to show the discipline is unobservable.
fn label_pass_fifo(occ: &Occupancy, surf: &SurfaceArrays, surface_pass: bool) -> Vec<i32> {
    let n = occ.grid.cell_count();
    let g = occ.grid;
    let (dx, dy, dz) = (g.dims[0], g.dims[1], g.dims[2]);
    let strides = g.neighbour_strides();
    let mut labels = vec![NO_COMPONENT; n];
    let member = |i: usize| occ.solid[i] == 0 && (!surface_pass || surf.surface_flag[i] != 0);
    let mut next_label = 0;
    let mut q: std::collections::VecDeque<usize> = std::collections::VecDeque::new();
    for seed in 0..n {
        if labels[seed] != NO_COMPONENT || !member(seed) {
            continue;
        }
        let label = next_label;
        next_label += 1;
        labels[seed] = label;
        q.push_back(seed);
        while let Some(i) = q.pop_front() {
            let c = g.index_cell(i);
            for (d, &stride) in strides.iter().enumerate() {
                let ok = match d {
                    0 => c[0] > 0,
                    1 => c[0] < dx - 1,
                    2 => c[1] > 0,
                    3 => c[1] < dy - 1,
                    4 => c[2] > 0,
                    _ => c[2] < dz - 1,
                };
                if !ok {
                    continue;
                }
                let j = (i as isize + stride) as usize;
                if labels[j] == NO_COMPONENT && member(j) {
                    labels[j] = label;
                    q.push_back(j);
                }
            }
        }
    }
    labels
}

#[test]
fn lifo_and_fifo_agree() {
    let d = [16, 12, 10];
    let mut solid = Vec::new();
    for x in 0..d[0] {
        for y in 0..d[1] {
            for z in 0..d[2] {
                if (x * 7 + y * 13 + z * 5) % 11 == 0 {
                    solid.push([x, y, z]);
                }
            }
        }
    }
    let (o, s) = world(d, &solid);
    let (free, surface) = label_components(&o, &s);
    assert_eq!(
        free,
        label_pass_fifo(&o, &s, false),
        "free graph depends on frontier order"
    );
    assert_eq!(
        surface,
        label_pass_fifo(&o, &s, true),
        "surface graph depends on frontier order"
    );
}

#[test]
fn a_full_wall_splits_the_surface_graph_too() {
    // A wall across x = 3: the surface cells on its two faces are in different surface
    // components, numbered in seed-scan order.
    let mut solid = Vec::new();
    for y in 0..4 {
        for z in 0..4 {
            solid.push([3, y, z]);
        }
    }
    let (o, s) = world([7, 4, 4], &solid);
    let (free, surface) = label_components(&o, &s);
    assert_eq!(free[o.grid.cell_index([0, 0, 0])], 0);
    assert_eq!(free[o.grid.cell_index([6, 0, 0])], 1);
    assert_eq!(surface[o.grid.cell_index([2, 0, 0])], 0);
    assert_eq!(surface[o.grid.cell_index([4, 0, 0])], 1);
    assert_eq!(surface[o.grid.cell_index([0, 0, 0])], NO_COMPONENT, "two cells off the wall");
}
