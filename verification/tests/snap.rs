use orbitnav_core::snap::{default_snap_r, FREE_SNAP_R, SURFACE_SNAP_R};

#[test]
fn default_radii_differ_by_mover_kind() {
    assert_eq!(default_snap_r(true), SURFACE_SNAP_R);
    assert_eq!(default_snap_r(false), FREE_SNAP_R);
}

#[test]
fn the_surface_radius_is_the_wider() {
    assert_eq!(SURFACE_SNAP_R, 9);
    assert_eq!(FREE_SNAP_R, 5);
    assert!(default_snap_r(true) > default_snap_r(false));
}
