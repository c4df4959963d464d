use orbitnav_core::grid::Grid;
use orbitnav_core::navd::{navd_len, read_navd, write_navd, NavdError, Placement};
use orbitnav_core::occupancy::Occupancy;
use orbitnav_core::volume::Volume;

fn placement() -> Placement {
    Placement {
        cell_size: 1.0f32.to_bits(),
        origin: [(-2.0f32).to_bits(), 1.0f32.to_bits(), 0.5f32.to_bits()],
    }
}

fn sample() -> Volume {
    let g = Grid::new([7, 5, 4]);
    let mut o = Occupancy::empty(g);
    for x in 0..7 {
        o.solid[g.cell_index([x, 0, 0])] = 1;
    }
    Volume::derive(&o, 1)
}

fn dump() -> Vec<u8> {
    write_navd(&placement(), &sample())
}

#[test]
fn a_volume_round_trips() {
    let v = sample();
    let bytes = write_navd(&placement(), &v);
    assert_eq!(bytes.len(), navd_len(v.cell_count()));
    let (p, back) = read_navd(&bytes).expect("round trip");
    assert_eq!(p, placement());
    assert_eq!(back.grid, v.grid);
    assert_eq!(back.solid, v.solid);
    assert_eq!(back.surface_bits, v.surface_bits);
    assert_eq!(back.solid_sides, v.solid_sides);
    assert_eq!(back.surface_flag, v.surface_flag);
    assert_eq!(back.comp_free, v.comp_free);
    assert_eq!(back.comp_surf, v.comp_surf);
}

#[test]
fn a_dump_re_derives_to_itself() {
    let (_, back) = read_navd(&dump()).unwrap();
    let again = Volume::derive(&back.occupancy(), 1);
    assert_eq!(again.surface_bits, back.surface_bits);
    assert_eq!(again.solid_sides, back.solid_sides);
    assert_eq!(again.surface_flag, back.surface_flag);
    assert_eq!(again.comp_free, back.comp_free);
    assert_eq!(again.comp_surf, back.comp_surf);
}

#[test]
fn bad_magic_is_an_error() {
    let mut b = dump();
    b[0] = b'X';
    assert_eq!(read_navd(&b), Err(NavdError::BadMagic));
}

#[test]
fn a_truncated_dump_is_an_error() {
    let b = dump();
    let cut = &b[..b.len() - 9];
    assert!(matches!(
        read_navd(cut),
        Err(NavdError::LengthMismatch { .. })
    ));
    assert_eq!(read_navd(&b[..12]), Err(NavdError::ShortHeader));
}

#[test]
fn dims_inconsistent_with_the_length_is_an_error() {
    let mut b = dump();
    b[4] = 99;
    assert!(matches!(
        read_navd(&b),
        Err(NavdError::LengthMismatch { .. })
    ));
}

#[test]
fn a_non_positive_extent_is_an_error() {
    let mut b = dump();
    b[4..8].copy_from_slice(&0i32.to_le_bytes());
    assert_eq!(read_navd(&b), Err(NavdError::BadDims));
}

#[test]
fn an_empty_buffer_is_an_error_not_a_panic() {
    assert_eq!(read_navd(&[]), Err(NavdError::ShortHeader));
}

#[test]
fn the_header_is_laid_out_as_documented() {
    let b = dump();
    assert_eq!(&b[0..4], b"NAVD");
    assert_eq!(&b[4..8], &7i32.to_le_bytes());
    assert_eq!(&b[8..12], &5i32.to_le_bytes());
    assert_eq!(&b[12..16], &4i32.to_le_bytes());
    assert_eq!(&b[16..20], &1.0f32.to_le_bytes());
    assert_eq!(&b[20..24], &(-2.0f32).to_le_bytes());
    assert_eq!(&b[24..28], &1.0f32.to_le_bytes());
    assert_eq!(&b[28..32], &0.5f32.to_le_bytes());
    // solid comes first: the seven floor cells of row y = 0, z = 0.
    assert_eq!(&b[32..39], &[1u8; 7]);
    assert_eq!(b[39], 0);
    assert_eq!(navd_len(140), 32 + 12 * 140);
    assert_eq!(b.len(), 32 + 12 * 140);
}

#[test]
fn the_reported_lengths_are_exact() {
    let b = dump();
    assert_eq!(
        read_navd(&b[..b.len() - 9]),
        Err(NavdError::LengthMismatch {
            expected: 32 + 12 * 140,
            got: 32 + 12 * 140 - 9
        })
    );
}

#[test]
fn an_absurd_extent_is_a_length_mismatch_not_a_panic() {
    let mut b = dump();
    b[4..8].copy_from_slice(&i32::MAX.to_le_bytes());
    b[8..12].copy_from_slice(&i32::MAX.to_le_bytes());
    b[12..16].copy_from_slice(&i32::MAX.to_le_bytes());
    let got = b.len();
    assert_eq!(
        read_navd(&b),
        Err(NavdError::LengthMismatch {
            expected: usize::MAX,
            got
        })
    );
}

#[test]
fn a_written_dump_re_reads_to_the_same_bytes() {
    let b = dump();
    let (p, v) = read_navd(&b).unwrap();
    assert_eq!(write_navd(&p, &v), b);
}
