//! The `NAVD` volume dump: a whole volume as bytes.
//!
//! One flat little-endian record, no padding and no per-section counts -- every array's length
//! follows from `dims`:
//!
//! | bytes | field |
//! |---|---|
//! | 4 | `"NAVD"` |
//! | 12 | `dims.x`, `dims.y`, `dims.z` as `i32` |
//! | 4 | `cell_size` as an IEEE-754 single |
//! | 12 | `origin.x/y/z` as IEEE-754 singles |
//! | N | `solid` |
//! | N | `surface_bits` |
//! | N | `solid_sides` |
//! | N | `surface_flag` |
//! | 4N | `comp_free` as `i32` |
//! | 4N | `comp_surf` as `i32` |
//! | | where `N = dims.x * dims.y * dims.z` |
//!
//! This exists so a dump can be read here and re-derived from its `solid` alone, and the five
//! derived arrays compared byte for byte with the ones it carried.
//!
//! The four single-precision header fields place the lattice in world space. Nothing in this crate
//! computes with them, so they travel as their bit patterns in a [`Placement`].
//!
//! Every malformed input is a [`NavdError`], never a panic: the files come from outside.
use crate::grid::{cells_of, lemma_product_bounds, Cell, Grid};
use crate::surface::SurfaceArrays;
use crate::volume::Volume;
use vstd::prelude::*;

verus! {

/// The four magic bytes a dump starts with: `"NAVD"`.
pub const MAGIC: [u8; 4] = [78u8, 65u8, 86u8, 68u8];

/// Why a dump could not be read.
#[derive(Clone, Copy, Debug, PartialEq, Eq, Structural)]
pub enum NavdError {
    /// The first four bytes are not [`MAGIC`].
    BadMagic,
    /// The buffer ends before the header does.
    ShortHeader,
    /// `dims` contains a non-positive extent.
    BadDims,
    /// The buffer is not the length `dims` implies.
    LengthMismatch {
        /// How many bytes the header implies; `usize::MAX` when that is more than a `usize`
        /// counts.
        expected: usize,
        /// How many bytes there are.
        got: usize,
    },
}

/// Where the lattice sits in world space, as the dump header stores it: the bit patterns of the
/// single-precision cell size and origin.
#[derive(Clone, Copy, Debug, PartialEq, Eq)]
pub struct Placement {
    /// Bits of the edge length of one cell.
    pub cell_size: u32,
    /// Bits of the world position of the lattice's minimum corner, x, y, z.
    pub origin: [u32; 3],
}

/// Everything a dump holds, as values.
#[verifier::ext_equal]
pub struct NavdRecord {
    /// The header's placement fields.
    pub placement: Placement,
    /// The header's extents.
    pub dims: Cell,
    /// `solid`.
    pub solid: Seq<u8>,
    /// `surface_bits`.
    pub surface_bits: Seq<u8>,
    /// `solid_sides`.
    pub solid_sides: Seq<u8>,
    /// `surface_flag`.
    pub surface_flag: Seq<u8>,
    /// `comp_free`.
    pub comp_free: Seq<i32>,
    /// `comp_surf`.
    pub comp_surf: Seq<i32>,
}

/// How many bytes a dump of `n` cells occupies, header included.
pub open spec fn navd_size(n: int) -> int {
    32 + 4 * n + 8 * n
}

/// The little-endian `u32` at offset `o`.
pub open spec fn le_u32(b: Seq<u8>, o: int) -> u32 {
    (b[o] as int + 256 * (b[o + 1] as int) + 65536 * (b[o + 2] as int) + 16777216 * (
    b[o + 3] as int)) as u32
}

/// The little-endian `i32` at offset `o`: the two's-complement reading of [`le_u32`].
pub open spec fn le_i32(b: Seq<u8>, o: int) -> i32 {
    le_u32(b, o) as i32
}

/// The four little-endian bytes of `u`.
pub open spec fn u32_bytes(u: u32) -> Seq<u8> {
    seq![
        (u % 256) as u8,
        ((u / 256) % 256) as u8,
        ((u / 65536) % 256) as u8,
        (u / 16777216) as u8,
    ]
}

/// The four little-endian two's-complement bytes of `v`.
pub open spec fn i32_bytes(v: i32) -> Seq<u8> {
    u32_bytes(v as u32)
}

/// The little-endian bytes of every element of `s`, in order.
pub open spec fn i32s_bytes(s: Seq<i32>) -> Seq<u8> {
    Seq::new(4 * s.len(), |k: int| i32_bytes(s[k / 4])[k % 4])
}

/// The `n` little-endian `i32`s starting at offset `o`.
pub open spec fn le_i32s(b: Seq<u8>, o: int, n: int) -> Seq<i32> {
    Seq::new(n as nat, |k: int| le_i32(b, o + 4 * k))
}

/// The dump of `r`, byte for byte.
#[verifier::opaque]
pub open spec fn navd_encode(r: NavdRecord) -> Seq<u8> {
    seq![78u8, 65u8, 86u8, 68u8] + i32_bytes(r.dims[0]) + i32_bytes(r.dims[1]) + i32_bytes(
        r.dims[2],
    ) + u32_bytes(r.placement.cell_size) + u32_bytes(r.placement.origin[0]) + u32_bytes(
        r.placement.origin[1],
    ) + u32_bytes(r.placement.origin[2]) + r.solid + r.surface_bits + r.solid_sides
        + r.surface_flag + i32s_bytes(r.comp_free) + i32s_bytes(r.comp_surf)
}

/// Whether the first four bytes are [`MAGIC`].
pub open spec fn has_magic(b: Seq<u8>) -> bool {
    b[0] == 78 && b[1] == 65 && b[2] == 86 && b[3] == 68
}

/// The extents the header of `b` claims.
pub open spec fn header_dims(b: Seq<u8>) -> Cell {
    [le_i32(b, 4), le_i32(b, 8), le_i32(b, 12)]
}

/// What reading `b` gives: the first failing check, in order, or the record.
pub open spec fn navd_decode(b: Seq<u8>) -> Result<NavdRecord, NavdError> {
    if b.len() < 32 {
        Err(NavdError::ShortHeader)
    } else if !has_magic(b) {
        Err(NavdError::BadMagic)
    } else {
        let dims = header_dims(b);
        if dims[0] <= 0 || dims[1] <= 0 || dims[2] <= 0 {
            Err(NavdError::BadDims)
        } else {
            let n = cells_of(dims);
            if b.len() != navd_size(n) {
                Err(
                    NavdError::LengthMismatch {
                        expected: if navd_size(n) <= usize::MAX {
                            navd_size(n) as usize
                        } else {
                            usize::MAX
                        },
                        got: b.len() as usize,
                    },
                )
            } else {
                Ok(
                    NavdRecord {
                        placement: Placement {
                            cell_size: le_u32(b, 16),
                            origin: [le_u32(b, 20), le_u32(b, 24), le_u32(b, 28)],
                        },
                        dims,
                        solid: b.subrange(32, 32 + n),
                        surface_bits: b.subrange(32 + n, 32 + 2 * n),
                        solid_sides: b.subrange(32 + 2 * n, 32 + 3 * n),
                        surface_flag: b.subrange(32 + 3 * n, 32 + 4 * n),
                        comp_free: le_i32s(b, 32 + 4 * n, n),
                        comp_surf: le_i32s(b, 32 + 8 * n, n),
                    },
                )
            }
        }
    }
}

/// A record whose arrays are as long as its positive extents imply, and whose dump fits a
/// `usize`.
pub open spec fn record_fits(r: NavdRecord) -> bool {
    let n = cells_of(r.dims);
    &&& r.dims[0] > 0 && r.dims[1] > 0 && r.dims[2] > 0
    &&& navd_size(n) <= usize::MAX
    &&& r.solid.len() == n
    &&& r.surface_bits.len() == n
    &&& r.solid_sides.len() == n
    &&& r.surface_flag.len() == n
    &&& r.comp_free.len() == n
    &&& r.comp_surf.len() == n
}

impl Volume {
    /// The dump record of this volume under placement `p`.
    pub open spec fn navd_record(&self, p: Placement) -> NavdRecord {
        NavdRecord {
            placement: p,
            dims: self.grid.dims,
            solid: self.solid@,
            surface_bits: self.surface_bits@,
            solid_sides: self.solid_sides@,
            surface_flag: self.surface_flag@,
            comp_free: self.comp_free@,
            comp_surf: self.comp_surf@,
        }
    }
}

/// How many bytes a dump of `n` cells occupies, header included.
pub fn navd_len(n: usize) -> (len: usize)
    requires
        navd_size(n as int) <= usize::MAX,
    ensures
        len == navd_size(n as int),
{
    32 + 4 * n + 8 * n
}

/// The cell count positive extents `dims` imply, and the length of their dump, or `None` when
/// that length does not fit a `usize`.
fn implied_len(dims: Cell) -> (r: Option<(usize, usize)>)
    requires
        dims[0] > 0 && dims[1] > 0 && dims[2] > 0,
    ensures
        r matches Some((n, len)) ==> n == cells_of(dims) && len == navd_size(n as int),
        r is None ==> navd_size(cells_of(dims)) > usize::MAX,
{
    let x = dims[0] as usize;
    let y = dims[1] as usize;
    let z = dims[2] as usize;
    proof {
        lemma_product_bounds(dims[0] as int, dims[1] as int, dims[2] as int);
    }
    let xy = match x.checked_mul(y) {
        Some(v) => v,
        None => {
            return None;
        },
    };
    let n = match xy.checked_mul(z) {
        Some(v) => v,
        None => {
            return None;
        },
    };
    let body = match n.checked_mul(12) {
        Some(v) => v,
        None => {
            return None;
        },
    };
    match body.checked_add(32) {
        Some(len) => Some((n, len)),
        None => None,
    }
}

/// The little-endian `u32` at offset `o` of `buf`.
fn read_u32(buf: &[u8], o: usize) -> (u: u32)
    requires
        o + 4 <= buf@.len(),
    ensures
        u == le_u32(buf@, o as int),
{
    (buf[o] as u32) + (buf[o + 1] as u32) * 256 + (buf[o + 2] as u32) * 65536 + (buf[o + 3] as u32)
        * 16777216
}

/// The little-endian `i32` at offset `o` of `buf`.
fn read_i32(buf: &[u8], o: usize) -> (v: i32)
    requires
        o + 4 <= buf@.len(),
    ensures
        v == le_i32(buf@, o as int),
{
    read_u32(buf, o) as i32
}

/// `buf[o..o + n]`, copied.
fn copy_range(buf: &[u8], o: usize, n: usize) -> (v: Vec<u8>)
    requires
        o + n <= buf@.len(),
    ensures
        v@ == buf@.subrange(o as int, o + n),
{
    let mut v: Vec<u8> = Vec::new();
    let mut k: usize = 0;
    let len = buf.len();
    while k < n
        invariant
            len == buf@.len(),
            o + n <= buf@.len(),
            k <= n,
            v@ == buf@.subrange(o as int, o + k),
        decreases n - k,
    {
        v.push(buf[o + k]);
        k += 1;
    }
    v
}

/// The `n` little-endian `i32`s starting at offset `o` of `buf`.
fn read_i32s(buf: &[u8], o: usize, n: usize) -> (v: Vec<i32>)
    requires
        o + 4 * n <= buf@.len(),
    ensures
        v@ == le_i32s(buf@, o as int, n as int),
{
    let mut v: Vec<i32> = Vec::new();
    let mut k: usize = 0;
    let len = buf.len();
    while k < n
        invariant
            len == buf@.len(),
            o + 4 * n <= buf@.len(),
            k <= n,
            v@ == le_i32s(buf@, o as int, k as int),
        decreases n - k,
    {
        v.push(read_i32(buf, o + 4 * k));
        k += 1;
        assert(v@ =~= le_i32s(buf@, o as int, k as int));
    }
    v
}

/// Read a dump: the placement its header carries, and the volume.
pub fn read_navd(buf: &[u8]) -> (r: Result<(Placement, Volume), NavdError>)
    ensures
        match r {
            Ok((p, v)) => navd_decode(buf@) == Ok::<NavdRecord, NavdError>(v.navd_record(p)),
            Err(e) => navd_decode(buf@) == Err::<NavdRecord, NavdError>(e),
        },
{
    if buf.len() < 32 {
        return Err(NavdError::ShortHeader);
    }
    if buf[0] != MAGIC[0] || buf[1] != MAGIC[1] || buf[2] != MAGIC[2] || buf[3] != MAGIC[3] {
        return Err(NavdError::BadMagic);
    }
    let dims: Cell = [read_i32(buf, 4), read_i32(buf, 8), read_i32(buf, 12)];
    assert(dims == header_dims(buf@));
    if dims[0] <= 0 || dims[1] <= 0 || dims[2] <= 0 {
        return Err(NavdError::BadDims);
    }
    let grid = Grid::new(dims);
    let (n, expected) = match implied_len(dims) {
        Some(pair) => pair,
        None => {
            return Err(NavdError::LengthMismatch { expected: usize::MAX, got: buf.len() });
        },
    };
    if buf.len() != expected {
        return Err(NavdError::LengthMismatch { expected, got: buf.len() });
    }
    let placement = Placement {
        cell_size: read_u32(buf, 16),
        origin: [read_u32(buf, 20), read_u32(buf, 24), read_u32(buf, 28)],
    };
    let solid = copy_range(buf, 32, n);
    let surface_bits = copy_range(buf, 32 + n, n);
    let solid_sides = copy_range(buf, 32 + 2 * n, n);
    let surface_flag = copy_range(buf, 32 + 3 * n, n);
    let comp_free = read_i32s(buf, 32 + 4 * n, n);
    let comp_surf = read_i32s(buf, 32 + 8 * n, n);
    let v = Volume::from_parts(
        grid,
        solid,
        SurfaceArrays { surface_bits, solid_sides, surface_flag },
        comp_free,
        comp_surf,
    );
    proof {
        let rec = v.navd_record(placement);
        let dec = navd_decode(buf@);
        assert(dec matches Ok(d) && d =~= rec);
    }
    Ok((placement, v))
}

/// Append the four little-endian bytes of `u`.
fn push_u32(out: &mut Vec<u8>, u: u32)
    ensures
        final(out)@ == old(out)@ + u32_bytes(u),
{
    out.push((u % 256) as u8);
    out.push(((u / 256) % 256) as u8);
    out.push(((u / 65536) % 256) as u8);
    out.push((u / 16777216) as u8);
    assert(final(out)@ =~= old(out)@ + u32_bytes(u));
}

/// Append every byte of `src`.
fn push_bytes(out: &mut Vec<u8>, src: &Vec<u8>)
    ensures
        final(out)@ == old(out)@ + src@,
{
    let ghost start = out@;
    let mut k: usize = 0;
    while k < src.len()
        invariant
            k <= src.len(),
            out@ == start + src@.subrange(0, k as int),
        decreases src.len() - k,
    {
        out.push(src[k]);
        k += 1;
        assert(out@ =~= start + src@.subrange(0, k as int));
    }
    assert(src@.subrange(0, src.len() as int) =~= src@);
}

/// Append the little-endian bytes of every element of `src`.
fn push_i32s(out: &mut Vec<u8>, src: &Vec<i32>)
    ensures
        final(out)@ == old(out)@ + i32s_bytes(src@),
{
    let ghost start = out@;
    let mut k: usize = 0;
    while k < src.len()
        invariant
            k <= src.len(),
            out@ == start + i32s_bytes(src@.subrange(0, k as int)),
        decreases src.len() - k,
    {
        let ghost before = out@;
        push_u32(out, src[k] as u32);
        k += 1;
        proof {
            let s1 = src@.subrange(0, k as int);
            let s0 = src@.subrange(0, k - 1);
            assert forall|m: int| 0 <= m < 4 * s1.len() implies #[trigger] i32s_bytes(s1)[m]
                == (i32s_bytes(s0) + i32_bytes(src@[k - 1]))[m] by {
                if m < 4 * s0.len() {
                    assert(s1[m / 4] == s0[m / 4]);
                } else {
                    assert(m / 4 == k - 1);
                }
            }
            assert(i32s_bytes(s1) =~= i32s_bytes(s0) + i32_bytes(src@[k - 1]));
            assert(out@ =~= start + i32s_bytes(s1));
        }
    }
    assert(src@.subrange(0, src.len() as int) =~= src@);
}

/// Write a volume, placed by `placement`, as a dump.
pub fn write_navd(placement: &Placement, vol: &Volume) -> (out: Vec<u8>)
    requires
        navd_size(cells_of(vol.grid.dims)) <= usize::MAX,
    ensures
        out@ == navd_encode(vol.navd_record(*placement)),
{
    let mut out: Vec<u8> = Vec::new();
    out.push(MAGIC[0]);
    out.push(MAGIC[1]);
    out.push(MAGIC[2]);
    out.push(MAGIC[3]);
    push_u32(&mut out, vol.grid.dims[0] as u32);
    push_u32(&mut out, vol.grid.dims[1] as u32);
    push_u32(&mut out, vol.grid.dims[2] as u32);
    push_u32(&mut out, placement.cell_size);
    push_u32(&mut out, placement.origin[0]);
    push_u32(&mut out, placement.origin[1]);
    push_u32(&mut out, placement.origin[2]);
    push_bytes(&mut out, &vol.solid);
    push_bytes(&mut out, &vol.surface_bits);
    push_bytes(&mut out, &vol.solid_sides);
    push_bytes(&mut out, &vol.surface_flag);
    push_i32s(&mut out, &vol.comp_free);
    push_i32s(&mut out, &vol.comp_surf);
    proof {
        reveal(navd_encode);
    }
    assert(out@ =~= navd_encode(vol.navd_record(*placement)));
    out
}


/// Reading back the four bytes of `u` gives `u`.
pub proof fn lemma_u32_bytes_read(u: u32)
    ensures
        le_u32(u32_bytes(u), 0) == u,
{
    let b = u32_bytes(u);
    assert(b[0] == u % 256 && b[1] == (u / 256) % 256 && b[2] == (u / 65536) % 256 && b[3] == u
        / 16777216);
    assert((u % 256) + 256 * ((u / 256) % 256) + 65536 * ((u / 65536) % 256) + 16777216 * (u
        / 16777216) == u) by (bit_vector);
}

/// The bytes of the `u32` read at offset `o` are the bytes at `o`.
pub proof fn lemma_read_u32_bytes(b: Seq<u8>, o: int)
    requires
        0 <= o,
        o + 4 <= b.len(),
    ensures
        u32_bytes(le_u32(b, o)) == b.subrange(o, o + 4),
{
    let (b0, b1, b2, b3) = (b[o], b[o + 1], b[o + 2], b[o + 3]);
    let u = le_u32(b, o);
    assert(u == b0 as u32 + 256 * (b1 as u32) + 65536 * (b2 as u32) + 16777216 * (b3 as u32));
    assert(((b0 as u32 + 256 * (b1 as u32) + 65536 * (b2 as u32) + 16777216 * (b3 as u32)) as u32)
        % 256 == b0 as u32) by (bit_vector);
    assert(((((b0 as u32 + 256 * (b1 as u32) + 65536 * (b2 as u32) + 16777216 * (
    b3 as u32)) as u32) / 256) % 256) == b1 as u32) by (bit_vector);
    assert(((((b0 as u32 + 256 * (b1 as u32) + 65536 * (b2 as u32) + 16777216 * (
    b3 as u32)) as u32) / 65536) % 256) == b2 as u32) by (bit_vector);
    assert((((b0 as u32 + 256 * (b1 as u32) + 65536 * (b2 as u32) + 16777216 * (
    b3 as u32)) as u32) / 16777216) == b3 as u32) by (bit_vector);
    assert(u32_bytes(u) =~= b.subrange(o, o + 4));
}

/// An `i32` survives its two's-complement round trip through `u32`, and a `u32` through `i32`.
pub proof fn lemma_i32_u32_round_trip(v: i32, u: u32)
    ensures
        (v as u32) as i32 == v,
        (u as i32) as u32 == u,
{
    assert((v as u32) as i32 == v) by (bit_vector);
    assert((u as i32) as u32 == u) by (bit_vector);
}

/// `le_u32` reads only the four bytes at its offset.
pub proof fn lemma_le_u32_local(a: Seq<u8>, oa: int, b: Seq<u8>, ob: int)
    requires
        0 <= oa,
        oa + 4 <= a.len(),
        0 <= ob,
        ob + 4 <= b.len(),
        a.subrange(oa, oa + 4) == b.subrange(ob, ob + 4),
    ensures
        le_u32(a, oa) == le_u32(b, ob),
{
    assert(a[oa] == a.subrange(oa, oa + 4)[0]);
    assert(a[oa + 1] == a.subrange(oa, oa + 4)[1]);
    assert(a[oa + 2] == a.subrange(oa, oa + 4)[2]);
    assert(a[oa + 3] == a.subrange(oa, oa + 4)[3]);
    assert(b[ob] == b.subrange(ob, ob + 4)[0]);
    assert(b[ob + 1] == b.subrange(ob, ob + 4)[1]);
    assert(b[ob + 2] == b.subrange(ob, ob + 4)[2]);
    assert(b[ob + 3] == b.subrange(ob, ob + 4)[3]);
}

/// The `u32` at offset `o` of a buffer holding `u32_bytes(u)` there is `u`.
proof fn lemma_read_back_u32(b: Seq<u8>, o: int, u: u32)
    requires
        0 <= o,
        o + 4 <= b.len(),
        b.subrange(o, o + 4) == u32_bytes(u),
    ensures
        le_u32(b, o) == u,
{
    lemma_u32_bytes_read(u);
    assert(u32_bytes(u).subrange(0, 4) =~= u32_bytes(u));
    lemma_le_u32_local(b, o, u32_bytes(u), 0);
}

/// Slot `k` of `i32s_bytes(s)` holds the bytes of `s[k]`.
proof fn lemma_i32s_slot(s: Seq<i32>, k: int)
    requires
        0 <= k < s.len(),
    ensures
        i32s_bytes(s).subrange(4 * k, 4 * k + 4) == i32_bytes(s[k]),
{
    let w = i32s_bytes(s);
    assert forall|j: int| 0 <= j < 4 implies #[trigger] w.subrange(4 * k, 4 * k + 4)[j] == i32_bytes(
        s[k],
    )[j] by {
        assert((4 * k + j) / 4 == k);
        assert((4 * k + j) % 4 == j);
    }
    assert(w.subrange(4 * k, 4 * k + 4) =~= i32_bytes(s[k]));
}

/// Reading `len` integers over the bytes of `s` gives `s` back.
proof fn lemma_read_i32s_back(b: Seq<u8>, o: int, s: Seq<i32>)
    requires
        0 <= o,
        o + 4 * s.len() <= b.len(),
        b.subrange(o, o + 4 * s.len()) == i32s_bytes(s),
    ensures
        le_i32s(b, o, s.len() as int) == s,
{
    assert forall|k: int| 0 <= k < s.len() implies #[trigger] le_i32s(b, o, s.len() as int)[k]
        == s[k] by {
        lemma_i32s_slot(s, k);
        assert(b.subrange(o + 4 * k, o + 4 * k + 4) =~= i32s_bytes(s).subrange(4 * k, 4 * k + 4));
        lemma_read_back_u32(b, o + 4 * k, s[k] as u32);
        lemma_i32_u32_round_trip(s[k], 0);
    }
    assert(le_i32s(b, o, s.len() as int) =~= s);
}

/// Where each field of a well-sized record lands in its dump.
proof fn lemma_encode_layout(r: NavdRecord)
    requires
        record_fits(r),
    ensures
        ({
            let n = cells_of(r.dims);
            let b = navd_encode(r);
            &&& b.len() == navd_size(n)
            &&& has_magic(b)
            &&& b.subrange(4, 8) == i32_bytes(r.dims[0])
            &&& b.subrange(8, 12) == i32_bytes(r.dims[1])
            &&& b.subrange(12, 16) == i32_bytes(r.dims[2])
            &&& b.subrange(16, 20) == u32_bytes(r.placement.cell_size)
            &&& b.subrange(20, 24) == u32_bytes(r.placement.origin[0])
            &&& b.subrange(24, 28) == u32_bytes(r.placement.origin[1])
            &&& b.subrange(28, 32) == u32_bytes(r.placement.origin[2])
            &&& b.subrange(32, 32 + n) == r.solid
            &&& b.subrange(32 + n, 32 + 2 * n) == r.surface_bits
            &&& b.subrange(32 + 2 * n, 32 + 3 * n) == r.solid_sides
            &&& b.subrange(32 + 3 * n, 32 + 4 * n) == r.surface_flag
            &&& b.subrange(32 + 4 * n, 32 + 8 * n) == i32s_bytes(r.comp_free)
            &&& b.subrange(32 + 8 * n, 32 + 12 * n) == i32s_bytes(r.comp_surf)
        }),
{
    reveal(navd_encode);
    let n = cells_of(r.dims);
    let b = navd_encode(r);
    let fixed = seq![78u8, 65u8, 86u8, 68u8] + i32_bytes(r.dims[0]) + i32_bytes(r.dims[1])
        + i32_bytes(r.dims[2]) + u32_bytes(r.placement.cell_size) + u32_bytes(r.placement.origin[0])
        + u32_bytes(r.placement.origin[1]) + u32_bytes(r.placement.origin[2]);
    let a1 = fixed + r.solid;
    let a2 = a1 + r.surface_bits;
    let a3 = a2 + r.solid_sides;
    let a4 = a3 + r.surface_flag;
    let a5 = a4 + i32s_bytes(r.comp_free);
    assert(b == a5 + i32s_bytes(r.comp_surf));
    assert(fixed.len() == 32);
    assert(fixed.subrange(4, 8) =~= i32_bytes(r.dims[0]));
    assert(fixed.subrange(8, 12) =~= i32_bytes(r.dims[1]));
    assert(fixed.subrange(12, 16) =~= i32_bytes(r.dims[2]));
    assert(fixed.subrange(16, 20) =~= u32_bytes(r.placement.cell_size));
    assert(fixed.subrange(20, 24) =~= u32_bytes(r.placement.origin[0]));
    assert(fixed.subrange(24, 28) =~= u32_bytes(r.placement.origin[1]));
    assert(fixed.subrange(28, 32) =~= u32_bytes(r.placement.origin[2]));
    assert(b.subrange(0, 32) =~= fixed);
    assert(b.subrange(4, 8) =~= fixed.subrange(4, 8));
    assert(b.subrange(8, 12) =~= fixed.subrange(8, 12));
    assert(b.subrange(12, 16) =~= fixed.subrange(12, 16));
    assert(b.subrange(16, 20) =~= fixed.subrange(16, 20));
    assert(b.subrange(20, 24) =~= fixed.subrange(20, 24));
    assert(b.subrange(24, 28) =~= fixed.subrange(24, 28));
    assert(b.subrange(28, 32) =~= fixed.subrange(28, 32));
    assert(b.subrange(32, 32 + n) =~= r.solid);
    assert(b.subrange(32 + n, 32 + 2 * n) =~= r.surface_bits);
    assert(b.subrange(32 + 2 * n, 32 + 3 * n) =~= r.solid_sides);
    assert(b.subrange(32 + 3 * n, 32 + 4 * n) =~= r.surface_flag);
    assert(b.subrange(32 + 4 * n, 32 + 8 * n) =~= i32s_bytes(r.comp_free));
    assert(b.subrange(32 + 8 * n, 32 + 12 * n) =~= i32s_bytes(r.comp_surf));
    assert(b[0] == 78u8 && b[1] == 65u8 && b[2] == 86u8 && b[3] == 68u8);
}

/// Encoding a well-sized record and reading the dump back gives the record: nothing is lost or
/// moved.
pub proof fn lemma_navd_round_trip(r: NavdRecord)
    requires
        record_fits(r),
    ensures
        navd_decode(navd_encode(r)) == Ok::<NavdRecord, NavdError>(r),
{
    let n = cells_of(r.dims);
    let b = navd_encode(r);
    lemma_encode_layout(r);
    lemma_read_back_u32(b, 4, r.dims[0] as u32);
    lemma_read_back_u32(b, 8, r.dims[1] as u32);
    lemma_read_back_u32(b, 12, r.dims[2] as u32);
    lemma_read_back_u32(b, 16, r.placement.cell_size);
    lemma_read_back_u32(b, 20, r.placement.origin[0]);
    lemma_read_back_u32(b, 24, r.placement.origin[1]);
    lemma_read_back_u32(b, 28, r.placement.origin[2]);
    lemma_i32_u32_round_trip(r.dims[0], 0);
    lemma_i32_u32_round_trip(r.dims[1], 0);
    lemma_i32_u32_round_trip(r.dims[2], 0);
    assert(header_dims(b) =~= r.dims);
    lemma_read_i32s_back(b, 32 + 4 * n, r.comp_free);
    lemma_read_i32s_back(b, 32 + 8 * n, r.comp_surf);
    let d = navd_decode(b)->Ok_0;
    assert(d.placement.origin =~= r.placement.origin);
    assert(d.placement == r.placement);
    assert(d =~= r);
}

/// A dump that reads successfully is exactly the encoding of what it read as: writing the record
/// back reproduces the buffer byte for byte.
pub proof fn lemma_navd_reencode(b: Seq<u8>)
    requires
        navd_decode(b) is Ok,
    ensures
        navd_encode(navd_decode(b)->Ok_0) == b,
{
    reveal(navd_encode);
    let r = navd_decode(b)->Ok_0;
    let n = cells_of(r.dims);
    let e = navd_encode(r);
    lemma_read_u32_bytes(b, 4);
    lemma_read_u32_bytes(b, 8);
    lemma_read_u32_bytes(b, 12);
    lemma_read_u32_bytes(b, 16);
    lemma_read_u32_bytes(b, 20);
    lemma_read_u32_bytes(b, 24);
    lemma_read_u32_bytes(b, 28);
    lemma_i32_u32_round_trip(0, le_u32(b, 4));
    lemma_i32_u32_round_trip(0, le_u32(b, 8));
    lemma_i32_u32_round_trip(0, le_u32(b, 12));
    assert(i32_bytes(r.dims[0]) == b.subrange(4, 8));
    assert(i32_bytes(r.dims[1]) == b.subrange(8, 12));
    assert(i32_bytes(r.dims[2]) == b.subrange(12, 16));
    let fixed = seq![78u8, 65u8, 86u8, 68u8] + i32_bytes(r.dims[0]) + i32_bytes(r.dims[1])
        + i32_bytes(r.dims[2]) + u32_bytes(r.placement.cell_size) + u32_bytes(r.placement.origin[0])
        + u32_bytes(r.placement.origin[1]) + u32_bytes(r.placement.origin[2]);
    assert(fixed =~= b.subrange(0, 32));
    assert forall|m: int| 0 <= m < 4 * n implies #[trigger] i32s_bytes(r.comp_free)[m] == b[32 + 4
        * n + m] by {
        let k = m / 4;
        let o = 32 + 4 * n + 4 * k;
        lemma_read_u32_bytes(b, o);
        lemma_i32_u32_round_trip(0, le_u32(b, o));
        assert(r.comp_free[k] == le_i32(b, o));
        assert(i32_bytes(r.comp_free[k]) == b.subrange(o, o + 4));
        assert(i32_bytes(r.comp_free[k])[m % 4] == b.subrange(o, o + 4)[m % 4]);
    }
    assert forall|m: int| 0 <= m < 4 * n implies #[trigger] i32s_bytes(r.comp_surf)[m] == b[32 + 8
        * n + m] by {
        let k = m / 4;
        let o = 32 + 8 * n + 4 * k;
        lemma_read_u32_bytes(b, o);
        lemma_i32_u32_round_trip(0, le_u32(b, o));
        assert(r.comp_surf[k] == le_i32(b, o));
        assert(i32_bytes(r.comp_surf[k]) == b.subrange(o, o + 4));
        assert(i32_bytes(r.comp_surf[k])[m % 4] == b.subrange(o, o + 4)[m % 4]);
    }
    assert(i32s_bytes(r.comp_free) =~= b.subrange(32 + 4 * n, 32 + 8 * n));
    assert(i32s_bytes(r.comp_surf) =~= b.subrange(32 + 8 * n, 32 + 12 * n));
    assert(e =~= b);
}

} // verus!
