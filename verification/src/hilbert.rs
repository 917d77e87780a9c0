//! Hilbert-curve tile identifiers.
//!
//! Every tile of the pyramid gets a global id: the cumulative number of tiles
//! on all coarser levels (the level's base id) plus the tile's index along the
//! discrete Hilbert curve of its level.

use vstd::prelude::*;
use vstd::arithmetic::power2::{
    pow2, lemma_pow2_adds, lemma_pow2_pos, lemma_pow2_strictly_increases, lemma2_to64,
    lemma2_to64_rest,
};
use crate::tile::Tile;

verus! {

/// Index of a grid point along the discrete Hilbert curve of a given order,
/// as computed by `hilbert_2d::u64::xy2h_discrete`.
pub uninterp spec fn hilbert_index(order: u64, x: u64, y: u64) -> u64;

/// Grid point at a given index of the discrete Hilbert curve of a given
/// order, as computed by `hilbert_2d::u64::h2xy_discrete`.
pub uninterp spec fn hilbert_point(order: u64, h: u64) -> (u64, u64);

/// Relies on `hilbert_2d::u64::xy2h_discrete`: for `1 <= order <= 32` and
/// `x, y < 2^order` it returns the index of `(x, y)` along the Hilbert curve
/// of that order, in the range `0 <= h < 2^(2*order)`, and `h2xy_discrete`
/// maps that index back to `(x, y)`.
#[verifier::external_body]
fn xy2h(x: u64, y: u64, order: u64) -> (h: u64)
    requires
        1 <= order <= 31,
        x < pow2(order as nat),
        y < pow2(order as nat),
    ensures
        h == hilbert_index(order, x, y),
        h < pow2((2 * order) as nat),
        hilbert_point(order, h) == (x, y),
{
    hilbert_2d::u64::xy2h_discrete(x, y, order, hilbert_2d::Variant::Hilbert)
}

/// Relies on `hilbert_2d::u64::h2xy_discrete`: for `1 <= order <= 32` and
/// `h < 2^(2*order)` it returns the coordinates of the point at index `h`
/// along the Hilbert curve of that order, each in the range `0 <= x, y <
/// 2^order`.
#[verifier::external_body]
fn h2xy(h: u64, order: u64) -> (p: (u64, u64))
    requires
        1 <= order <= 31,
        h < pow2((2 * order) as nat),
    ensures
        p == hilbert_point(order, h),
        p.0 < pow2(order as nat),
        p.1 < pow2(order as nat),
{
    hilbert_2d::u64::h2xy_discrete(h, order, hilbert_2d::Variant::Hilbert)
}

/// The largest zoom level whose whole pyramid of ids fits in a `u64`.
pub const MAX_HILBERT_ZOOM: u8 = 31;

/// Number of zoom levels scanned when decoding a Hilbert id.
pub const HILBERT_DECODE_LEVELS: u8 = 27;

/// Number of tiles on all levels coarser than `z`: the sum of `4^i` over
/// `i < z`.
pub open spec fn spec_base_id(z: nat) -> nat
    decreases z,
{
    if z == 0 {
        0
    } else {
        spec_base_id((z - 1) as nat) + pow2((2 * (z - 1)) as nat)
    }
}

/// Three times a level's base id is one less than the level's power of four.
pub proof fn lemma_base_id_closed_form(z: nat)
    ensures
        3 * spec_base_id(z) + 1 == pow2(2 * z),
    decreases z,
{
    if z == 0 {
        lemma2_to64();
    } else {
        lemma_base_id_closed_form((z - 1) as nat);
        lemma_pow2_adds((2 * (z - 1)) as nat, 2);
        lemma2_to64();
    }
}

/// Base ids grow with the zoom level.
pub proof fn lemma_base_id_increases(z1: nat, z2: nat)
    requires
        z1 <= z2,
    ensures
        spec_base_id(z1) <= spec_base_id(z2),
    decreases z2 - z1,
{
    if z1 < z2 {
        lemma_base_id_increases(z1, (z2 - 1) as nat);
    }
}

/// The id range of any level up to 31 fits in a `u64`.
proof fn lemma_base_id_fits(z: nat)
    requires
        z <= 31,
    ensures
        spec_base_id(z) + pow2(2 * z) <= u64::MAX,
{
    lemma_base_id_closed_form(z);
    lemma_pow2_adds(2 * z, 2);
    lemma2_to64();
    if 2 * z + 2 < 64 {
        lemma_pow2_strictly_increases(2 * z + 2, 64);
    }
    lemma2_to64_rest();
}

/// Cumulative tile count of all levels coarser than `z`.
pub fn base_id(z: u8) -> (r: u64)
    requires
        z <= 32,
    ensures
        r == spec_base_id(z as nat),
{
    let mut acc: u64 = 0;
    let mut i: u8 = 0;
    while i < z
        invariant
            i <= z <= 32,
            acc == spec_base_id(i as nat),
        decreases z - i,
    {
        proof {
            lemma_base_id_fits(i as nat);
            lemma_pow2_pos((2 * i) as nat);
            vstd::bits::lemma_u64_shl_is_mul(1u64, (2 * i) as u64);
        }
        acc = acc + (1u64 << (2 * (i as u64)));
        i = i + 1;
    }
    acc
}

/// Global Hilbert id of a tile: the level's base id plus the tile's index
/// along the level's Hilbert curve. The root tile has id 0.
pub open spec fn spec_tile_id(z: u8, x: u64, y: u64) -> nat {
    if z == 0 {
        0
    } else {
        spec_base_id(z as nat) + hilbert_index(z as u64, x, y) as nat
    }
}

/// Tile decoded from a Hilbert id: scan the zoom levels below
/// [`HILBERT_DECODE_LEVELS`] for the one whose id range contains `h`; ids
/// past the scanned range decode to the root tile.
pub open spec fn spec_hilbert_tile(h: u64) -> Tile {
    spec_band_scan(h, 0)
}

/// One step of the band scan behind [`spec_hilbert_tile`].
pub open spec fn spec_band_scan(h: u64, z: u8) -> Tile
    decreases HILBERT_DECODE_LEVELS - z,
{
    if z >= HILBERT_DECODE_LEVELS {
        Tile { x: 0, y: 0, z: 0 }
    } else if spec_base_id(z as nat) <= h < spec_base_id((z + 1) as nat) {
        if h == 0 {
            Tile { x: 0, y: 0, z }
        } else {
            Tile {
                x: hilbert_point(z as u64, (h - spec_base_id(z as nat)) as u64).0,
                y: hilbert_point(z as u64, (h - spec_base_id(z as nat)) as u64).1,
                z,
            }
        }
    } else {
        spec_band_scan(h, (z + 1) as u8)
    }
}

/// Scanning from a level whose base id is at most `h` finds the same band as
/// scanning from the root level.
proof fn lemma_band_scan_skip(h: u64, z: u8)
    requires
        z <= HILBERT_DECODE_LEVELS,
        spec_base_id(z as nat) <= h,
    ensures
        spec_band_scan(h, 0) == spec_band_scan(h, z),
    decreases z,
{
    if z > 0 {
        lemma_base_id_increases((z - 1) as nat, z as nat);
        lemma_band_scan_skip(h, (z - 1) as u8);
    }
}

/// Global Hilbert id of the tile `(x, y)` at zoom `z`.
///
/// Decoding the id with [`hilbert_tile`] gives the tile back whenever `z` is
/// within the decoder's scanned range.
pub fn tile_id(z: u8, x: u64, y: u64) -> (r: u64)
    requires
        z <= MAX_HILBERT_ZOOM,
        x < pow2(z as nat),
        y < pow2(z as nat),
    ensures
        r == spec_tile_id(z, x, y),
        spec_base_id(z as nat) <= r < spec_base_id((z + 1) as nat),
        z < HILBERT_DECODE_LEVELS ==> spec_hilbert_tile(r) == (Tile { x, y, z }),
        z >= 1 ==> hilbert_point(z as u64, (r - spec_base_id(z as nat)) as u64) == (x, y),
{
    if z == 0 {
        proof {
            lemma2_to64();
        }
        return 0;
    }
    let h = xy2h(x, y, z as u64);
    let base = base_id(z);
    proof {
        lemma_base_id_fits(z as nat);
        lemma_base_id_closed_form(z as nat);
        lemma2_to64();
        if z < HILBERT_DECODE_LEVELS {
            lemma_band_scan_skip((base + h) as u64, z);
        }
    }
    base + h
}

/// Decode a global Hilbert id back to its tile.
pub fn hilbert_tile(h: u64) -> (r: Tile)
    ensures
        r == spec_hilbert_tile(h),
{
    let mut z: u8 = 0;
    let mut base: u64 = 0;
    while z < HILBERT_DECODE_LEVELS
        invariant
            z <= HILBERT_DECODE_LEVELS,
            base == spec_base_id(z as nat),
            h >= base,
            spec_band_scan(h, 0) == spec_band_scan(h, z),
        decreases HILBERT_DECODE_LEVELS - z,
    {
        let next = base_id(z + 1);
        if h < next {
            if h > 0 {
                proof {
                    lemma_base_id_closed_form(z as nat);
                    lemma2_to64();
                }
                let p = h2xy(h - base, z as u64);
                return Tile { x: p.0, y: p.1, z };
            } else {
                return Tile { x: 0, y: 0, z };
            }
        }
        z = z + 1;
        base = next;
    }
    Tile { x: 0, y: 0, z: 0 }
}


impl crate::tms::Tms {
    /// Get the Hilbert index of a tile: the global id of the tile along the
    /// per-level Hilbert curves. Decoding the id gives the tile back
    /// whenever its zoom is within the decoder's scanned range.
    pub fn hilbert_id(&self, tile: &Tile) -> (r: u64)
        requires
            tile.z <= MAX_HILBERT_ZOOM,
            tile.x < pow2(tile.z as nat),
            tile.y < pow2(tile.z as nat),
        ensures
            r == spec_tile_id(tile.z, tile.x, tile.y),
            tile.z < HILBERT_DECODE_LEVELS ==> spec_hilbert_tile(r) == *tile,
    {
        tile_id(tile.z, tile.x, tile.y)
    }

    /// Get the tile corresponding to a Hilbert index.
    pub fn hilbert_to_tile(&self, h: u64) -> (r: Tile)
        ensures
            r == spec_hilbert_tile(h),
    {
        hilbert_tile(h)
    }
}

/// Iterator over every tile from one zoom through another in increasing
/// Hilbert-id order, crossing a zoom boundary whenever the running id
/// reaches the next level's base id.
#[derive(Debug)]
pub struct HilbertIterator {
    /// The running Hilbert id.
    pub h: u64,
    /// Base id of the current zoom.
    pub base_id: u64,
    /// Base id of the zoom after the current one.
    pub next_base_id: u64,
    /// Current zoom.
    pub z: u8,
    /// Last zoom of the range.
    pub z_max: u8,
}

impl HilbertIterator {
    /// Well-formed cursor: unless exhausted, the base ids belong to the
    /// current zoom and the running id lies in the zoom's id range.
    pub open spec fn wf(self) -> bool {
        &&& self.z_max <= MAX_HILBERT_ZOOM
        &&& (self.z <= self.z_max ==> {
            &&& self.base_id == spec_base_id(self.z as nat)
            &&& self.next_base_id == spec_base_id((self.z + 1) as nat)
            &&& self.base_id <= self.h < self.next_base_id
        })
    }

    /// Whether the sequence is exhausted.
    pub open spec fn spec_done(self) -> bool {
        self.z > self.z_max
    }

    /// The tile under the cursor: the current zoom's Hilbert point of the
    /// running id.
    pub open spec fn spec_current(self) -> Tile {
        if self.h == 0 {
            Tile { x: 0, y: 0, z: self.z }
        } else {
            Tile {
                x: hilbert_point(self.z as u64, (self.h - self.base_id) as u64).0,
                y: hilbert_point(self.z as u64, (self.h - self.base_id) as u64).1,
                z: self.z,
            }
        }
    }

    /// Build an iterator from `z_min` through `z_max`; an inverted range is
    /// immediately exhausted.
    pub fn new(z_min: u8, z_max: u8) -> (r: HilbertIterator)
        requires
            z_min <= MAX_HILBERT_ZOOM,
            z_max <= MAX_HILBERT_ZOOM,
        ensures
            r.wf(),
            r.z == z_min,
            r.z_max == z_max,
            r.spec_done() <==> z_min > z_max,
            r.spec_current() == (Tile { x: 0, y: 0, z: z_min }),
    {
        proof {
            lemma_pow2_pos(z_min as nat);
        }
        let h = tile_id(z_min, 0, 0);
        let r = HilbertIterator {
            h,
            base_id: base_id(z_min),
            next_base_id: base_id(z_min + 1),
            z: z_min,
            z_max,
        };
        proof {
            if z_min == 0 {
                lemma2_to64();
            }
        }
        r
    }

    /// Yield the tile under the cursor and advance the running id; the zoom
    /// advances whenever the id reaches the next level's base id, and the
    /// iterator is exhausted after the last zoom's last tile.
    pub fn next(&mut self) -> (r: Option<Tile>)
        requires
            old(self).wf(),
        ensures
            final(self).wf(),
            old(self).spec_done() ==> r is None && *final(self) == *old(self),
            !old(self).spec_done() ==> {
                &&& r == Some(old(self).spec_current())
                &&& final(self).h == old(self).h + 1
                &&& final(self).z_max == old(self).z_max
                &&& if old(self).h + 1 < old(self).next_base_id {
                    final(self).z == old(self).z
                } else if old(self).z < old(self).z_max {
                    final(self).z == old(self).z + 1
                } else {
                    final(self).spec_done()
                }
            },
    {
        if self.z > self.z_max {
            return None;
        }
        let current = if self.h > 0 {
            proof {
                lemma2_to64();
                if self.z == 0 {
                    assert(spec_base_id(1) == 1);
                }
                lemma_base_id_fits(self.z as nat);
            }
            let p = h2xy(self.h - self.base_id, self.z as u64);
            Tile { x: p.0, y: p.1, z: self.z }
        } else {
            Tile { x: 0, y: 0, z: self.z }
        };
        proof {
            lemma_base_id_fits(self.z as nat);
        }
        self.h = self.h + 1;
        if self.h >= self.next_base_id {
            self.z = self.z + 1;
            if self.z <= self.z_max {
                self.base_id = base_id(self.z);
                self.next_base_id = base_id(self.z + 1);
                proof {
                    lemma_pow2_pos((2 * self.z) as nat);
                }
            }
        }
        Some(current)
    }
}

} // verus!
