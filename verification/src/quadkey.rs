//! Quadkey tile addresses: base-4 strings over quadtree-shaped pyramids.
//!
//! The digit for bit `k` combines bit `k` of the tile column (value 1) and of
//! the tile row (value 2); digits run from the most significant bit of the
//! tile's zoom down to the level above the pyramid's minimum zoom.

use vstd::prelude::*;
use vstd::arithmetic::power2::{pow2, lemma_pow2_adds, lemma_pow2_pos, lemma_pow2_strictly_increases, lemma2_to64, lemma2_to64_rest};
use vstd::arithmetic::div_mod::{lemma_div_denominator, lemma_fundamental_div_mod};
use crate::tile::Tile;
use crate::tile_matrix_set::TileMatrix;
use crate::tms::{spec_is_pow2, spec_is_quadtree, spec_quad_pair, Tms};

verus! {

/// Whether a number is a power of 2.
pub fn is_power_of_two(number: u64) -> (r: bool)
    ensures
        r == spec_is_pow2(number),
{
    let r = number != 0 && (number & ((number - 1) as u64)) == 0;
    proof {
        if r {
            lemma_mask_pow2(number);
        } else if number == 0 {
            if spec_is_pow2(number) {
                let k = choose|k: nat| k < 64 && number == pow2(k);
                lemma_pow2_pos(k);
            }
        } else {
            if spec_is_pow2(number) {
                let k = choose|k: nat| k < 64 && number == pow2(k);
                vstd::bits::lemma_u64_pow2_no_overflow(k);
                vstd::bits::lemma_u64_shl_is_mul(1u64, k as u64);
                let kk = k as u64;
                assert(((1u64 << kk) & (((1u64 << kk) - 1) as u64)) == 0) by (bit_vector)
                    requires
                        kk < 64,
                ;
            }
        }
    }
    r
}

/// A nonzero number whose low bits below its top set bit are all clear is a
/// power of two.
proof fn lemma_mask_pow2(w: u64)
    requires
        w != 0,
        w & ((w - 1) as u64) == 0,
    ensures
        spec_is_pow2(w),
    decreases w,
{
    if w == 1 {
        lemma2_to64();
        assert(w == pow2(0));
    } else {
        assert((w >> 1u64) != 0 && ((w >> 1u64) & (((w >> 1u64) - 1) as u64)) == 0 && w == ((w
            >> 1u64) << 1u64) && (w >> 1u64) < w) by (bit_vector)
            requires
                w & ((w - 1) as u64) == 0,
                w != 0,
                w != 1,
        ;
        lemma_mask_pow2(w >> 1u64);
        let k = choose|k: nat| k < 64 && (w >> 1u64) == pow2(k);
        assert(w == 2 * (w >> 1u64)) by (bit_vector)
            requires
                w == ((w >> 1u64) << 1u64),
        ;
        lemma_pow2_adds(k, 1);
        lemma2_to64();
        if k + 1 >= 64 {
            lemma_pow2_strictly_increases(63, k + 1);
            lemma2_to64_rest();
        }
        assert(w == pow2(k + 1));
    }
}

/// Check if a Tile Matrix Set supports quadkeys: every consecutive pair of
/// levels except the last is square, power-of-two sized, and doubles.
pub fn check_quadkey_support(tms: &Vec<TileMatrix>) -> (r: bool)
    requires
        tms@.len() >= 1,
    ensures
        r == spec_is_quadtree(tms@),
{
    let n = tms.len();
    let mut i: usize = 0;
    while i + 1 < n
        invariant
            n == tms@.len(),
            1 <= n,
            i <= n - 1,
            forall|j: int| 0 <= j < i ==> spec_quad_pair(#[trigger] tms@[j], tms@[j + 1]),
        decreases n - i,
    {
        let square = tms[i].matrix_width == tms[i].matrix_height;
        let pow = is_power_of_two(tms[i].matrix_width);
        let doubled = tms[i].matrix_width <= u64::MAX / 2 && tms[i + 1].matrix_width == tms[i].matrix_width
            * 2;
        if !(square && pow && doubled) {
            assert(!spec_quad_pair(tms@[i as int], tms@[i as int + 1]));
            return false;
        }
        i = i + 1;
    }
    true
}

/// Value (0 to 3) of the quadkey digit of tile `(x, y)` for bit `k`.
pub open spec fn spec_qk_digit(x: u64, y: u64, k: nat) -> nat {
    ((x as nat / pow2(k)) % 2 + 2 * ((y as nat / pow2(k)) % 2)) as nat
}

/// Character of a quadkey digit value.
pub open spec fn spec_qk_char(d: nat) -> char {
    if d == 0 {
        '0'
    } else if d == 1 {
        '1'
    } else if d == 2 {
        '2'
    } else {
        '3'
    }
}

/// Quadkey of a tile over a pyramid with the given minimum zoom: one digit
/// per bit from `t.z - 1` down to `minzoom`, most significant first; empty
/// when the tile's zoom is at or below the minimum.
pub open spec fn spec_quadkey(minzoom: u8, t: Tile) -> Seq<char> {
    if t.z > minzoom {
        Seq::new((t.z - minzoom) as nat, |i: int| spec_qk_char(spec_qk_digit(t.x, t.y, (t.z - 1 - i) as nat)))
    } else {
        Seq::empty()
    }
}

/// Column bit of a quadkey character: set for digits 1 and 3.
pub open spec fn spec_qk_bx(c: char) -> nat {
    if c == '1' || c == '3' {
        1
    } else {
        0
    }
}

/// Row bit of a quadkey character: set for digits 2 and 3.
pub open spec fn spec_qk_by(c: char) -> nat {
    if c == '2' || c == '3' {
        1
    } else {
        0
    }
}

/// Whether every character of a quadkey is one of the four digits.
pub open spec fn spec_qk_valid(s: Seq<char>) -> bool {
    forall|i: int| 0 <= i < s.len() ==> (#[trigger] s[i] == '0' || s[i] == '1' || s[i] == '2' || s[i] == '3')
}

/// Grid point denoted by a quadkey: each character contributes one bit to
/// the column and one to the row, the last character the least significant.
pub open spec fn spec_qk_point(s: Seq<char>) -> (nat, nat)
    decreases s.len(),
{
    if s.len() == 0 {
        (0nat, 0nat)
    } else {
        let p = spec_qk_point(s.drop_last());
        ((2 * p.0 + spec_qk_bx(s.last())) as nat, (2 * p.1 + spec_qk_by(s.last())) as nat)
    }
}

/// Tile denoted by a quadkey: the empty key denotes the root tile; otherwise
/// the key's grid point at the zoom given by its length.
pub open spec fn spec_quadkey_to_tile(s: Seq<char>) -> Tile {
    if s.len() == 0 {
        Tile { x: 0, y: 0, z: 0 }
    } else {
        Tile { x: spec_qk_point(s).0 as u64, y: spec_qk_point(s).1 as u64, z: s.len() as u8 }
    }
}

/// The single character string of a quadkey digit value.
fn qk_digit_str(d: u64) -> (r: &'static str)
    requires
        d <= 3,
    ensures
        r@ =~= seq![spec_qk_char(d as nat)],
{
    proof {
        reveal_strlit("0");
        reveal_strlit("1");
        reveal_strlit("2");
        reveal_strlit("3");
    }
    if d == 0 {
        "0"
    } else if d == 1 {
        "1"
    } else if d == 2 {
        "2"
    } else {
        "3"
    }
}

/// The grid point of a quadkey lies within the grid of its zoom.
pub proof fn lemma_qk_point_bound(s: Seq<char>)
    ensures
        spec_qk_point(s).0 < pow2(s.len()),
        spec_qk_point(s).1 < pow2(s.len()),
    decreases s.len(),
{
    if s.len() == 0 {
        lemma2_to64();
    } else {
        lemma_qk_point_bound(s.drop_last());
        lemma_pow2_adds((s.len() - 1) as nat, 1);
        lemma2_to64();
    }
}

impl Tms {
    /// Get the quadkey of a tile.
    ///
    /// Quadkeys address tiles of quadtree-shaped tile matrix sets only; one
    /// digit is produced per zoom level from the tile's down to one above
    /// the pyramid's minimum.
    pub fn quadkey(&self, tile: &Tile) -> (r: String)
        requires
            self.wf(),
            self.is_quadtree,
            tile.z <= 64,
        ensures
            r@ == spec_quadkey(self.spec_minzoom(), *tile),
    {
        let minzoom = self.minzoom();
        let mut qk = String::new();
        if tile.z <= minzoom {
            return qk;
        }
        let mut z: u8 = tile.z;
        while z > minzoom
            invariant
                minzoom == self.spec_minzoom(),
                minzoom <= z <= tile.z,
                tile.z <= 64,
                qk@ =~= spec_quadkey(minzoom, *tile).subrange(0, (tile.z - z) as int),
            decreases z - minzoom,
        {
            let p = 1u64 << ((z - 1) as u64);
            proof {
                vstd::bits::lemma_u64_pow2_no_overflow((z - 1) as nat);
                vstd::bits::lemma_u64_shl_is_mul(1u64, (z - 1) as u64);
                lemma_pow2_pos((z - 1) as nat);
            }
            let bx = (tile.x / p) % 2;
            let by = (tile.y / p) % 2;
            let d = bx + 2 * by;
            let ghost before = qk@;
            qk.append(qk_digit_str(d));
            proof {
                let full = spec_quadkey(minzoom, *tile);
                let i = (tile.z - z) as int;
                assert(full[i] == spec_qk_char(spec_qk_digit(tile.x, tile.y, (z - 1) as nat)));
                assert(qk@ =~= full.subrange(0, i + 1));
            }
            z = z - 1;
        }
        proof {
            assert(qk@ =~= spec_quadkey(minzoom, *tile));
        }
        qk
    }

    /// Get the tile corresponding to a quadkey.
    ///
    /// The empty quadkey gives the root tile; otherwise each digit supplies
    /// one bit of the column and row, and the zoom is the key's length.
    pub fn quadkey_to_tile(&self, qk: &str) -> (r: Tile)
        requires
            self.wf(),
            self.is_quadtree,
            qk@.len() <= 64,
            spec_qk_valid(qk@),
        ensures
            r == spec_quadkey_to_tile(qk@),
    {
        let n = qk.unicode_len();
        if n == 0 {
            return Tile { x: 0, y: 0, z: 0 };
        }
        let mut x: u64 = 0;
        let mut y: u64 = 0;
        let mut i: usize = 0;
        proof {
            assert(qk@.subrange(0, 0) =~= Seq::<char>::empty());
        }
        while i < n
            invariant
                n == qk@.len() <= 64,
                spec_qk_valid(qk@),
                i <= n,
                x == spec_qk_point(qk@.subrange(0, i as int)).0,
                y == spec_qk_point(qk@.subrange(0, i as int)).1,
            decreases n - i,
        {
            proof {
                lemma_qk_point_bound(qk@.subrange(0, i as int));
                lemma_pow2_adds(i as nat, 1);
                lemma2_to64();
                if i + 1 < 64 {
                    lemma_pow2_strictly_increases((i + 1) as nat, 64);
                }
                lemma2_to64_rest();
            }
            let c = qk.get_char(i);
            let bx: u64 = if c == '1' || c == '3' {
                1
            } else {
                0
            };
            let by: u64 = if c == '2' || c == '3' {
                1
            } else {
                0
            };
            proof {
                let pre = qk@.subrange(0, i + 1);
                assert(pre.drop_last() =~= qk@.subrange(0, i as int));
                assert(pre.last() == qk@[i as int]);
            }
            x = x * 2 + bx;
            y = y * 2 + by;
            i = i + 1;
        }
        proof {
            assert(qk@.subrange(0, n as int) =~= qk@);
        }
        Tile { x, y, z: n as u8 }
    }
}

/// Dropping a quadkey's last digit gives the quadkey of the tile one zoom
/// level up.
proof fn lemma_quadkey_unfold(x: u64, y: u64, z: u8)
    requires
        1 <= z <= 64,
    ensures
        spec_quadkey(0, Tile { x, y, z }).drop_last() =~= spec_quadkey(
            0,
            Tile { x: x / 2, y: y / 2, z: (z - 1) as u8 },
        ),
        spec_quadkey(0, Tile { x, y, z }).last() == spec_qk_char(spec_qk_digit(x, y, 0)),
{
    let s = spec_quadkey(0, Tile { x, y, z });
    let s1 = spec_quadkey(0, Tile { x: x / 2, y: y / 2, z: (z - 1) as u8 });
    assert forall|i: int| 0 <= i < z - 1 implies s.drop_last()[i] == s1[i] by {
        let k = (z - 1 - 1 - i) as nat;
        lemma_pow2_adds(k, 1);
        lemma_pow2_pos(k);
        lemma2_to64();
        lemma_div_denominator(x as int, 2, pow2(k) as int);
        lemma_div_denominator(y as int, 2, pow2(k) as int);
        assert((x / 2) as nat / pow2(k) == x as nat / pow2((k + 1) as nat));
        assert((y / 2) as nat / pow2(k) == y as nat / pow2((k + 1) as nat));
    }
    lemma2_to64();
}

/// Decoding the quadkey of a tile of a single-rooted quadtree pyramid gives
/// the tile back.
pub proof fn lemma_quadkey_roundtrip(x: u64, y: u64, z: u8)
    requires
        z <= 64,
        x < pow2(z as nat),
        y < pow2(z as nat),
    ensures
        spec_quadkey_to_tile(spec_quadkey(0, Tile { x, y, z })) == (Tile { x, y, z }),
    decreases z,
{
    lemma2_to64();
    if z == 0 {
        assert(spec_quadkey(0, Tile { x, y, z }).len() == 0);
    } else {
        let s = spec_quadkey(0, Tile { x, y, z });
        lemma_quadkey_unfold(x, y, z);
        lemma_pow2_adds((z - 1) as nat, 1);
        lemma_quadkey_roundtrip(x / 2, y / 2, (z - 1) as u8);
        let s1 = spec_quadkey(0, Tile { x: x / 2, y: y / 2, z: (z - 1) as u8 });
        assert(s.drop_last() == s1);
        assert(spec_qk_point(s).0 == 2 * spec_qk_point(s1).0 + spec_qk_bx(s.last()));
        assert(spec_qk_bx(spec_qk_char(spec_qk_digit(x, y, 0))) == x as nat % 2 && spec_qk_by(
            spec_qk_char(spec_qk_digit(x, y, 0)),
        ) == y as nat % 2) by {
            lemma2_to64();
        }
        if z == 1 {
            assert(spec_qk_point(s1) == (0nat, 0nat));
        } else {
            lemma_qk_point_bound(s1);
            if ((z - 1) as nat) < 64 {
                lemma_pow2_strictly_increases((z - 1) as nat, 64);
            }
            lemma2_to64_rest();
            assert(spec_qk_point(s1).0 == (x / 2) as nat);
            assert(spec_qk_point(s1).1 == (y / 2) as nat);
        }
        lemma_fundamental_div_mod(x as int, 2);
        lemma_fundamental_div_mod(y as int, 2);
        assert(spec_qk_point(s).0 == x as nat);
        assert(spec_qk_point(s).1 == y as nat);
    }
}

} // verus!
