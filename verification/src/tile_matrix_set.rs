//! The tile matrix set data model: an ordered pyramid of tile matrices.
//!
//! Each tile matrix carries the integer shape of one zoom level: its
//! identifier, the pixel size of a tile and the number of tile columns and
//! rows. Real-valued level data (scale denominator, cell size, point of
//! origin) belongs to the coordinate layer around this library and is not
//! part of this model.

use vstd::prelude::*;

verus! {

/// One zoom level of a tile matrix set.
#[derive(Debug)]
pub struct TileMatrix {
    /// Level identifier; must parse as a zoom level: an optional leading
    /// plus sign, then decimal digits, with a value that fits a `u8`.
    pub id: String,
    /// Width of a tile of this level in pixels (nonzero).
    pub tile_width: u16,
    /// Height of a tile of this level in pixels (nonzero).
    pub tile_height: u16,
    /// Number of tile columns of this level (nonzero).
    pub matrix_width: u64,
    /// Number of tile rows of this level (nonzero).
    pub matrix_height: u64,
}

/// A tile matrix set definition: an identified, CRS-bound, ordered sequence
/// of tile matrices.
#[derive(Debug)]
pub struct TileMatrixSet {
    /// Identifier of the tile matrix set.
    pub id: String,
    /// Identifier of the coordinate reference system.
    pub crs: String,
    /// Names of the CRS axes in order, when declared.
    pub ordered_axes: Option<Vec<String>>,
    /// The zoom levels of the pyramid.
    pub tile_matrices: Vec<TileMatrix>,
}

/// Whether `c` is a decimal digit.
pub open spec fn spec_is_digit(c: char) -> bool {
    '0' <= c && c <= '9'
}

/// Numeric value of the digit `c`.
pub open spec fn spec_digit_val(c: char) -> nat {
    (c as nat - '0' as nat) as nat
}

/// Value of a sequence of decimal digits, most significant first.
pub open spec fn spec_digits_val(s: Seq<char>) -> nat
    decreases s.len(),
{
    if s.len() == 0 {
        0
    } else {
        spec_digits_val(s.drop_last()) * 10 + spec_digit_val(s.last())
    }
}

/// The digit characters of a zoom identifier: everything after an optional
/// leading plus sign.
pub open spec fn spec_zoom_digits(s: Seq<char>) -> Seq<char> {
    if s.len() > 0 && s[0] == '+' {
        s.subrange(1, s.len() as int)
    } else {
        s
    }
}

/// Whether `s` parses as a zoom level: an optional leading plus sign, then
/// one or more decimal digits (leading zeros allowed), with a value that
/// fits a `u8`.
pub open spec fn spec_is_zoom_id(s: Seq<char>) -> bool {
    let d = spec_zoom_digits(s);
    &&& d.len() > 0
    &&& forall|i: int| 0 <= i < d.len() ==> spec_is_digit(#[trigger] d[i])
    &&& spec_digits_val(d) <= u8::MAX
}

/// Zoom level denoted by the identifier `s`.
pub open spec fn spec_zoom_id_val(s: Seq<char>) -> u8 {
    spec_digits_val(spec_zoom_digits(s)) as u8
}

/// Parse a tile matrix identifier as a zoom level.
///
/// Returns the level for an optionally plus-signed digit string whose value
/// fits a `u8`, and `None` for anything else (empty, a sign alone, other
/// characters, or a value above the largest zoom level).
pub fn parse_zoom_id(s: &str) -> (r: Option<u8>)
    ensures
        r == if spec_is_zoom_id(s@) {
            Some(spec_zoom_id_val(s@))
        } else {
            None::<u8>
        },
{
    let n = s.unicode_len();
    if n == 0 {
        return None;
    }
    let start: usize = if s.get_char(0) == '+' {
        1
    } else {
        0
    };
    if n == start {
        // A sign with no digits.
        proof {
            assert(s@[0] == '+');
            assert(spec_zoom_digits(s@) =~= Seq::<char>::empty());
        }
        return None;
    }
    let ghost digits = spec_zoom_digits(s@);
    proof {
        assert(digits =~= s@.subrange(start as int, n as int));
    }
    // `acc` follows the digit value, saturated just above the largest level.
    let mut acc: u64 = 0;
    let mut i: usize = start;
    while i < n
        invariant
            0 < n == s@.len(),
            start <= i <= n,
            start < n,
            digits == spec_zoom_digits(s@),
            digits == s@.subrange(start as int, n as int),
            forall|k: int| start <= k < i ==> spec_is_digit(#[trigger] s@[k]),
            acc == if spec_digits_val(s@.subrange(start as int, i as int)) <= u8::MAX {
                spec_digits_val(s@.subrange(start as int, i as int))
            } else {
                256nat
            },
        decreases n - i,
    {
        let c = s.get_char(i);
        if !(c >= '0' && c <= '9') {
            proof {
                assert(!spec_is_digit(s@[i as int]));
                assert(0 <= i - start < spec_zoom_digits(s@).len());
                assert(spec_zoom_digits(s@)[i - start] == s@[i as int]);
                assert(!spec_is_zoom_id(s@));
            }
            return None;
        }
        let d: u64 = (c as u32 as u64) - 48;
        let next = if acc * 10 + d > u8::MAX as u64 {
            256u64
        } else {
            acc * 10 + d
        };
        proof {
            assert(s@.subrange(start as int, i + 1 as int).drop_last() =~= s@.subrange(
                start as int,
                i as int,
            ));
            assert(s@.subrange(start as int, i + 1 as int).last() == s@[i as int]);
        }
        acc = next;
        i = i + 1;
    }
    proof {
        assert forall|k: int| 0 <= k < digits.len() implies spec_is_digit(
            #[trigger] digits[k],
        ) by {
            assert(digits[k] == s@[k + start]);
        }
    }
    if acc > u8::MAX as u64 {
        return None;
    }
    Some(acc as u8)
}

/// Whether an axis name, compared without regard to ASCII case, declares a
/// vertical-first (latitude, northing) axis order.
pub open spec fn spec_axis_inverted(s: Seq<char>) -> bool {
    ||| (s.len() == 1 && (s[0] == 'Y' || s[0] == 'y'))
    ||| (s.len() == 1 && (s[0] == 'N' || s[0] == 'n'))
    ||| (s.len() == 3 && (s[0] == 'L' || s[0] == 'l') && (s[1] == 'A' || s[1] == 'a') && (s[2]
        == 'T' || s[2] == 't'))
}

/// Whether an upper-case first axis name is one of Y, LAT or N.
pub fn first_axes_inverted(first: &str) -> (r: bool)
    ensures
        r == (first@ == "Y"@ || first@ == "LAT"@ || first@ == "N"@),
{
    proof {
        reveal_strlit("Y");
        reveal_strlit("LAT");
        reveal_strlit("N");
    }
    let n = first.unicode_len();
    if n == 1 {
        let c = first.get_char(0);
        let r = c == 'Y' || c == 'N';
        proof {
            assert(first@ == "Y"@ <==> (first@.len() == 1 && first@[0] == 'Y')) by {
                if first@.len() == 1 && first@[0] == 'Y' {
                    assert(first@ =~= "Y"@);
                }
            }
            assert(first@ == "N"@ <==> (first@.len() == 1 && first@[0] == 'N')) by {
                if first@.len() == 1 && first@[0] == 'N' {
                    assert(first@ =~= "N"@);
                }
            }
        }
        r
    } else if n == 3 {
        let r = first.get_char(0) == 'L' && first.get_char(1) == 'A' && first.get_char(2) == 'T';
        proof {
            assert(first@ == "LAT"@ <==> (first@.len() == 3 && first@[0] == 'L' && first@[1] == 'A'
                && first@[2] == 'T')) by {
                if first@.len() == 3 && first@[0] == 'L' && first@[1] == 'A' && first@[2] == 'T' {
                    assert(first@ =~= "LAT"@);
                }
            }
        }
        r
    } else {
        false
    }
}

/// Whether the declared axis order puts the vertical axis first.
///
/// The first axis name is compared to Y, LAT and N without regard to ASCII
/// case.
pub fn ordered_axes_inverted(axes: &Vec<String>) -> (r: bool)
    requires
        axes@.len() > 0,
    ensures
        r == spec_axis_inverted(axes@[0]@),
{
    let first: &String = &axes[0];
    let n = first.as_str().unicode_len();
    if n == 1 {
        let c = first.as_str().get_char(0);
        c == 'Y' || c == 'y' || c == 'N' || c == 'n'
    } else if n == 3 {
        let c0 = first.as_str().get_char(0);
        let c1 = first.as_str().get_char(1);
        let c2 = first.as_str().get_char(2);
        (c0 == 'L' || c0 == 'l') && (c1 == 'A' || c1 == 'a') && (c2 == 'T' || c2 == 't')
    } else {
        false
    }
}


/// Character of a decimal digit value.
pub open spec fn spec_digit_char(d: u8) -> char {
    ((d + 48) as u8) as char
}

/// Canonical decimal form of a zoom level.
pub open spec fn spec_zoom_id_str(z: u8) -> Seq<char> {
    if z < 10 {
        seq![spec_digit_char(z)]
    } else if z < 100 {
        seq![spec_digit_char((z / 10) as u8), spec_digit_char((z % 10) as u8)]
    } else {
        seq![
            spec_digit_char((z / 100) as u8),
            spec_digit_char(((z / 10) % 10) as u8),
            spec_digit_char((z % 10) as u8),
        ]
    }
}

/// The character of a digit value is a digit character and denotes it.
pub proof fn lemma_digit_char_val(d: u8)
    requires
        d <= 9,
    ensures
        spec_is_digit(spec_digit_char(d)),
        spec_digit_val(spec_digit_char(d)) == d,
{
    assert(spec_digit_char(d) as nat == d + 48);
}

/// The plain decimal form of a zoom level is a zoom identifier and denotes
/// that level.
pub proof fn lemma_zoom_id_str(z: u8)
    ensures
        spec_is_zoom_id(spec_zoom_id_str(z)),
        spec_zoom_id_val(spec_zoom_id_str(z)) == z,
{
    let s = spec_zoom_id_str(z);
    // The form starts with a digit, never a sign, so it is its own digit
    // part.
    assert(spec_zoom_digits(s) == s) by {
        lemma_digit_char_val((z % 10) as u8);
        lemma_digit_char_val(((z / 10) % 10) as u8);
        lemma_digit_char_val((z / 100) as u8);
        if z < 10 {
            lemma_digit_char_val(z);
        }
        assert(z % 10 <= 9 && (z / 10) % 10 <= 9 && z / 100 <= 9 && (z < 10 ==> z % 10 == z))
            by (nonlinear_arith);
        assert(s[0] != '+');
    }
    reveal_with_fuel(spec_digits_val, 4);
    assert(z % 10 <= 9 && (z / 10) % 10 <= 9 && z / 100 <= 9 && (z < 100 ==> z / 10 <= 9) && (z
        < 10 ==> z % 10 == z)) by (nonlinear_arith);
    lemma_digit_char_val((z % 10) as u8);
    lemma_digit_char_val(((z / 10) % 10) as u8);
    lemma_digit_char_val((z / 100) as u8);
    if z < 100 {
        lemma_digit_char_val((z / 10) as u8);
    }
    if z < 10 {
        lemma_digit_char_val(z);
    }
    if z < 10 {
        assert(s.drop_last() =~= Seq::<char>::empty());
        assert(spec_digits_val(s) == z);
    } else if z < 100 {
        assert(s.drop_last() =~= seq![spec_digit_char((z / 10) as u8)]);
        assert(s.drop_last().drop_last() =~= Seq::<char>::empty());
        assert(spec_digits_val(s) == (z / 10) * 10 + z % 10);
    } else {
        assert(s.drop_last() =~= seq![
            spec_digit_char((z / 100) as u8),
            spec_digit_char(((z / 10) % 10) as u8),
        ]);
        assert(s.drop_last().drop_last() =~= seq![spec_digit_char((z / 100) as u8)]);
        assert(s.drop_last().drop_last().drop_last() =~= Seq::<char>::empty());
        assert(spec_digits_val(s) == ((z / 100) * 10 + (z / 10) % 10) * 10 + z % 10);
        assert(z / 100 == (z / 10) / 10) by (nonlinear_arith);
        assert((z / 10) == ((z / 10) / 10) * 10 + (z / 10) % 10) by (nonlinear_arith);
        assert(z == (z / 10) * 10 + z % 10) by (nonlinear_arith);
    }
}

/// The single character string of a decimal digit value.
fn digit_str(d: u8) -> (r: &'static str)
    requires
        d <= 9,
    ensures
        r@ =~= seq![spec_digit_char(d)],
{
    proof {
        reveal_strlit("0");
        reveal_strlit("1");
        reveal_strlit("2");
        reveal_strlit("3");
        reveal_strlit("4");
        reveal_strlit("5");
        reveal_strlit("6");
        reveal_strlit("7");
        reveal_strlit("8");
        reveal_strlit("9");
    }
    if d == 0 {
        "0"
    } else if d == 1 {
        "1"
    } else if d == 2 {
        "2"
    } else if d == 3 {
        "3"
    } else if d == 4 {
        "4"
    } else if d == 5 {
        "5"
    } else if d == 6 {
        "6"
    } else if d == 7 {
        "7"
    } else if d == 8 {
        "8"
    } else {
        "9"
    }
}

/// The plain decimal identifier of a zoom level.
pub fn zoom_id_string(z: u8) -> (s: String)
    ensures
        s@ == spec_zoom_id_str(z),
        spec_is_zoom_id(s@),
        spec_zoom_id_val(s@) == z,
{
    proof {
        lemma_zoom_id_str(z);
    }
    let mut s = String::new();
    if z >= 100 {
        s.append(digit_str(z / 100));
    }
    if z >= 10 {
        s.append(digit_str((z / 10) % 10));
    }
    s.append(digit_str(z % 10));
    proof {
        if z < 10 {
            assert(s@ =~= spec_zoom_id_str(z));
        } else if z < 100 {
            assert(z / 10 == (z / 10) % 10) by (nonlinear_arith)
                requires
                    10 <= z < 100,
            ;
            assert(s@ =~= spec_zoom_id_str(z));
        } else {
            assert(s@ =~= spec_zoom_id_str(z));
        }
    }
    s
}

impl TileMatrixSet {
    /// Whether the CRS orders coordinates as (lat, lon) instead of
    /// (lon, lat), judged from the declared ordered axes; a definition
    /// without declared axes is taken as (lon, lat).
    pub fn crs_axis_inverted(&self) -> (r: bool)
        requires
            self.ordered_axes matches Some(a) ==> a@.len() > 0,
        ensures
            r == match self.ordered_axes {
                Some(a) => spec_axis_inverted(a@[0]@),
                None => false,
            },
    {
        match &self.ordered_axes {
            Some(axes) => ordered_axes_inverted(axes),
            None => false,
        }
    }
}

} // verus!
