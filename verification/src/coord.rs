//! Coordinates that the host gives as 32-bit floats.
//!
//! The library does no floating-point arithmetic.  It keeps such a number
//! as its bit pattern, by which waypoints are told apart, and reads the cell
//! that the number falls in off that pattern: one sign bit, eight bits of
//! exponent, twenty-three bits of fraction.  A number with exponent `e` and
//! fraction `f` has the magnitude `(2^23 + f) * 2^(e - 150)`; exponents
//! below 127 are magnitudes below one.
//!
//! In the other direction, the pattern of a cell is that of the number
//! nearest to it: the cell itself up to `2^24`, and beyond that the nearest
//! multiple of the spacing of the numbers around it, the even one of two
//! that are equally near.

use vstd::arithmetic::power2::{
    lemma2_to64, lemma_pow2_adds, lemma_pow2_strictly_increases, lemma_pow2_unfold, pow2,
};
use vstd::prelude::*;

verus! {

/// One coordinate: the bit pattern of a 32-bit float.
#[derive(Clone, Copy, Debug, PartialEq, Eq, Structural)]
pub struct Coord {
    pub bits: u32,
}

/// The exponent field of a bit pattern.
pub open spec fn exponent_of(bits: u32) -> int {
    (bits as int / 0x80_0000) % 0x100
}

/// The fraction field of a bit pattern.
pub open spec fn fraction_of(bits: u32) -> int {
    bits as int % 0x80_0000
}

/// Whether the sign bit of a bit pattern is set.
pub open spec fn is_negative(bits: u32) -> bool {
    bits >= 0x8000_0000
}

/// The magnitude of the number with the given bit pattern, without what
/// comes after the point.
pub open spec fn magnitude_of(bits: u32) -> int {
    let e = exponent_of(bits);
    let m = fraction_of(bits) + 0x80_0000;
    if e < 127 {
        0
    } else if e >= 150 {
        m * pow2((e - 150) as nat)
    } else {
        m / (pow2((150 - e) as nat) as int)
    }
}

/// The number with the given bit pattern truncated toward zero to a 32-bit
/// integer: a number beyond the range of such integers gives the nearest
/// of them, and a pattern that is no number gives zero.
pub open spec fn truncated(bits: u32) -> int {
    if exponent_of(bits) == 255 && fraction_of(bits) != 0 {
        0
    } else if is_negative(bits) {
        if magnitude_of(bits) > 0x8000_0000 {
            -0x8000_0000
        } else {
            -magnitude_of(bits)
        }
    } else {
        if magnitude_of(bits) > 0x7fff_ffff {
            0x7fff_ffff
        } else {
            magnitude_of(bits)
        }
    }
}

/// Two to the power `k`.
fn power_of_two(k: u32) -> (p: u64)
    requires
        k <= 31,
    ensures
        p == pow2(k as nat),
        1 <= p <= 0x8000_0000,
{
    let mut p: u64 = 1;
    let mut i: u32 = 0;
    proof {
        lemma2_to64();
    }
    while i < k
        invariant
            0 <= i <= k <= 31,
            p == pow2(i as nat),
            1 <= p,
            p <= pow2(31),
            pow2(31) == 0x8000_0000,
        decreases k - i,
    {
        proof {
            lemma_pow2_unfold((i + 1) as nat);
            if i + 1 < 31 {
                lemma_pow2_strictly_increases((i + 1) as nat, 31);
            }
        }
        p = p * 2;
        i = i + 1;
    }
    p
}

impl Coord {
    /// The cell that the coordinate falls in: the number truncated toward
    /// zero.
    pub open spec fn cell_of(&self) -> int {
        truncated(self.bits)
    }

    /// The cell that the coordinate falls in: the number truncated toward
    /// zero.
    pub fn cell(&self) -> (cell: i32)
        ensures
            cell == self.cell_of(),
    {
        let bits: u32 = self.bits;
        let exponent: u32 = (bits / 0x80_0000) % 0x100;
        let fraction: u32 = bits % 0x80_0000;
        let negative: bool = bits >= 0x8000_0000;
        let mantissa: u64 = fraction as u64 + 0x80_0000;
        if exponent == 255 && fraction != 0 {
            return 0;
        }
        if exponent < 127 {
            return 0;
        }
        if exponent >= 158 {
            proof {
                lemma2_to64();
                if exponent > 158 {
                    lemma_pow2_strictly_increases(8, (exponent - 150) as nat);
                }
                assert(mantissa * pow2((exponent - 150) as nat) >= 0x80_0000 * 256)
                    by (nonlinear_arith)
                    requires
                        mantissa >= 0x80_0000,
                        pow2((exponent - 150) as nat) >= 256,
                ;
            }
            return if negative {
                i32::MIN
            } else {
                i32::MAX
            };
        }
        let magnitude: u64 = if exponent >= 150 {
            let factor: u64 = power_of_two(exponent - 150);
            proof {
                lemma2_to64();
                if exponent < 157 {
                    lemma_pow2_strictly_increases((exponent - 150) as nat, 7);
                }
                assert(mantissa * factor < 0x100_0000 * 128) by (nonlinear_arith)
                    requires
                        0 <= mantissa < 0x100_0000,
                        0 <= factor <= 128,
                ;
            }
            mantissa * factor
        } else {
            let divisor: u64 = power_of_two(150 - exponent);
            mantissa / divisor
        };
        if negative {
            (0 - magnitude as i64) as i32
        } else {
            magnitude as i32
        }
    }
}

/// Whether the number with the given bit pattern is whole and at least
/// one in magnitude, so that [`magnitude_of`] is its magnitude exactly.
pub open spec fn is_whole(bits: u32) -> bool {
    let e = exponent_of(bits);
    &&& 127 <= e <= 158
    &&& e < 150 ==> (fraction_of(bits) + 0x80_0000) % (pow2((150 - e) as nat) as int) == 0
}

/// Whether `f` is the whole number nearest to `a` among the multiples of
/// `u`, and the even multiple if two are equally near.
pub open spec fn rounds_to(a: int, u: int, f: int) -> bool {
    &&& f % u == 0
    &&& 2 * (f - a) <= u
    &&& 2 * (a - f) <= u
    &&& (2 * (f - a) == u || 2 * (a - f) == u) ==> (f / u) % 2 == 0
}

/// Whether the magnitude of the number with the given bit pattern is the
/// float magnitude nearest to the whole number `a`.  Up to `2^24` every
/// whole number is such a magnitude.  From `2^(23+s)` to `2^(24+s)` the
/// magnitudes are the multiples of `2^s`.
pub open spec fn magnitude_nearest_to(bits: u32, a: int) -> bool {
    if a < 0x100_0000 {
        magnitude_of(bits) == a
    } else {
        exists|s: nat|
            1 <= s <= 8 && pow2(23 + s) <= a < pow2(24 + s) && #[trigger] rounds_to(
                a,
                pow2(s) as int,
                magnitude_of(bits),
            )
    }
}

/// Whether the bit pattern is that of the 32-bit float nearest to the
/// integer `v`.
pub open spec fn nearest_to(bits: u32, v: int) -> bool {
    if v == 0 {
        bits == 0
    } else {
        &&& is_negative(bits) == (v < 0)
        &&& is_whole(bits)
        &&& magnitude_nearest_to(bits, if v < 0 {
            -v
        } else {
            v
        })
    }
}

/// A float that stands for a cell of magnitude below `2^24` falls in that
/// cell.
pub proof fn lemma_cell_round_trip(bits: u32, v: int)
    requires
        -0x100_0000 < v < 0x100_0000,
        nearest_to(bits, v),
    ensures
        truncated(bits) == v,
{
    if v == 0 {
        assert(exponent_of(0u32) == 0 && fraction_of(0u32) == 0);
    }
}

/// Puts a bit pattern together from a sign, an exponent and a mantissa
/// with its leading bit.
fn pattern(sign: u32, exponent: u32, mantissa: u64) -> (bits: u32)
    requires
        sign <= 1,
        exponent < 0x100,
        0x80_0000 <= mantissa < 0x100_0000,
    ensures
        exponent_of(bits) == exponent,
        fraction_of(bits) == mantissa - 0x80_0000,
        is_negative(bits) == (sign == 1),
{
    let fraction: u32 = (mantissa - 0x80_0000) as u32;
    let bits: u32 = sign * 0x8000_0000 + exponent * 0x80_0000 + fraction;
    assert(bits == (sign * 0x100 + exponent) * 0x80_0000 + fraction);
    assert(bits as int / 0x80_0000 == sign * 0x100 + exponent);
    assert(bits as int % 0x80_0000 == fraction);
    bits
}

/// The position of the highest bit that is set in `a`.
fn top_bit(a: u64) -> (top: u32)
    requires
        1 <= a <= 0x8000_0000,
    ensures
        top <= 31,
        pow2(top as nat) <= a < pow2((top + 1) as nat),
{
    let mut top: u32 = 0;
    let mut reach: u64 = 1;
    proof {
        lemma2_to64();
    }
    while reach * 2 <= a
        invariant
            1 <= a <= 0x8000_0000,
            0 <= top <= 31,
            1 <= reach <= a,
            reach == pow2(top as nat),
            pow2(31) == 0x8000_0000,
        decreases a - reach,
    {
        proof {
            lemma_pow2_unfold((top + 1) as nat);
            if top + 1 > 31 {
                lemma_pow2_strictly_increases(31, (top + 1) as nat);
            }
        }
        reach = reach * 2;
        top = top + 1;
    }
    proof {
        lemma_pow2_unfold((top + 1) as nat);
    }
    top
}

/// The mantissa and the exponent of a whole number below `2^24`, which is
/// a float as it stands.
fn exact_parts(a: u64, top: u32) -> (parts: (u64, u32))
    requires
        top <= 23,
        pow2(top as nat) <= a < pow2((top + 1) as nat),
    ensures
        0x80_0000 <= parts.0 < 0x100_0000,
        127 <= parts.1 <= 150,
        parts.1 < 150 ==> parts.0 as int % (pow2((150 - parts.1) as nat) as int) == 0
            && parts.0 as int / (pow2((150 - parts.1) as nat) as int) == a,
        parts.1 == 150 ==> parts.0 * pow2(0) == a,
        a < 0x100_0000,
{
    let factor: u64 = power_of_two(23 - top);
    proof {
        lemma2_to64();
        lemma_pow2_adds(top as nat, (23 - top) as nat);
        lemma_pow2_adds((top + 1) as nat, (23 - top) as nat);
        lemma_scaled(a as int, factor as int, pow2(top as nat) as int, pow2((top + 1) as nat) as int);
        if top + 1 < 24 {
            lemma_pow2_strictly_increases((top + 1) as nat, 24);
        }
    }
    (a * factor, 127 + top)
}

/// Scaling a number and its bounds by one factor, and dividing again.
proof fn lemma_scaled(a: int, factor: int, low: int, high: int)
    by (nonlinear_arith)
    requires
        low <= a < high,
        factor >= 1,
        0 <= low,
    ensures
        low * factor <= a * factor < high * factor,
        (a * factor) % factor == 0,
        (a * factor) / factor == a,
        factor == 1 ==> a * factor == a,
{
}

/// The mantissa and the exponent of the float nearest to a whole number
/// from `2^24` on.
fn rounded_parts(a: u64, top: u32) -> (parts: (u64, u32))
    requires
        24 <= top <= 31,
        pow2(top as nat) <= a < pow2((top + 1) as nat),
        a <= 0x8000_0000,
    ensures
        0x80_0000 <= parts.0 < 0x100_0000,
        150 < parts.1 <= 158,
        rounds_to(
            a as int,
            pow2((top - 23) as nat) as int,
            parts.0 * pow2((parts.1 - 150) as nat),
        ),
        a >= 0x100_0000,
{
    let shift: u32 = top - 23;
    let unit: u64 = power_of_two(shift);
    let quotient: u64 = a / unit;
    let rest: u64 = a % unit;
    proof {
        lemma2_to64();
        lemma_pow2_adds(23, shift as nat);
        lemma_pow2_adds(24, shift as nat);
        lemma_pow2_unfold(shift as nat);
        lemma_pow2_unfold((shift + 1) as nat);
        lemma_pow2_strictly_increases(0, shift as nat);
        lemma_quotient(a as int, unit as int, quotient as int, rest as int);
        if top > 24 {
            lemma_pow2_strictly_increases(24, top as nat);
        }
    }
    let half: u64 = unit / 2;
    let up: bool = rest > half || (rest == half && quotient % 2 == 1);
    let rounded: u64 = if up {
        quotient + 1
    } else {
        quotient
    };
    proof {
        lemma_rounding(
            a as int,
            unit as int,
            quotient as int,
            rest as int,
            half as int,
            up,
            rounded as int,
        );
    }
    if rounded == 0x100_0000 {
        proof {
            assert(0x80_0000 * pow2((shift + 1) as nat) == rounded * unit) by (nonlinear_arith)
                requires
                    rounded == 0x100_0000,
                    pow2((shift + 1) as nat) == 2 * pow2(shift as nat),
                    unit == pow2(shift as nat),
            ;
        }
        (0x80_0000, 127 + top + 1)
    } else {
        (rounded, 127 + top)
    }
}

/// Dividing a number between `2^23` and `2^24` units by the unit.
proof fn lemma_quotient(a: int, unit: int, quotient: int, rest: int)
    by (nonlinear_arith)
    requires
        unit >= 1,
        0x80_0000 * unit <= a < 0x100_0000 * unit,
        quotient == a / unit,
        rest == a % unit,
    ensures
        a == quotient * unit + rest,
        0 <= rest < unit,
        0x80_0000 <= quotient < 0x100_0000,
{
}

/// Rounding to the nearest multiple of the unit, to the even one of two.
proof fn lemma_rounding(a: int, unit: int, quotient: int, rest: int, half: int, up: bool, rounded: int)
    requires
        unit == 2 * half,
        half >= 1,
        a == quotient * unit + rest,
        0 <= rest < unit,
        quotient >= 0,
        up == (rest > half || (rest == half && quotient % 2 == 1)),
        rounded == if up {
            quotient + 1
        } else {
            quotient
        },
    ensures
        rounds_to(a, unit, rounded * unit),
{
    let f = rounded * unit;
    assert(f % unit == 0 && f / unit == rounded) by (nonlinear_arith)
        requires
            f == rounded * unit,
            unit >= 1,
            rounded >= 0,
    ;
    assert((quotient + 1) * unit == quotient * unit + unit) by (nonlinear_arith);
}

impl Coord {
    /// The coordinate of a cell: the bit pattern of the float nearest to
    /// the integer `v`.
    pub fn from_cell(v: i32) -> (coord: Coord)
        ensures
            nearest_to(coord.bits, v as int),
    {
        if v == 0 {
            return Coord { bits: 0 };
        }
        let negative: bool = v < 0;
        let a: u64 = if negative {
            (0 - v as i64) as u64
        } else {
            v as u64
        };
        let sign: u32 = if negative {
            1
        } else {
            0
        };
        let top: u32 = top_bit(a);
        if top <= 23 {
            let (mantissa, exponent) = exact_parts(a, top);
            let bits: u32 = pattern(sign, exponent, mantissa);
            proof {
                assert(fraction_of(bits) + 0x80_0000 == mantissa);
                assert(is_whole(bits));
                assert(magnitude_of(bits) == a);
            }
            Coord { bits }
        } else {
            let (mantissa, exponent) = rounded_parts(a, top);
            let bits: u32 = pattern(sign, exponent, mantissa);
            proof {
                let s = (top - 23) as nat;
                lemma_pow2_adds(23, s);
                lemma_pow2_adds(24, s);
                assert(23 + s == top && 24 + s == top + 1);
                assert(fraction_of(bits) + 0x80_0000 == mantissa);
                assert(is_whole(bits));
                assert(magnitude_of(bits) == mantissa * pow2((exponent - 150) as nat));
                assert(rounds_to(a as int, pow2(s) as int, magnitude_of(bits)));
                assert(1 <= s <= 8 && pow2(23 + s) <= a < pow2(24 + s));
                assert(magnitude_nearest_to(bits, a as int));
            }
            Coord { bits }
        }
    }
}

} // verus!
