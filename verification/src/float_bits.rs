//! Floating-point numbers as the bits that store them.
//!
//! The library holds a number of the memory image or of a document as the bits
//! of its IEEE 754 encoding and decides on it with integer arithmetic.

use vstd::arithmetic::power2::*;
use vstd::bits::*;
use vstd::prelude::*;

verus! {

/// Whether the single-precision bits `b` store a finite number.
pub open spec fn single_finite(b: u32) -> bool {
    (b / 0x80_0000) % 256 < 255
}

/// The absolute value that `b` stores, in units of the smallest positive
/// single-precision number, which is two to the power of -149.
pub open spec fn single_units(b: u32) -> nat {
    let exponent = ((b / 0x80_0000) % 256) as nat;
    let fraction = (b % 0x80_0000) as nat;
    if exponent == 0 {
        fraction
    } else {
        (0x80_0000 + fraction) * pow2((exponent - 1) as nat)
    }
}

/// The number that `b` stores, in the same units, with its sign.
pub open spec fn single_value(b: u32) -> int {
    if b >= 0x8000_0000 {
        -(single_units(b) as int)
    } else {
        single_units(b) as int
    }
}

/// The whole number `n` in the units of `single_value`.
pub open spec fn single_whole(n: int) -> int {
    n * pow2(149)
}

/// A coordinate that a layer can have: finite, at least -10000, below 10000.
pub open spec fn plausible_position(b: u32) -> bool {
    single_finite(b) && single_whole(-10000) <= single_value(b) < single_whole(10000)
}

/// A scale that a layer can have: finite, below 10000 in absolute value.
pub open spec fn plausible_scale(b: u32) -> bool {
    single_finite(b) && single_units(b) < single_whole(10000)
}

/// Whether the single-precision bits `b` store no number.
pub open spec fn single_nan(b: u32) -> bool {
    (b / 0x80_0000) % 256 == 255 && b % 0x80_0000 != 0
}

/// Bits in the order of the numbers they store: the sign aside, a greater
/// number has greater bits.
pub proof fn lemma_single_order(a: u32, b: u32)
    requires
        a < b < 0x7f80_0000,
    ensures
        single_units(a) < single_units(b),
{
    let ea = (a / 0x80_0000) as nat;
    let eb = (b / 0x80_0000) as nat;
    let fa = (a % 0x80_0000) as nat;
    let fb = (b % 0x80_0000) as nat;
    assert(ea < 256 && eb < 256);
    lemma2_to64();
    if ea == eb {
        assert(fa < fb);
        if ea > 0 {
            lemma_pow2_pos((ea - 1) as nat);
            assert((0x80_0000 + fa) * pow2((ea - 1) as nat) < (0x80_0000 + fb) * pow2(
                (ea - 1) as nat,
            )) by (nonlinear_arith)
                requires
                    fa < fb,
                    pow2((ea - 1) as nat) > 0,
            ;
        }
    } else {
        assert(ea < eb);
        lemma_pow2_pos((eb - 1) as nat);
        if ea == 0 {
            assert(0x80_0000 <= (0x80_0000 + fb) * pow2((eb - 1) as nat)) by (nonlinear_arith)
                requires
                    pow2((eb - 1) as nat) >= 1,
            ;
        } else {
            let p = pow2((ea - 1) as nat);
            lemma_pow2_pos((ea - 1) as nat);
            lemma_pow2_unfold(ea);
            if ea < eb - 1 {
                lemma_pow2_strictly_increases(ea, (eb - 1) as nat);
            }
            let q = pow2((eb - 1) as nat);
            assert((0x80_0000 + fa) * p < (0x80_0000 + fb) * q) by (nonlinear_arith)
                requires
                    p > 0,
                    2 * p <= q,
                    fa < 0x80_0000,
                    fb >= 0,
            ;
        }
    }
}

/// The bits of 10000.
proof fn lemma_ten_thousand()
    ensures
        single_units(0x461c_4000) == single_whole(10000),
{
    lemma2_to64();
    lemma_pow2_adds(10, 139);
    assert((0x461c_4000u32 / 0x80_0000) % 256 == 140);
    assert(0x461c_4000u32 % 0x80_0000 == 0x1c_4000);
    assert(10240000 * pow2(139) == 10000 * (1024 * pow2(139))) by (nonlinear_arith);
}

/// How the absolute value of finite bits `m` lies to 10000.
proof fn lemma_against_ten_thousand(m: u32)
    requires
        m < 0x7f80_0000,
    ensures
        m < 0x461c_4000 <==> single_units(m) < single_whole(10000),
        m <= 0x461c_4000 <==> single_units(m) <= single_whole(10000),
{
    lemma_ten_thousand();
    if m < 0x461c_4000 {
        lemma_single_order(m, 0x461c_4000);
    }
    if m > 0x461c_4000 {
        lemma_single_order(0x461c_4000, m);
    }
}

/// Decides `plausible_position` on the bits.
pub fn position_in_range(b: u32) -> (r: bool)
    ensures
        r == plausible_position(b),
{
    let m: u32 = b % 0x8000_0000;
    proof {
        assert((b / 0x80_0000) % 256 == m / 0x80_0000);
        assert(b % 0x80_0000 == m % 0x80_0000);
        assert((m / 0x80_0000) % 256 == m / 0x80_0000);
        assert(single_units(b) == single_units(m));
        assert(single_whole(-10000) == -single_whole(10000)) by (nonlinear_arith);
        lemma_pow2_pos(149);
        assert(single_whole(10000) > 0) by (nonlinear_arith)
            requires
                pow2(149) > 0,
        ;
        if m < 0x7f80_0000 {
            lemma_against_ten_thousand(m);
        }
    }
    if b >= 0x8000_0000 {
        m <= 0x461c_4000
    } else {
        m < 0x461c_4000
    }
}

/// Decides `plausible_scale` on the bits.
pub fn scale_in_range(b: u32) -> (r: bool)
    ensures
        r == plausible_scale(b),
{
    let m: u32 = b % 0x8000_0000;
    proof {
        assert((b / 0x80_0000) % 256 == m / 0x80_0000);
        assert(b % 0x80_0000 == m % 0x80_0000);
        assert((m / 0x80_0000) % 256 == m / 0x80_0000);
        assert(single_units(b) == single_units(m));
        if m < 0x7f80_0000 {
            lemma_against_ten_thousand(m);
        }
    }
    m < 0x461c_4000
}

/// A scale that is not known to be too large: below 10000 in absolute value, or no
/// number.
pub open spec fn tolerable_scale(b: u32) -> bool {
    plausible_scale(b) || single_nan(b)
}

/// Decides `tolerable_scale` on the bits.
pub fn scale_tolerable(b: u32) -> (r: bool)
    ensures
        r == tolerable_scale(b),
{
    let m: u32 = b % 0x8000_0000;
    assert((b / 0x80_0000) % 256 == m / 0x80_0000);
    assert(b % 0x80_0000 == m % 0x80_0000);
    scale_in_range(b) || m > 0x7f80_0000
}

/// A scale that shows nothing: finite and, in absolute value, below the
/// single-precision number closest to 0.0001, which is 13743895 units of two to
/// the power of -37.
pub open spec fn vanishing_scale(b: u32) -> bool {
    single_finite(b) && single_units(b) < 13743895 * pow2(112)
}

/// Decides `vanishing_scale` on the bits.
pub fn scale_vanishes(b: u32) -> (r: bool)
    ensures
        r == vanishing_scale(b),
{
    let m: u32 = b % 0x8000_0000;
    proof {
        assert((b / 0x80_0000) % 256 == m / 0x80_0000);
        assert(b % 0x80_0000 == m % 0x80_0000);
        assert((m / 0x80_0000) % 256 == m / 0x80_0000);
        assert(single_units(b) == single_units(m));
        assert((0x38d1_b717u32 / 0x80_0000) % 256 == 113);
        assert(0x38d1_b717u32 % 0x80_0000 == 0x51_b717);
        assert(single_units(0x38d1_b717) == 13743895 * pow2(112));
        if m < 0x38d1_b717 {
            lemma_single_order(m, 0x38d1_b717);
        }
        if 0x38d1_b717 < m < 0x7f80_0000 {
            lemma_single_order(0x38d1_b717, m);
        }
    }
    m < 0x38d1_b717
}

/// Whether the double-precision bits `b` store no number.
pub open spec fn double_nan(b: u64) -> bool {
    (b / 0x10_0000_0000_0000) % 2048 == 2047 && b % 0x10_0000_0000_0000 != 0
}

/// Whether the double-precision bits `b` store an infinity.
pub open spec fn double_infinite(b: u64) -> bool {
    (b / 0x10_0000_0000_0000) % 2048 == 2047 && b % 0x10_0000_0000_0000 == 0
}

/// The absolute value of the finite number that `b` stores, without its
/// fraction.
pub open spec fn double_whole(b: u64) -> nat {
    let exponent = ((b / 0x10_0000_0000_0000) % 2048) as nat;
    let fraction = (b % 0x10_0000_0000_0000) as nat;
    let scale = if exponent == 0 {
        1
    } else {
        exponent
    };
    let mantissa = if exponent == 0 {
        fraction
    } else {
        0x10_0000_0000_0000 + fraction
    };
    if scale >= 1075 {
        mantissa * pow2((scale - 1075) as nat)
    } else {
        mantissa / pow2((1075 - scale) as nat)
    }
}

/// What the number that `b` stores is as a whole number within `low` and
/// `high`: the fraction is dropped, a number beyond a bound becomes the bound,
/// no number becomes zero.
pub open spec fn double_clamped(b: u64, low: int, high: int) -> int {
    let negative = b >= 0x8000_0000_0000_0000;
    if double_nan(b) {
        0
    } else if double_infinite(b) {
        if negative {
            low
        } else {
            high
        }
    } else {
        let n = if negative {
            -(double_whole(b) as int)
        } else {
            double_whole(b) as int
        };
        if n < low {
            low
        } else if n > high {
            high
        } else {
            n
        }
    }
}

/// The absolute value without its fraction, or two to the power of 64 where it
/// is at least that.
fn whole_part(b: u64) -> (r: u128)
    requires
        (b / 0x10_0000_0000_0000) % 2048 < 2047,
    ensures
        r == (if double_whole(b) < 0x1_0000_0000_0000_0000 {
            double_whole(b) as int
        } else {
            0x1_0000_0000_0000_0000
        }),
{
    let exponent: u64 = (b / 0x10_0000_0000_0000) % 2048;
    let fraction: u64 = b % 0x10_0000_0000_0000;
    proof {
        lemma2_to64();
        lemma2_to64_rest();
    }
    if exponent < 1023 {
        proof {
            let scale = if exponent == 0 {
                1nat
            } else {
                exponent as nat
            };
            let mantissa = if exponent == 0 {
                fraction as nat
            } else {
                (0x10_0000_0000_0000 + fraction) as nat
            };
            let shift = (1075 - scale) as nat;
            if shift > 53 {
                lemma_pow2_strictly_increases(53, shift);
            }
            assert(mantissa < pow2(shift));
            assert(mantissa / pow2(shift) == 0) by (nonlinear_arith)
                requires
                    mantissa < pow2(shift),
            ;
        }
        return 0;
    }
    let mantissa: u64 = 0x10_0000_0000_0000 + fraction;
    if exponent >= 1087 {
        proof {
            let shift = (exponent - 1075) as nat;
            if shift > 12 {
                lemma_pow2_strictly_increases(12, shift);
            }
            assert(mantissa * pow2(shift) >= 0x10_0000_0000_0000 * 4096) by (nonlinear_arith)
                requires
                    mantissa >= 0x10_0000_0000_0000,
                    pow2(shift) >= 4096,
            ;
        }
        return 0x1_0000_0000_0000_0000;
    }
    if exponent >= 1075 {
        let shift: u64 = exponent - 1075;
        proof {
            if shift < 11 {
                lemma_pow2_strictly_increases(shift as nat, 11);
            }
            assert(mantissa * pow2(shift as nat) <= 0x1f_ffff_ffff_ffff * 2048) by (nonlinear_arith)
                requires
                    mantissa <= 0x1f_ffff_ffff_ffff,
                    pow2(shift as nat) <= 2048,
            ;
            lemma_u64_shl_is_mul(mantissa, shift);
        }
        return (mantissa << shift) as u128;
    }
    let shift: u64 = 1075 - exponent;
    proof {
        lemma_u64_shr_is_div(mantissa, shift);
        let p = pow2(shift as nat);
        lemma_pow2_pos(shift as nat);
        assert(mantissa as nat / p <= mantissa) by (nonlinear_arith)
            requires
                p >= 1,
        ;
    }
    (mantissa >> shift) as u128
}

/// A double-precision number as a signed whole number: `as i64`.
pub fn double_to_i64(b: u64) -> (r: i64)
    ensures
        r == double_clamped(b, i64::MIN as int, i64::MAX as int),
{
    let negative = b >= 0x8000_0000_0000_0000;
    if (b / 0x10_0000_0000_0000) % 2048 == 2047 {
        if b % 0x10_0000_0000_0000 != 0 {
            return 0;
        }
        if negative {
            return i64::MIN;
        }
        return i64::MAX;
    }
    let n = whole_part(b);
    if negative {
        if n >= 0x8000_0000_0000_0000 {
            i64::MIN
        } else {
            -(n as i64)
        }
    } else if n > 0x7fff_ffff_ffff_ffff {
        i64::MAX
    } else {
        n as i64
    }
}

/// A double-precision number as an unsigned whole number: `as u64`.
pub fn double_to_u64(b: u64) -> (r: u64)
    ensures
        r == double_clamped(b, 0, u64::MAX as int),
{
    let negative = b >= 0x8000_0000_0000_0000;
    if (b / 0x10_0000_0000_0000) % 2048 == 2047 {
        if b % 0x10_0000_0000_0000 != 0 || negative {
            return 0;
        }
        return u64::MAX;
    }
    let n = whole_part(b);
    if negative {
        0
    } else if n > 0xffff_ffff_ffff_ffff {
        u64::MAX
    } else {
        n as u64
    }
}

/// The ranges that are told apart, by the bits of a number without its sign: those of
/// 10000 are 0x461C4000, those of the number closest to 0.0001 are 0x38D1B717, and no
/// number has bits above 0x7F800000.
pub proof fn law_ranges_by_bits(b: u32)
    ensures
        plausible_position(b) <==> b % 0x8000_0000 < 0x461C_4000 || b == 0xC61C_4000,
        plausible_scale(b) <==> b % 0x8000_0000 < 0x461C_4000,
        tolerable_scale(b) <==> b % 0x8000_0000 < 0x461C_4000 || b % 0x8000_0000 > 0x7F80_0000,
        vanishing_scale(b) <==> b % 0x8000_0000 < 0x38D1_B717,
{
    let m: u32 = b % 0x8000_0000;
    assert((b / 0x80_0000) % 256 == m / 0x80_0000);
    assert(b % 0x80_0000 == m % 0x80_0000);
    assert((m / 0x80_0000) % 256 == m / 0x80_0000);
    assert(single_units(b) == single_units(m));
    assert(single_whole(-10000) == -single_whole(10000)) by (nonlinear_arith);
    lemma_pow2_pos(149);
    assert(single_whole(10000) > 0) by (nonlinear_arith)
        requires
            pow2(149) > 0,
    ;
    if m < 0x7f80_0000 {
        lemma_against_ten_thousand(m);
        assert((0x38d1_b717u32 / 0x80_0000) % 256 == 113);
        assert(0x38d1_b717u32 % 0x80_0000 == 0x51_b717);
        assert(single_units(0x38d1_b717) == 13743895 * pow2(112));
        if m < 0x38d1_b717 {
            lemma_single_order(m, 0x38d1_b717);
        }
        if m > 0x38d1_b717 {
            lemma_single_order(0x38d1_b717, m);
        }
    }
}

} // verus!
