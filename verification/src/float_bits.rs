//! The bit-level model of IEEE-754 single-precision values.
//!
//! A single-precision value is carried as its 32-bit pattern.  The meaning of
//! a finite pattern is given by `val149`, the value scaled by 2^149 (the
//! reciprocal of the smallest positive representable magnitude), which is an
//! exact integer for every finite pattern.  Denormal patterns are flushed to
//! a signed zero before use (`flush`), matching flush-to-zero hardware, so
//! stepping along adjacent values (`next_f32` / `prev_f32`) never visits a
//! denormal.

use vstd::arithmetic::power2::pow2;
use vstd::arithmetic::power2::lemma_pow2_adds;
use vstd::arithmetic::power2::lemma_pow2_pos;
use vstd::arithmetic::power2::lemma_pow2_strictly_increases;
use vstd::prelude::*;

verus! {

/// Bit pattern of positive infinity; also the magnitude above which a
/// pattern is a NaN.
pub const INF_BITS: u32 = 0x7F80_0000;

/// Bit pattern of the largest finite positive value.
pub const MAX_FINITE_BITS: u32 = 0x7F7F_FFFF;

/// Bit pattern of negative zero.
pub const NEG_ZERO_BITS: u32 = 0x8000_0000;

/// Bit pattern of the smallest positive normal value.
pub const MIN_NORMAL_BITS: u32 = 0x0080_0000;

/// The sign of a pattern: 0 for positive, 1 for negative.
pub open spec fn sign_of(b: u32) -> u32 {
    b / 0x8000_0000
}

/// The 31 magnitude bits of a pattern (exponent and fraction).
pub open spec fn mag_of(b: u32) -> u32 {
    b % 0x8000_0000
}

/// The biased exponent field.
pub open spec fn exp_of(b: u32) -> u32 {
    mag_of(b) / 0x80_0000
}

/// The fraction field.
pub open spec fn frac_of(b: u32) -> u32 {
    mag_of(b) % 0x80_0000
}

pub open spec fn is_nan(b: u32) -> bool {
    mag_of(b) > INF_BITS
}

pub open spec fn is_finite(b: u32) -> bool {
    mag_of(b) < INF_BITS
}

/// No denormal: the pattern is a zero, a normal value, an infinity or a NaN.
pub open spec fn is_flushed(b: u32) -> bool {
    exp_of(b) != 0 || frac_of(b) == 0
}

/// The value of the magnitude bits, scaled by 2^149: a denormal pattern is
/// worth its fraction, a normal pattern is worth `(2^23 + frac) * 2^(e-1)`.
/// (Infinite and NaN magnitudes are given values above every finite one,
/// which keeps the ordering lemmas total over non-NaN patterns.)
pub open spec fn mag_val(mag: u32) -> int {
    let e = mag / 0x80_0000;
    let f = mag % 0x80_0000;
    if e == 0 {
        f as int
    } else {
        (0x80_0000 + f) * pow2((e - 1) as nat)
    }
}

/// The significand of a finite pattern, with the implicit digit of a normal
/// value made explicit.
pub open spec fn mant_of(b: u32) -> nat {
    if exp_of(b) == 0 {
        frac_of(b) as nat
    } else {
        (0x80_0000 + frac_of(b)) as nat
    }
}

/// The binary scale of the significand: a finite pattern is worth
/// `mant_of * 2^kexp_of`, scaled by 2^149 (and negated under a set sign).
pub open spec fn kexp_of(b: u32) -> nat {
    if exp_of(b) == 0 {
        0
    } else {
        (exp_of(b) - 1) as nat
    }
}

/// The magnitude value factors through significand and scale.
pub proof fn lemma_val_decompose(b: u32)
    ensures
        mag_val(mag_of(b)) == mant_of(b) * pow2(kexp_of(b)),
        sign_of(b) == 0 ==> val149(b) == mant_of(b) * pow2(kexp_of(b)),
        sign_of(b) == 1 ==> val149(b) == -(mant_of(b) * pow2(kexp_of(b))),
{
    vstd::arithmetic::power2::lemma2_to64();
    if exp_of(b) == 0 {
        assert(mant_of(b) * 1 == mant_of(b));
    }
}

/// The value of a finite pattern, scaled by 2^149.
pub open spec fn val149(b: u32) -> int {
    if sign_of(b) == 1 {
        -mag_val(mag_of(b))
    } else {
        mag_val(mag_of(b))
    }
}

/// Position of a flushed pattern in the `next_f32` stepping chain
/// `..., -MIN_NORMAL, -0, +0, +MIN_NORMAL, ...`: negative zero sits at -1,
/// positive zero at 0, and each step of `next_f32` adds exactly 1.
pub open spec fn cidx(b: u32) -> int {
    if sign_of(b) == 0 {
        if mag_of(b) == 0 {
            0
        } else {
            mag_of(b) - 0x7F_FFFF
        }
    } else {
        if mag_of(b) == 0 {
            -1
        } else {
            -(mag_of(b) - 0x7F_FFFE)
        }
    }
}

/// Position of a flushed pattern in the order of *values*: zero (either
/// sign) sits at 0, the positive normals count up from 1, the negative
/// normals down from -1.  Unlike `cidx`, the two zero patterns share one
/// slot, so this index counts each representable value once.
pub open spec fn zidx(b: u32) -> int {
    if sign_of(b) == 0 {
        if mag_of(b) == 0 {
            0
        } else {
            mag_of(b) - 0x7F_FFFF
        }
    } else {
        if mag_of(b) == 0 {
            0
        } else {
            0x7F_FFFF - mag_of(b)
        }
    }
}

/// What `next_value` returns: the next pattern up the chain, with negative
/// zero passed over in favour of positive zero, so that each *value* is
/// visited once.
pub open spec fn next_value_spec(x: u32) -> u32 {
    if next_spec(x) == NEG_ZERO_BITS {
        0u32
    } else {
        next_spec(x)
    }
}

/// Step to the next representable *value* above: as `next_f32`, except that
/// the walk lands on positive zero when crossing the origin, visiting the
/// zero value exactly once.
pub fn next_value(x: u32) -> (r: u32)
    requires
        !is_nan(x),
    ensures
        r == next_value_spec(x),
        is_flushed(r),
        r != NEG_ZERO_BITS,
        x != INF_BITS ==> !is_nan(r),
{
    let n = next_f32(x);
    if n == NEG_ZERO_BITS {
        0
    } else {
        n
    }
}

/// Value order and value-index order agree for flushed patterns, and the
/// index is constant exactly on equal values.
pub proof fn lemma_zidx_order(a: u32, b: u32)
    requires
        is_flushed(a),
        is_flushed(b),
        !is_nan(a),
        !is_nan(b),
    ensures
        (zidx(a) < zidx(b)) == (val149(a) < val149(b)),
        (zidx(a) == zidx(b)) == (val149(a) == val149(b)),
{
    let ma = mag_of(a);
    let mb = mag_of(b);
    if ma < mb {
        lemma_mag_val_mono(ma, mb);
    } else if mb < ma {
        lemma_mag_val_mono(mb, ma);
    }
    if ma > 0 {
        lemma_mag_val_mono(0, ma);
    }
    if mb > 0 {
        lemma_mag_val_mono(0, mb);
    }
}

/// Stepping to the next value moves the value index up by exactly one and
/// strictly raises the value.
pub proof fn lemma_next_value_zidx(x: u32)
    requires
        is_flushed(x),
        !is_nan(x),
        x != INF_BITS,
        x != NEG_ZERO_BITS,
    ensures
        is_flushed(next_value_spec(x)),
        !is_nan(next_value_spec(x)),
        next_value_spec(x) != NEG_ZERO_BITS,
        zidx(next_value_spec(x)) == zidx(x) + 1,
        val149(next_value_spec(x)) > val149(x),
{
    let r = next_value_spec(x);
    lemma_next_cidx(x);
    if next_spec(x) == NEG_ZERO_BITS {
        // x is the most negative normal; the walk lands on positive zero.
        assert(x == 0x8080_0000u32);
        lemma_mag_val_mono(0, MIN_NORMAL_BITS);
    } else {
        if x == NEG_ZERO_BITS {
        } else if is_finite(x) {
            lemma_next_increases(x);
        } else {
            lemma_mag_val_mono(mag_of(r), mag_of(x));
        }
    }
}

/// What `flush_f32_to_zero` returns: a denormal loses its fraction and
/// becomes the zero of its sign; everything else is unchanged.
pub open spec fn flush_spec(b: u32) -> u32 {
    if exp_of(b) == 0 {
        (sign_of(b) * 0x8000_0000) as u32
    } else {
        b
    }
}

/// Normalize a pattern as flush-to-zero hardware would: any denormal becomes
/// the zero of its sign.
pub fn flush_f32_to_zero(b: u32) -> (r: u32)
    ensures
        r == flush_spec(b),
        is_flushed(r),
        sign_of(r) == sign_of(b),
{
    let mag: u32 = b % 0x8000_0000;
    let e: u32 = mag / 0x80_0000;
    if e == 0 {
        (b / 0x8000_0000) * 0x8000_0000
    } else {
        b
    }
}

/// What `next_f32` returns (on the already-flushed pattern).
pub open spec fn next_spec(x: u32) -> u32 {
    let b = flush_spec(x);
    if b == 0 {
        MIN_NORMAL_BITS
    } else if sign_of(b) == 0 {
        (b + 1) as u32
    } else if b == NEG_ZERO_BITS {
        0
    } else if b == 0x8080_0000 {
        NEG_ZERO_BITS
    } else {
        (b - 1) as u32
    }
}

/// What `prev_f32` returns (on the already-flushed pattern).
pub open spec fn prev_spec(x: u32) -> u32 {
    let b = flush_spec(x);
    if b == 0 {
        NEG_ZERO_BITS
    } else if b == MIN_NORMAL_BITS {
        0
    } else if sign_of(b) == 0 {
        (b - 1) as u32
    } else if b == NEG_ZERO_BITS {
        0x8080_0000
    } else {
        (b + 1) as u32
    }
}

/// Step to the adjacent representable value above, after flushing; crossing
/// zero passes through both signed zeros, one step each.
pub fn next_f32(x: u32) -> (r: u32)
    requires
        !is_nan(x),
    ensures
        r == next_spec(x),
        is_flushed(r),
        x != INF_BITS ==> !is_nan(r),
{
    let b: u32 = flush_f32_to_zero(x);
    if b == 0 {
        MIN_NORMAL_BITS
    } else if b / 0x8000_0000 == 0 {
        b + 1
    } else if b == NEG_ZERO_BITS {
        0
    } else if b == 0x8080_0000 {
        NEG_ZERO_BITS
    } else {
        b - 1
    }
}

/// Step to the adjacent representable value below, after flushing.
pub fn prev_f32(x: u32) -> (r: u32)
    requires
        !is_nan(x),
    ensures
        r == prev_spec(x),
        is_flushed(r),
        x != 0xFF80_0000u32 ==> !is_nan(r),
{
    let b: u32 = flush_f32_to_zero(x);
    if b == 0 {
        NEG_ZERO_BITS
    } else if b == MIN_NORMAL_BITS {
        0
    } else if b / 0x8000_0000 == 0 {
        b - 1
    } else if b == NEG_ZERO_BITS {
        0x8080_0000
    } else {
        b + 1
    }
}

/// The flushed pattern at a chain position, the inverse of `cidx`, clamped
/// to the infinities at either end of the chain.
pub open spec fn of_cidx(t: int) -> u32 {
    if t >= 0x7F00_0001 {
        INF_BITS
    } else if t >= 1 {
        (t + 0x7F_FFFF) as u32
    } else if t == 0 {
        0u32
    } else if t == -1 {
        NEG_ZERO_BITS
    } else if t >= -0x7F00_0002 {
        (0x8000_0000 + (-t - 2) + 0x80_0000) as u32
    } else {
        0xFF80_0000u32
    }
}

/// Step by a signed count of representable values: `n` chain positions up
/// (or down, for negative `n`), landing exactly on the signed zeros when
/// crossing the origin, and clamping at the infinities.
pub fn step_by(x: u32, n: i64) -> (r: u32)
    requires
        !is_nan(x),
    ensures
        r == of_cidx(cidx(flush_spec(x)) + n),
        is_flushed(r),
        !is_nan(r),
{
    let b = flush_f32_to_zero(x);
    let mag: u32 = b % 0x8000_0000;
    let c: i64 = if b / 0x8000_0000 == 0 {
        if mag == 0 {
            0
        } else {
            (mag as i64) - 0x7F_FFFF
        }
    } else {
        if mag == 0 {
            -1
        } else {
            -((mag as i64) - 0x7F_FFFE)
        }
    };
    let t: i128 = (c as i128) + (n as i128);
    if t >= 0x7F00_0001 {
        INF_BITS
    } else if t >= 1 {
        (t as u32) + 0x7F_FFFF
    } else if t == 0 {
        0
    } else if t == -1 {
        NEG_ZERO_BITS
    } else if t >= -0x7F00_0002 {
        0x8000_0000u32 + ((-t) as u32) - 2 + 0x80_0000
    } else {
        0xFF80_0000
    }
}

/// Whether the pattern is finite (not infinite, not NaN).
pub fn f32_is_finite(b: u32) -> (r: bool)
    ensures
        r == is_finite(b),
{
    b % 0x8000_0000 < 0x7F80_0000
}

/// Flushing changes the value only of a denormal, which becomes zero; a
/// denormal's value is within the smallest normal binade.
pub proof fn lemma_flush_val(x: u32)
    ensures
        is_flushed(x) ==> flush_spec(x) == x && val149(flush_spec(x)) == val149(x),
        !is_flushed(x) ==> val149(flush_spec(x)) == 0 && -0x80_0000 < val149(x) < 0x80_0000,
{
    if is_flushed(x) {
        assert(x == sign_of(x) * 0x8000_0000 + mag_of(x));
    } else {
        assert(mag_val(mag_of(flush_spec(x))) == 0);
    }
}

/// A flushed finite value is zero or at least the smallest normal magnitude.
pub proof fn lemma_flushed_val_gap(x: u32)
    requires
        is_flushed(x),
        !is_nan(x),
    ensures
        mag_of(x) == 0 ==> val149(x) == 0,
        mag_of(x) != 0 && sign_of(x) == 0 ==> val149(x) >= 0x80_0000,
        mag_of(x) != 0 && sign_of(x) == 1 ==> val149(x) <= -0x80_0000,
{
    if mag_of(x) != 0 {
        if mag_of(x) > MIN_NORMAL_BITS {
            lemma_mag_val_mono(MIN_NORMAL_BITS, mag_of(x));
        }
        assert(mag_val(MIN_NORMAL_BITS) == 0x80_0000 * pow2(0)) by {
            vstd::arithmetic::power2::lemma2_to64();
        }
        assert(0x80_0000 * pow2(0) == 0x80_0000) by {
            vstd::arithmetic::power2::lemma2_to64();
        }
    }
}

/// Strict order on single-precision values: `a < b` as the hardware compares
/// them, which for non-NaN patterns is the order of the scaled values (the
/// two zeros are equal).
pub fn f32_lt(a: u32, b: u32) -> (r: bool)
    requires
        !is_nan(a),
        !is_nan(b),
    ensures
        r == (val149(a) < val149(b)),
{
    proof {
        lemma_val_order(a, b);
    }
    let ka: i64 = okey(a);
    let kb: i64 = okey(b);
    ka < kb
}

/// `a <= b` on single-precision values, as the hardware compares them.
pub fn f32_le(a: u32, b: u32) -> (r: bool)
    requires
        !is_nan(a),
        !is_nan(b),
    ensures
        r == (val149(a) <= val149(b)),
{
    proof {
        lemma_val_order(a, b);
        lemma_val_order(b, a);
    }
    let ka: i64 = okey(a);
    let kb: i64 = okey(b);
    ka <= kb
}

/// The larger value's pattern; on equal values (including the two zeros) the
/// first pattern.
pub open spec fn f32_max_spec(a: u32, b: u32) -> u32 {
    if val149(a) < val149(b) {
        b
    } else {
        a
    }
}

/// The smaller value's pattern; on equal values the first pattern.
pub open spec fn f32_min_spec(a: u32, b: u32) -> u32 {
    if val149(b) < val149(a) {
        b
    } else {
        a
    }
}

/// The larger of two single-precision values; on equal values (including the
/// two zeros) the first argument is returned.
pub fn f32_max(a: u32, b: u32) -> (r: u32)
    requires
        !is_nan(a),
        !is_nan(b),
    ensures
        r == f32_max_spec(a, b),
{
    if f32_lt(a, b) {
        b
    } else {
        a
    }
}

/// The smaller of two single-precision values; on equal values the first
/// argument is returned.
pub fn f32_min(a: u32, b: u32) -> (r: u32)
    requires
        !is_nan(a),
        !is_nan(b),
    ensures
        r == f32_min_spec(a, b),
{
    if f32_lt(b, a) {
        b
    } else {
        a
    }
}

/// The sign-magnitude pattern folded into a signed key whose integer order
/// agrees with the value order (both zeros map to 0).
fn okey(b: u32) -> (k: i64)
    ensures
        k == okey_spec(b),
{
    let mag: u32 = b % 0x8000_0000;
    if b / 0x8000_0000 == 1 {
        -(mag as i64)
    } else {
        mag as i64
    }
}

pub open spec fn okey_spec(b: u32) -> int {
    if sign_of(b) == 1 {
        -(mag_of(b) as int)
    } else {
        mag_of(b) as int
    }
}

/// The magnitude value is strictly increasing in the magnitude bits, up to
/// and including the infinite magnitude.
pub proof fn lemma_mag_val_mono(m1: u32, m2: u32)
    requires
        m1 < m2,
        m2 <= INF_BITS,
    ensures
        mag_val(m1) < mag_val(m2),
{
    let e1 = m1 / 0x80_0000;
    let f1 = m1 % 0x80_0000;
    let e2 = m2 / 0x80_0000;
    let f2 = m2 % 0x80_0000;
    assert(e1 <= e2) by {
        vstd::arithmetic::div_mod::lemma_div_is_ordered(m1 as int, m2 as int, 0x80_0000);
    }
    if e1 == e2 {
        assert(f1 < f2);
        if e1 != 0 {
            lemma_pow2_pos((e1 - 1) as nat);
            vstd::arithmetic::mul::lemma_mul_strict_inequality(
                0x80_0000 + f1,
                0x80_0000 + f2,
                pow2((e1 - 1) as nat) as int,
            );
        }
    } else {
        // e1 < e2: the top of band e1 sits below the bottom of band e2.
        lemma_pow2_pos((e2 - 1) as nat);
        assert(mag_val(m2) >= 0x80_0000 * pow2((e2 - 1) as nat)) by {
            vstd::arithmetic::mul::lemma_mul_inequality(
                0x80_0000,
                0x80_0000 + f2,
                pow2((e2 - 1) as nat) as int,
            );
        }
        if e1 == 0 {
            assert(mag_val(m1) < 0x80_0000);
            assert(pow2((e2 - 1) as nat) >= 1);
            assert(0x80_0000 * pow2((e2 - 1) as nat) >= 0x80_0000 * 1) by {
                vstd::arithmetic::mul::lemma_mul_inequality(
                    1,
                    pow2((e2 - 1) as nat) as int,
                    0x80_0000,
                );
            }
        } else {
            lemma_pow2_pos((e1 - 1) as nat);
            assert(mag_val(m1) < 0x100_0000 * pow2((e1 - 1) as nat)) by {
                vstd::arithmetic::mul::lemma_mul_strict_inequality(
                    0x80_0000 + f1,
                    0x100_0000,
                    pow2((e1 - 1) as nat) as int,
                );
            }
            assert(0x100_0000 * pow2((e1 - 1) as nat) == 0x80_0000 * pow2(e1 as nat)) by {
                lemma_pow2_adds(1, (e1 - 1) as nat);
                vstd::arithmetic::power2::lemma2_to64();
                vstd::arithmetic::mul::lemma_mul_is_associative(0x80_0000, 2, pow2((e1 - 1) as nat) as int);
            }
            if e1 < e2 - 1 {
                lemma_pow2_strictly_increases(e1 as nat, (e2 - 1) as nat);
                vstd::arithmetic::mul::lemma_mul_strict_inequality(
                    pow2(e1 as nat) as int,
                    pow2((e2 - 1) as nat) as int,
                    0x80_0000,
                );
            }
        }
    }
}

/// Law: stepping is invertible.  For every flushed finite pattern,
/// `next_f32(prev_f32(x)) == x` and `prev_f32(next_f32(x)) == x`.
pub proof fn lemma_next_prev_roundtrip(x: u32)
    requires
        is_flushed(x),
        is_finite(x),
    ensures
        next_spec(prev_spec(x)) == x,
        prev_spec(next_spec(x)) == x,
{
}

/// Law: stepping up strictly increases the value.  The one flushed finite
/// pattern this does not hold for is negative zero, whose successor is
/// positive zero, an equal value.
pub proof fn lemma_next_increases(x: u32)
    requires
        is_flushed(x),
        is_finite(x),
        x != NEG_ZERO_BITS,
    ensures
        val149(next_spec(x)) > val149(x),
{
    let r = next_spec(x);
    if x == 0 {
        lemma_mag_val_mono(0, MIN_NORMAL_BITS);
    } else if sign_of(x) == 0 {
        lemma_mag_val_mono(mag_of(x), mag_of(r));
    } else if x == 0x8080_0000u32 {
        lemma_mag_val_mono(0, MIN_NORMAL_BITS);
    } else {
        lemma_mag_val_mono(mag_of(r), mag_of(x));
    }
}

/// Stepping up moves the chain position up by exactly one: `next_f32` visits
/// every flushed pattern, each signed zero exactly once.
pub proof fn lemma_next_cidx(x: u32)
    requires
        is_flushed(x),
        !is_nan(x),
        x != INF_BITS,
    ensures
        is_flushed(next_spec(x)),
        !is_nan(next_spec(x)),
        cidx(next_spec(x)) == cidx(x) + 1,
{
}

/// Stepping down moves the chain position down by exactly one.
pub proof fn lemma_prev_cidx(x: u32)
    requires
        is_flushed(x),
        !is_nan(x),
        x != 0xFF80_0000u32,
    ensures
        is_flushed(prev_spec(x)),
        !is_nan(prev_spec(x)),
        cidx(prev_spec(x)) == cidx(x) - 1,
{
}

/// Magnitude order and value order agree for non-NaN patterns, so the folded
/// key `okey_spec` orders exactly as `val149`.
pub proof fn lemma_val_order(a: u32, b: u32)
    requires
        !is_nan(a),
        !is_nan(b),
    ensures
        (okey_spec(a) < okey_spec(b)) == (val149(a) < val149(b)),
{
    let ma = mag_of(a);
    let mb = mag_of(b);
    if ma < mb {
        lemma_mag_val_mono(ma, mb);
    } else if mb < ma {
        lemma_mag_val_mono(mb, ma);
    }
    assert(mag_val(0) == 0);
    if ma > 0 {
        lemma_mag_val_mono(0, ma);
    }
    if mb > 0 {
        lemma_mag_val_mono(0, mb);
    }
}

} // verus!
