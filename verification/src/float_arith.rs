//! Integer implementation of single-precision arithmetic on bit patterns.
//!
//! Every operation rounds to nearest, ties to even, exactly as the target
//! engine's hardware does.  The rounding itself is stated once, in `pack`:
//! a sign, an integer magnitude and a binary scale (the value is
//! `mag / 2^sc`) are rounded onto the single-precision grid.  The executable
//! code mirrors the specification with `u128` arithmetic, so that no step of
//! a computation is approximated twice.

use crate::float_bits::INF_BITS;
use crate::float_bits::NEG_ZERO_BITS;
use crate::float_bits::frac_of;
use crate::float_bits::exp_of;
use crate::float_bits::is_finite;
use crate::float_bits::is_nan;
use crate::float_bits::kexp_of;
use crate::float_bits::mag_of;
use crate::float_bits::mant_of;
use crate::float_bits::mag_val;
use crate::float_bits::sign_of;
use crate::float_bits::val149;
use vstd::arithmetic::div_mod::lemma_fundamental_div_mod_converse;
use vstd::arithmetic::power2::lemma_pow2_adds;
use vstd::arithmetic::power2::lemma_pow2_pos;
use vstd::arithmetic::power2::lemma_pow2_strictly_increases;
use vstd::arithmetic::power2::lemma2_to64;
use vstd::arithmetic::power2::lemma2_to64_rest;
use vstd::arithmetic::power2::pow2;
use vstd::prelude::*;

verus! {

/// Number of binary digits of `n` (0 for 0).
pub open spec fn bit_len(n: nat) -> nat
    decreases n,
{
    if n == 0 {
        0
    } else {
        1 + bit_len(n / 2)
    }
}

/// `n / d` rounded to the nearest integer, ties to even.
pub open spec fn rnd_div(n: nat, d: nat) -> nat
    recommends
        d > 0,
{
    let q = n / d;
    let r = n % d;
    if 2 * r < d {
        q
    } else if 2 * r > d {
        q + 1
    } else if q % 2 == 0 {
        q
    } else {
        q + 1
    }
}

/// Assemble a pattern from a sign, a rounded significand `m <= 2^24` and the
/// biased exponent `eb` that applies when `m` lands in `[2^23, 2^24)`.
/// A significand below `2^23` is a denormal-range result, which only arises
/// with `eb == 1`, where the fraction field alone encodes it; a significand
/// of exactly `2^24` carries into the next binade; a biased exponent of 255
/// or more overflows to infinity.
pub open spec fn assemble(sign: u32, m: nat, eb: int) -> u32 {
    if m == 0 {
        (sign * 0x8000_0000) as u32
    } else if m < 0x80_0000 {
        (sign * 0x8000_0000 + m) as u32
    } else if m < 0x100_0000 {
        if eb >= 255 {
            (sign * 0x8000_0000 + INF_BITS) as u32
        } else {
            (sign * 0x8000_0000 + eb * 0x80_0000 + (m - 0x80_0000)) as u32
        }
    } else {
        if eb + 1 >= 255 {
            (sign * 0x8000_0000 + INF_BITS) as u32
        } else {
            (sign * 0x8000_0000 + (eb + 1) * 0x80_0000) as u32
        }
    }
}

/// Round the value `mag / 2^sc` to the nearest single-precision pattern,
/// ties to even: the one statement of the rounding every arithmetic
/// operation here performs.  The grid position `j` is the number of low
/// binary digits of `mag` that do not fit the 24-digit significand, never
/// finer than the fixed denormal grid at scale 149; a non-positive `j`
/// means the value is exact on the grid.
pub open spec fn pack(sign: u32, mag: nat, sc: int) -> u32 {
    if mag == 0 {
        (sign * 0x8000_0000) as u32
    } else {
        let len = bit_len(mag) as int;
        let j = if len - 24 >= sc - 149 {
            len - 24
        } else {
            sc - 149
        };
        let m = if j <= 0 {
            mag * pow2((-j) as nat)
        } else {
            rnd_div(mag, pow2(j as nat))
        };
        assemble(sign, m, 150 - (sc - j))
    }
}

/// `n > 0` sits between the two powers of two that its digit count names.
pub proof fn lemma_bit_len_bounds(n: nat)
    requires
        n > 0,
    ensures
        pow2((bit_len(n) - 1) as nat) <= n < pow2(bit_len(n)),
    decreases n,
{
    if n / 2 == 0 {
        lemma2_to64();
    } else {
        lemma_bit_len_bounds(n / 2);
        lemma_pow2_adds(1, (bit_len(n / 2) - 1) as nat);
        lemma_pow2_adds(1, bit_len(n / 2));
        lemma2_to64();
    }
}

/// Conversely, the digit count is determined by such a sandwich.
pub proof fn lemma_bit_len_from_bounds(n: nat, t: nat)
    requires
        t > 0,
        pow2((t - 1) as nat) <= n < pow2(t),
    ensures
        bit_len(n) == t,
{
    lemma_pow2_pos((t - 1) as nat);
    lemma_bit_len_bounds(n);
    let l = bit_len(n);
    if l < t {
        if l < t - 1 {
            lemma_pow2_strictly_increases(l, (t - 1) as nat);
        }
        assert(false);
    } else if l > t {
        if t < l - 1 {
            lemma_pow2_strictly_increases(t, (l - 1) as nat);
        }
        assert(false);
    }
}

/// Doubling adds one digit.
pub proof fn lemma_bit_len_shift(n: nat, t: nat)
    requires
        n > 0,
    ensures
        bit_len(n * pow2(t)) == bit_len(n) + t,
    decreases t,
{
    if t == 0 {
        lemma2_to64();
        assert(n * 1 == n);
    } else {
        lemma_bit_len_shift(n, (t - 1) as nat);
        lemma_pow2_adds((t - 1) as nat, 1);
        lemma2_to64();
        let m = n * pow2((t - 1) as nat);
        lemma_pow2_pos((t - 1) as nat);
        assert(m > 0) by {
            vstd::arithmetic::mul::lemma_mul_strictly_positive(n as int, pow2((t - 1) as nat) as int);
        }
        assert(n * pow2(t) == m * 2) by {
            vstd::arithmetic::mul::lemma_mul_is_associative(n as int, pow2((t - 1) as nat) as int, 2);
        }
        assert(bit_len((m * 2) as nat) == 1 + bit_len(m)) by {
            assert((m * 2) / 2 == m);
        }
    }
}

/// Exact power of two, as a 128-bit word.
pub(crate) fn pow2_u128(e: u32) -> (r: u128)
    requires
        e <= 127,
    ensures
        r as nat == pow2(e as nat),
{
    let mut i: u32 = 0;
    let mut r: u128 = 1;
    proof {
        lemma2_to64();
    }
    while i < e
        invariant
            i <= e,
            e <= 127,
            r as nat == pow2(i as nat),
        decreases e - i,
    {
        proof {
            lemma_pow2_adds(i as nat, 1);
            lemma2_to64();
            if ((i + 1) as nat) <= 127 {
                if ((i + 1) as nat) < 127 {
                    lemma_pow2_strictly_increases((i + 1) as nat, 127);
                }
                lemma_pow2_adds(64, 63);
                lemma2_to64_rest();
            }
        }
        r = r * 2;
        i = i + 1;
    }
    r
}

/// Number of binary digits of a 128-bit word.
fn bit_len_u128(n: u128) -> (len: u32)
    ensures
        len as nat == bit_len(n as nat),
{
    let mut x: u128 = n;
    let mut c: u32 = 0;
    proof {
        lemma_bit_len_le128(n as nat);
    }
    while x > 0
        invariant
            bit_len(n as nat) == bit_len(x as nat) + c,
            bit_len(n as nat) <= 128,
        decreases x,
    {
        x = x / 2;
        c = c + 1;
    }
    c
}

/// A value below `2^k` has at most `k` digits.
pub proof fn lemma_bit_len_le(n: nat, k: nat)
    requires
        n < pow2(k),
    ensures
        bit_len(n) <= k,
{
    if n > 0 {
        lemma_bit_len_bounds(n);
        if bit_len(n) > k {
            if k < bit_len(n) - 1 {
                lemma_pow2_strictly_increases(k, (bit_len(n) - 1) as nat);
            }
        }
    }
}

/// A 128-bit word has at most 128 digits.
proof fn lemma_bit_len_le128(n: nat)
    requires
        n < 0x1_0000_0000_0000_0000_0000_0000_0000_0000,
    ensures
        bit_len(n) <= 128,
{
    lemma_pow2_adds(64, 64);
    lemma2_to64();
    lemma_bit_len_le(n, 128);
}

/// Round `mag / 2^sc` onto the single-precision grid.  Executable mirror of
/// `pack`.
fn pack_f32(sign: u32, mag: u128, sc: i32) -> (r: u32)
    requires
        sign <= 1,
        mag < 0x2000_0000_0000_0000_0000_0000_0000_0000,
        -260 <= sc <= 310,
    ensures
        r == pack(sign, mag as nat, sc as int),
{
    if mag == 0 {
        return sign * 0x8000_0000;
    }
    proof {
        lemma_bit_len_bounds(mag as nat);
        lemma_pow2_adds(64, 61);
        lemma2_to64();
        lemma2_to64_rest();
        lemma_bit_len_le(mag as nat, 125);
    }
    let len: u32 = bit_len_u128(mag);
    let j: i32 = if (len as i32) - 24 >= sc - 149 {
        (len as i32) - 24
    } else {
        sc - 149
    };
    let ghost spec_m: nat = if j <= 0 {
        (mag as nat) * pow2((-j) as nat)
    } else {
        rnd_div(mag as nat, pow2(j as nat))
    };
    let m: u128 = if j <= 0 {
        proof {
            // mag < 2^len and -j <= 24 - len, so the shifted value stays
            // below 2^24.
            lemma_pow2_adds((len as nat), (24 - len as int) as nat);
            lemma2_to64();
            assert((mag as nat) * pow2((-j) as nat) < pow2((len + (-j)) as nat)) by {
                vstd::arithmetic::mul::lemma_mul_strict_inequality(
                    mag as int,
                    pow2(len as nat) as int,
                    pow2((-j) as nat) as int,
                );
                lemma_pow2_adds(len as nat, (-j) as nat);
            }
            assert(pow2((len + (-j)) as nat) <= pow2(24)) by {
                if len + (-j) < 24 {
                    lemma_pow2_strictly_increases((len + (-j)) as nat, 24);
                }
            }
        }
        mag * pow2_u128((0 - j) as u32)
    } else if (j as u32) > len {
        proof {
            // The whole magnitude is below half the grid step: it rounds to
            // zero.
            lemma_pow2_strictly_increases(len as nat, j as nat);
            lemma_pow2_adds((len as nat), ((j as nat) - (len as nat)) as nat);
            let d = pow2(j as nat);
            lemma_pow2_pos(j as nat);
            lemma_pow2_pos(len as nat);
            assert(2 * (mag as nat) < d) by {
                assert((mag as nat) < pow2(len as nat));
                assert(pow2((len + 1) as nat) <= d) by {
                    lemma_pow2_adds(len as nat, 1);
                    lemma2_to64();
                    if len + 1 < j {
                        lemma_pow2_strictly_increases((len + 1) as nat, j as nat);
                    }
                }
                lemma_pow2_adds(len as nat, 1);
                lemma2_to64();
            }
            assert((mag as nat) / d == 0) by {
                vstd::arithmetic::div_mod::lemma_basic_div(mag as int, d as int);
            }
            assert((mag as nat) % d == mag as nat) by {
                vstd::arithmetic::div_mod::lemma_small_mod(mag as nat, d);
            }
            assert(spec_m == 0);
        }
        0
    } else {
        let d: u128 = pow2_u128(j as u32);
        proof {
            lemma_pow2_pos(j as nat);
        }
        let q: u128 = mag / d;
        let rr: u128 = mag % d;
        proof {
            // 2*rr cannot overflow: rr < d <= 2^125.
            assert((d as nat) <= pow2(125)) by {
                if (j as nat) < 125 {
                    lemma_pow2_strictly_increases(j as nat, 125);
                }
            }
            assert(pow2(125) < pow2(127)) by {
                lemma_pow2_strictly_increases(125, 127);
            }
            lemma_pow2_adds(64, 63);
            lemma2_to64();
            lemma2_to64_rest();
        }
        if 2 * rr < d {
            q
        } else if 2 * rr > d {
            q + 1
        } else if q % 2 == 0 {
            q
        } else {
            q + 1
        }
    };
    proof {
        assert(m as nat == spec_m);
        // The rounded significand never exceeds 2^24.
        lemma2_to64();
        if j > 0 && j <= len {
            let d = pow2(j as nat);
            lemma_pow2_pos(j as nat);
            assert((mag as nat) / d < pow2((len - j as int) as nat)) by {
                lemma_pow2_adds(j as nat, (len - j as int) as nat);
                assert((mag as int) < (d as int) * (pow2((len - j as int) as nat) as int));
                vstd::arithmetic::div_mod::lemma_multiply_divide_lt(
                    mag as int,
                    d as int,
                    pow2((len - j as int) as nat) as int,
                );
            }
            assert(spec_m <= pow2((len - j as int) as nat));
            assert(pow2((len - j as int) as nat) <= pow2(24)) by {
                if len - j < 24 {
                    lemma_pow2_strictly_increases((len - j as int) as nat, 24);
                }
            }
        }
        assert(m <= 0x100_0000);
    }
    let eb: i32 = 150 - (sc - j);
    if m == 0 {
        sign * 0x8000_0000
    } else if m < 0x80_0000 {
        sign * 0x8000_0000 + (m as u32)
    } else if m < 0x100_0000 {
        if eb >= 255 {
            sign * 0x8000_0000 + INF_BITS
        } else {
            sign * 0x8000_0000 + (eb as u32) * 0x80_0000 + (m as u32 - 0x80_0000)
        }
    } else {
        if eb + 1 >= 255 {
            sign * 0x8000_0000 + INF_BITS
        } else {
            sign * 0x8000_0000 + ((eb + 1) as u32) * 0x80_0000
        }
    }
}

/// Rounding an exact multiple of the grid changes nothing.
proof fn lemma_rnd_div_exact(a: nat, d: nat)
    requires
        d > 0,
    ensures
        rnd_div(a * d, d) == a,
{
    lemma_fundamental_div_mod_converse((a * d) as int, d as int, a as int, 0);
}

/// Rounding is invariant under scaling numerator and denominator together.
proof fn lemma_rnd_div_shift(n: nat, d: nat, s: nat)
    requires
        d > 0,
        s > 0,
    ensures
        rnd_div(n * s, d * s) == rnd_div(n, d),
{
    let q = n / d;
    let r = n % d;
    vstd::arithmetic::div_mod::lemma_fundamental_div_mod(n as int, d as int);
    assert((n * s) as int == (q * (d * s) + r * s) as int) by {
        vstd::arithmetic::mul::lemma_mul_is_distributive_add_other_way(
            s as int,
            (q * d) as int,
            r as int,
        );
        vstd::arithmetic::mul::lemma_mul_is_associative(q as int, d as int, s as int);
    }
    assert(r * s < d * s) by {
        vstd::arithmetic::mul::lemma_mul_strict_inequality(r as int, d as int, s as int);
    }
    vstd::arithmetic::mul::lemma_mul_nonnegative(q as int, (d * s) as int);
    lemma_fundamental_div_mod_converse(
        (n * s) as int,
        (d * s) as int,
        q as int,
        (r * s) as int,
    );
    assert((2 * (r * s) < d * s) == (2 * r < d)) by {
        vstd::arithmetic::mul::lemma_mul_is_associative(2, r as int, s as int);
        if 2 * r < d {
            vstd::arithmetic::mul::lemma_mul_strict_inequality((2 * r) as int, d as int, s as int);
        }
        if 2 * r > d {
            vstd::arithmetic::mul::lemma_mul_strict_inequality(d as int, (2 * r) as int, s as int);
        }
        if 2 * r == d {
        }
    }
    assert((2 * (r * s) > d * s) == (2 * r > d)) by {
        vstd::arithmetic::mul::lemma_mul_is_associative(2, r as int, s as int);
        if 2 * r > d {
            vstd::arithmetic::mul::lemma_mul_strict_inequality(d as int, (2 * r) as int, s as int);
        }
        if 2 * r < d {
            vstd::arithmetic::mul::lemma_mul_strict_inequality((2 * r) as int, d as int, s as int);
        }
    }
}

/// Scaling magnitude and scale together leaves the rounded pattern alone.
pub proof fn lemma_pack_shift(sign: u32, mag: nat, sc: int, t: nat)
    requires
        mag > 0,
    ensures
        pack(sign, mag * pow2(t), sc + t) == pack(sign, mag, sc),
{
    lemma_pow2_pos(t);
    lemma_bit_len_shift(mag, t);
    vstd::arithmetic::mul::lemma_mul_strictly_positive(mag as int, pow2(t) as int);
    let len = bit_len(mag) as int;
    let j = if len - 24 >= sc - 149 {
        len - 24
    } else {
        sc - 149
    };
    let j2 = j + t;
    assert(bit_len(mag * pow2(t)) == len + t);
    if j2 <= 0 {
        // Both sides shift up exactly.
        assert((mag * pow2(t)) * pow2((-j2) as nat) == mag * pow2((-j) as nat)) by {
            lemma_pow2_adds(t, (-j2) as nat);
            vstd::arithmetic::mul::lemma_mul_is_associative(
                mag as int,
                pow2(t) as int,
                pow2((-j2) as nat) as int,
            );
        }
    } else if j <= 0 {
        // The scaled side rounds an exact multiple.
        let m = mag * pow2((-j) as nat);
        assert(mag * pow2(t) == m * pow2(j2 as nat)) by {
            lemma_pow2_adds((-j) as nat, j2 as nat);
            vstd::arithmetic::mul::lemma_mul_is_associative(
                mag as int,
                pow2((-j) as nat) as int,
                pow2(j2 as nat) as int,
            );
        }
        lemma_pow2_pos(j2 as nat);
        lemma_rnd_div_exact(m, pow2(j2 as nat));
    } else {
        // Both sides round, at grids scaled together.
        lemma_pow2_pos(j as nat);
        lemma_pow2_adds(j as nat, t);
        lemma_rnd_div_shift(mag, pow2(j as nat), pow2(t));
        assert(rnd_div(mag * pow2(t), pow2(j2 as nat)) == rnd_div(mag, pow2(j as nat))) by {
            assert(pow2(j2 as nat) == pow2(j as nat) * pow2(t));
        }
    }
}

/// Packing the significand and scale a finite pattern already has gives that
/// pattern back.
pub proof fn lemma_pack_identity(b: u32)
    requires
        is_finite(b),
        sign_of(b) <= 1,
    ensures
        pack(sign_of(b), mant_of(b) * pow2(kexp_of(b)), 149) == b,
{
    lemma2_to64();
    let s = sign_of(b);
    let ma = mant_of(b);
    let ka = kexp_of(b);
    assert(s * 0x8000_0000 + mag_of(b) == b);
    if ma == 0 {
        assert(mant_of(b) * pow2(kexp_of(b)) == 0) by {
            vstd::arithmetic::mul::lemma_mul_by_zero_is_zero(pow2(kexp_of(b)) as int);
        }
        assert(mag_of(b) == 0);
    } else {
        lemma_pack_shift(s, ma, 149 - ka, ka);
        assert(pack(s, ma * pow2(ka), 149) == pack(s, ma, 149 - ka));
        let len = bit_len(ma) as int;
        if exp_of(b) == 0 {
            // Denormal: fewer than 24 digits at the fixed grid.
            assert(ma < 0x80_0000);
            lemma_bit_len_le(ma, 23);
            assert(ka == 0);
            assert(pack(s, ma, 149) == assemble(s, ma * pow2(0), 150 - (149 - 0)));
            assert(ma * pow2(0) == ma);
        } else {
            // Normal: exactly 24 digits, biased exponent restored.
            assert(0x80_0000 <= ma < 0x100_0000);
            lemma_bit_len_from_bounds(ma, 24);
            assert(len == 24);
            let j = if len - 24 >= (149 - ka) - 149 {
                len - 24
            } else {
                (149 - ka) - 149
            };
            assert(j == 0);
            assert(ma * pow2(0) == ma);
            assert(pack(s, ma, 149 - ka) == assemble(s, ma, 1 + ka as int));
            assert(1 + ka == exp_of(b));
            assert(exp_of(b) < 255);
            assert(mag_of(b) == exp_of(b) * 0x80_0000 + frac_of(b));
        }
    }
}

/// When one addend is at least 2^26 grid steps below the other, the rounded
/// sum (or difference) is the larger operand unchanged.
proof fn lemma_pack_dominant(db: u32, ms: nat, k: nat, adding: bool)
    requires
        is_finite(db),
        exp_of(db) >= 1,
        kexp_of(db) >= k,
        k >= 26,
        1 <= ms < 0x100_0000,
    ensures
        adding ==> pack(sign_of(db), mant_of(db) * pow2(k) + ms, 149 - kexp_of(db) + k) == db,
        !adding ==> pack(
            sign_of(db),
            (mant_of(db) * pow2(k) - ms) as nat,
            149 - kexp_of(db) + k,
        ) == db,
{
    lemma2_to64();
    let s = sign_of(db);
    let ma = mant_of(db);
    let ka = kexp_of(db);
    let sc = 149 - ka + k;
    assert(0x80_0000 <= ma < 0x100_0000);
    lemma_pow2_pos(k as nat);
    lemma_pow2_adds(k, 23);
    lemma_pow2_adds(k, 24);
    lemma_pow2_adds((k - 1) as nat, 1);
    lemma_pow2_adds((k - 1) as nat, 24);
    lemma_pow2_adds((k - 2) as nat, 2);
    assert(pow2(26) <= pow2(k)) by {
        if 26 < k {
            lemma_pow2_strictly_increases(26, k);
        }
    }
    assert(pow2(24) <= pow2((k - 2) as nat)) by {
        if 24 < k - 2 {
            lemma_pow2_strictly_increases(24, (k - 2) as nat);
        }
    }
    // Shared bounds on ma * 2^k.
    assert(pow2(23) * pow2(k) <= ma * pow2(k)) by {
        vstd::arithmetic::mul::lemma_mul_inequality(pow2(23) as int, ma as int, pow2(k) as int);
    }
    assert(ma * pow2(k) <= (0x100_0000 - 1) * pow2(k)) by {
        vstd::arithmetic::mul::lemma_mul_inequality(
            ma as int,
            0x100_0000 - 1,
            pow2(k) as int,
        );
    }
    assert((0x100_0000 - 1) * pow2(k) == pow2(24) * pow2(k) - pow2(k)) by {
        vstd::arithmetic::mul::lemma_mul_is_distributive_sub_other_way(
            pow2(k) as int,
            0x100_0000,
            1,
        );
    }
    if adding {
        let v = (ma * pow2(k) + ms) as nat;
        assert(pow2((k + 23) as nat) <= v < pow2(k + 24));
        lemma_bit_len_from_bounds(v, k + 24);
        // Grid sits at j == k; quotient ma, remainder ms, which is below
        // half a step.
        lemma_fundamental_div_mod_converse(v as int, pow2(k) as int, ma as int, ms as int);
        assert(rnd_div(v, pow2(k)) == ma);
        assert(pack(s, v, sc) == assemble(s, ma, 150 - (sc - k)));
        assert(150 - (sc - k) == 1 + ka);
    } else {
        if ma > 0x80_0000 {
            let v = (ma * pow2(k) - ms) as nat;
            assert((ma - 1) * pow2(k) == ma * pow2(k) - pow2(k)) by {
                vstd::arithmetic::mul::lemma_mul_is_distributive_sub_other_way(
                    pow2(k) as int,
                    ma as int,
                    1,
                );
            }
            assert(pow2(23) * pow2(k) + pow2(k) <= ma * pow2(k)) by {
                vstd::arithmetic::mul::lemma_mul_inequality(
                    (0x80_0000 + 1) as int,
                    ma as int,
                    pow2(k) as int,
                );
                vstd::arithmetic::mul::lemma_mul_is_distributive_add_other_way(
                    pow2(k) as int,
                    0x80_0000,
                    1,
                );
            }
            assert(pow2((k + 23) as nat) <= v < pow2(k + 24));
            lemma_bit_len_from_bounds(v, k + 24);
            lemma_fundamental_div_mod_converse(
                v as int,
                pow2(k) as int,
                (ma - 1) as int,
                (pow2(k) - ms) as int,
            );
            assert(rnd_div(v, pow2(k)) == ma);
            assert(pack(s, v, sc) == assemble(s, ma, 150 - (sc - k)));
            assert(150 - (sc - k) == 1 + ka);
        } else {
            // The borrow crosses into the next binade down: one fewer digit,
            // grid one step finer, and the rounding carries straight back up.
            let v = (ma * pow2(k) - ms) as nat;
            assert(ma * pow2(k) == pow2(k + 23)) by {
                vstd::arithmetic::mul::lemma_mul_is_commutative(ma as int, pow2(k) as int);
            }
            assert(ms < pow2((k + 22) as nat)) by {
                lemma_pow2_strictly_increases(24, (k + 22) as nat);
            }
            assert(pow2((k + 22) as nat) + pow2((k + 22) as nat) == pow2((k + 23) as nat)) by {
                lemma_pow2_adds((k + 22) as nat, 1);
            }
            assert(pow2((k + 22) as nat) <= v < pow2(k + 23));
            lemma_bit_len_from_bounds(v, k + 23);
            assert(v == (0x100_0000 - 1) * pow2((k - 1) as nat) + (pow2((k - 1) as nat) - ms)) by {
                vstd::arithmetic::mul::lemma_mul_is_distributive_sub_other_way(
                    pow2((k - 1) as nat) as int,
                    0x100_0000,
                    1,
                );
                assert(0x100_0000 * pow2((k - 1) as nat) == pow2(k + 23)) by {
                    lemma_pow2_adds(24, (k - 1) as nat);
                }
            }
            assert(ms < pow2((k - 1) as nat)) by {
                assert(pow2(24) <= pow2((k - 1) as nat)) by {
                    if 24 < k - 1 {
                        lemma_pow2_strictly_increases(24, (k - 1) as nat);
                    }
                }
            }
            lemma_fundamental_div_mod_converse(
                v as int,
                pow2((k - 1) as nat) as int,
                0x100_0000 - 1,
                (pow2((k - 1) as nat) - ms) as int,
            );
            assert(2 * (pow2((k - 1) as nat) - ms) > pow2((k - 1) as nat)) by {
                assert(2 * ms < pow2((k - 1) as nat));
            }
            assert(rnd_div(v, pow2((k - 1) as nat)) == 0x100_0000);
            assert(pack(s, v, sc) == assemble(s, 0x100_0000, 150 - (sc - (k - 1))));
            assert(150 - (sc - (k - 1)) + 1 == 1 + ka);
            assert(frac_of(db) == 0);
        }
    }
    assert(s * 0x8000_0000 + mag_of(db) == db);
    assert(mag_of(db) == exp_of(db) * 0x80_0000 + frac_of(db));
    assert(exp_of(db) < 255);
    assert(exp_of(db) == 1 + ka);
}

/// What a rounded pattern can be: never a NaN, the requested sign, finite
/// whenever the magnitude has digits to spare against overflow, and a value
/// bounded by the binade above the input.
pub proof fn lemma_pack_props(sign: u32, mag: nat, sc: int)
    requires
        sign <= 1,
    ensures
        !is_nan(pack(sign, mag, sc)),
        sign_of(pack(sign, mag, sc)) == sign,
        mag == 0 ==> mag_of(pack(sign, mag, sc)) == 0,
        mag > 0 && bit_len(mag) as int - sc <= 127 ==> is_finite(pack(sign, mag, sc)),
        mag > 0 && is_finite(pack(sign, mag, sc)) && bit_len(mag) as int + 149 - sc >= 0
            ==> mag_val(mag_of(pack(sign, mag, sc))) <= pow2(
            (bit_len(mag) as int + 149 - sc) as nat,
        ),
        mag > 0 && bit_len(mag) as int + 149 - sc < 0 ==> mag_val(mag_of(pack(sign, mag, sc)))
            <= 1,
        mag > 0 && bit_len(mag) as int - 24 >= sc - 149 ==> crate::float_bits::is_flushed(
            pack(sign, mag, sc),
        ),
{
    lemma2_to64();
    let r = pack(sign, mag, sc);
    if mag == 0 {
        lemma_fundamental_div_mod_converse(
            (sign * 0x8000_0000) as int,
            0x8000_0000,
            sign as int,
            0,
        );
    } else {
        let len = bit_len(mag) as int;
        lemma_bit_len_bounds(mag);
        let j = if len - 24 >= sc - 149 {
            len - 24
        } else {
            sc - 149
        };
        let m: nat = if j <= 0 {
            mag * pow2((-j) as nat)
        } else {
            rnd_div(mag, pow2(j as nat))
        };
        let eb = 150 - (sc - j);
        // m <= 2^(len - j), and in the shift case exactly mag * 2^(-j).
        assert(m <= pow2((len - j) as nat)) by {
            if j <= 0 {
                lemma_pow2_adds(len as nat, (-j) as nat);
                vstd::arithmetic::mul::lemma_mul_strict_inequality(
                    mag as int,
                    pow2(len as nat) as int,
                    pow2((-j) as nat) as int,
                );
            } else {
                lemma_pow2_pos(j as nat);
                if j <= len {
                    assert(mag / pow2(j as nat) < pow2((len - j) as nat)) by {
                        lemma_pow2_adds(j as nat, (len - j) as nat);
                        vstd::arithmetic::div_mod::lemma_multiply_divide_lt(
                            mag as int,
                            pow2(j as nat) as int,
                            pow2((len - j) as nat) as int,
                        );
                    }
                } else {
                    assert(mag / pow2(j as nat) == 0) by {
                        lemma_pow2_strictly_increases(len as nat, j as nat);
                        vstd::arithmetic::div_mod::lemma_basic_div(
                            mag as int,
                            pow2(j as nat) as int,
                        );
                    }
                    lemma_pow2_pos((len - j) as nat);
                }
            }
        }
        // At the fine grid the significand fills its 24 digits.
        assert(j == len - 24 ==> m >= 0x80_0000) by {
            if j == len - 24 {
                if j <= 0 {
                    lemma_pow2_adds((len - 1) as nat, (-j) as nat);
                    vstd::arithmetic::mul::lemma_mul_inequality(
                        pow2((len - 1) as nat) as int,
                        mag as int,
                        pow2((-j) as nat) as int,
                    );
                } else {
                    lemma_pow2_pos(j as nat);
                    lemma_pow2_adds(j as nat, 23);
                    lemma_div_lower(mag, pow2(j as nat), pow2(23));
                }
            }
        }
        // Far below the denormal grid everything rounds away.
        if len + 149 - sc < 0 {
            assert(j == sc - 149 && j > len);
            assert(m == 0) by {
                let d = pow2(j as nat);
                lemma_pow2_pos(j as nat);
                lemma_pow2_adds(len as nat, 1);
                assert(2 * mag < d) by {
                    if len + 1 < j {
                        lemma_pow2_strictly_increases((len + 1) as nat, j as nat);
                    }
                }
                vstd::arithmetic::div_mod::lemma_basic_div(mag as int, d as int);
                vstd::arithmetic::div_mod::lemma_small_mod(mag, d);
            }
        }
        // Every assembled pattern decomposes by the constant fields.
        if m == 0 {
            lemma_fundamental_div_mod_converse(
                (sign * 0x8000_0000) as int,
                0x8000_0000,
                sign as int,
                0,
            );
        } else if m < 0x80_0000 {
            lemma_fundamental_div_mod_converse(
                (sign * 0x8000_0000 + m) as int,
                0x8000_0000,
                sign as int,
                m as int,
            );
            assert(mag_val(mag_of(r)) == m);
            if len - 24 >= sc - 149 {
                assert(j == len - 24);
                assert(false);
            }
            if len + 149 - sc >= 0 {
                assert(m <= pow2((len + 149 - sc) as nat)) by {
                    if j > sc - 149 {
                        assert(m >= pow2(23)) by {
                            assert(j == len - 24);
                            if j <= 0 {
                                lemma_pow2_adds((len - 1) as nat, (-j) as nat);
                                vstd::arithmetic::mul::lemma_mul_inequality(
                                    pow2((len - 1) as nat) as int,
                                    mag as int,
                                    pow2((-j) as nat) as int,
                                );
                            } else {
                                lemma_pow2_pos(j as nat);
                                lemma_pow2_adds(j as nat, 23);
                                lemma_div_lower(mag, pow2(j as nat), pow2(23));
                            }
                        }
                        assert(false);
                    }
                    assert((len - j) as nat <= (len + 149 - sc) as nat);
                    if len - j < len + 149 - sc {
                        lemma_pow2_strictly_increases((len - j) as nat, (len + 149 - sc) as nat);
                    }
                }
            }
        } else if m < 0x100_0000 {
            if eb < 255 {
                let bits = (sign * 0x8000_0000 + eb * 0x80_0000 + (m - 0x80_0000)) as int;
                lemma_fundamental_div_mod_converse(
                    bits,
                    0x8000_0000,
                    sign as int,
                    eb * 0x80_0000 + (m - 0x80_0000),
                );
                lemma_fundamental_div_mod_converse(
                    eb * 0x80_0000 + (m - 0x80_0000),
                    0x80_0000,
                    eb,
                    (m - 0x80_0000) as int,
                );
                assert(mag_val(mag_of(r)) == m * pow2((eb - 1) as nat));
                if len + 149 - sc >= 0 {
                    assert(m * pow2((eb - 1) as nat) <= pow2((len + 149 - sc) as nat)) by {
                        lemma_pow2_pos((eb - 1) as nat);
                        vstd::arithmetic::mul::lemma_mul_inequality(
                            m as int,
                            pow2((len - j) as nat) as int,
                            pow2((eb - 1) as nat) as int,
                        );
                        lemma_pow2_adds((len - j) as nat, (eb - 1) as nat);
                    }
                }
            } else {
                lemma_fundamental_div_mod_converse(
                    (sign * 0x8000_0000 + INF_BITS) as int,
                    0x8000_0000,
                    sign as int,
                    INF_BITS as int,
                );
            }
        } else {
            if eb + 1 < 255 {
                let bits = (sign * 0x8000_0000 + (eb + 1) * 0x80_0000) as int;
                lemma_fundamental_div_mod_converse(
                    bits,
                    0x8000_0000,
                    sign as int,
                    (eb + 1) * 0x80_0000,
                );
                lemma_fundamental_div_mod_converse(
                    (eb + 1) * 0x80_0000,
                    0x80_0000,
                    eb + 1,
                    0,
                );
                assert(mag_val(mag_of(r)) == 0x80_0000 * pow2(eb as nat));
                if len + 149 - sc >= 0 {
                    assert(0x80_0000 * pow2(eb as nat) <= pow2((len + 149 - sc) as nat)) by {
                        assert(m == pow2((len - j) as nat)) by {
                            lemma_pow2_adds((len - j - 1) as nat, 1);
                            if len - j < 24 {
                                lemma_pow2_strictly_increases((len - j) as nat, 24);
                            }
                        }
                        lemma_pow2_adds(23, eb as nat);
                        lemma_pow2_adds(24, (eb - 1) as nat);
                    }
                }
            } else {
                lemma_fundamental_div_mod_converse(
                    (sign * 0x8000_0000 + INF_BITS) as int,
                    0x8000_0000,
                    sign as int,
                    INF_BITS as int,
                );
            }
        }
        // Finiteness from digit headroom.
        if len - sc <= 127 {
            assert(eb <= 253);
        }
    }
}

/// Split a pattern into sign, explicit significand and binary scale.
fn unpack(b: u32) -> (t: (u32, u32, u32))
    ensures
        t.0 == sign_of(b),
        t.1 as nat == mant_of(b),
        t.2 as nat == kexp_of(b),
        t.0 <= 1,
        t.1 < 0x100_0000,
        t.2 <= 254,
{
    let mag: u32 = b % 0x8000_0000;
    let e: u32 = mag / 0x80_0000;
    let f: u32 = mag % 0x80_0000;
    if e == 0 {
        (b / 0x8000_0000, f, 0)
    } else {
        (b / 0x8000_0000, 0x80_0000 + f, e - 1)
    }
}

/// What negation returns: the sign bit alone turns over.
pub open spec fn neg_spec(b: u32) -> u32 {
    if b >= 0x8000_0000 {
        (b - 0x8000_0000) as u32
    } else {
        (b + 0x8000_0000) as u32
    }
}

/// Negation turns the sign bit over and nothing else.
pub proof fn lemma_neg_props(b: u32)
    ensures
        mag_of(neg_spec(b)) == mag_of(b),
        sign_of(neg_spec(b)) == 1 - sign_of(b),
        is_finite(neg_spec(b)) == is_finite(b),
        is_nan(neg_spec(b)) == is_nan(b),
        val149(neg_spec(b)) == -val149(b),
{
    assert(b == sign_of(b) * 0x8000_0000 + mag_of(b));
}

/// Negate a single-precision value (exact; no rounding).
pub fn f32_neg(b: u32) -> (r: u32)
    ensures
        r == neg_spec(b),
        mag_of(r) == mag_of(b),
        sign_of(r) == 1 - sign_of(b),
        val149(r) == -val149(b),
        is_nan(r) == is_nan(b),
        is_finite(r) == is_finite(b),
{
    if b >= 0x8000_0000 {
        b - 0x8000_0000
    } else {
        b + 0x8000_0000
    }
}

/// What addition returns: the exact integer sum of the scaled values,
/// rounded once onto the grid; an exact zero takes the negative sign only
/// when both operands are negative.
pub open spec fn f32_add_spec(a: u32, b: u32) -> u32 {
    let s = val149(a) + val149(b);
    if s == 0 {
        if sign_of(a) == 1 && sign_of(b) == 1 {
            NEG_ZERO_BITS
        } else {
            0u32
        }
    } else if s > 0 {
        pack(0, s as nat, 149)
    } else {
        pack(1, (-s) as nat, 149)
    }
}

/// What subtraction returns: addition of the negated second operand, which
/// is exactly the hardware's subtraction.
pub open spec fn f32_sub_spec(a: u32, b: u32) -> u32 {
    f32_add_spec(a, neg_spec(b))
}

/// What multiplication returns: the exact product of the scaled values,
/// rounded once onto the grid; a zero product takes the product sign.
pub open spec fn f32_mul_spec(a: u32, b: u32) -> u32 {
    let sign: u32 = if sign_of(a) == sign_of(b) {
        0
    } else {
        1
    };
    let p = val149(a) * val149(b);
    if p == 0 {
        (sign * 0x8000_0000) as u32
    } else if p > 0 {
        pack(sign, p as nat, 298)
    } else {
        pack(sign, (-p) as nat, 298)
    }
}

/// Add two finite single-precision values, rounding to nearest, ties to
/// even.
#[verifier::rlimit(60)]
pub fn f32_add(a: u32, b: u32) -> (r: u32)
    requires
        is_finite(a),
        is_finite(b),
    ensures
        r == f32_add_spec(a, b),
{
    let (sa, ma, ka) = unpack(a);
    let (sb, mb, kb) = unpack(b);
    proof {
        crate::float_bits::lemma_val_decompose(a);
        crate::float_bits::lemma_val_decompose(b);
        lemma_pow2_pos(ka as nat);
        lemma_pow2_pos(kb as nat);
    }
    // Order the operands so that the first has the not-smaller magnitude.
    let (dbits, sd, md, kd, ss, ms, ks) = if ka > kb || (ka == kb && ma >= mb) {
        (a, sa, ma, ka, sb, mb, kb)
    } else {
        (b, sb, mb, kb, sa, ma, ka)
    };
    let ghost vd: nat = (md as nat) * pow2(kd as nat);
    let ghost vs: nat = (ms as nat) * pow2(ks as nat);
    proof {
        if kd > ks {
            // The dominant operand is normal, so its magnitude tops the
            // other's whole binade.
            assert(md >= 0x80_0000);
        }
        vstd::arithmetic::mul::lemma_mul_nonnegative(md as int, pow2(kd as nat) as int);
        vstd::arithmetic::mul::lemma_mul_nonnegative(ms as int, pow2(ks as nat) as int);
    }
    if md == 0 {
        // Both operands are zeros.
        proof {
            assert(ms == 0);
            assert(vs == 0) by {
                vstd::arithmetic::mul::lemma_mul_by_zero_is_zero(pow2(ks as nat) as int);
            }
            assert(vd == 0) by {
                vstd::arithmetic::mul::lemma_mul_by_zero_is_zero(pow2(kd as nat) as int);
            }
        }
        if sa == 1 && sb == 1 {
            return NEG_ZERO_BITS;
        } else {
            return 0;
        }
    }
    let k: u32 = kd - ks;
    proof {
        lemma_pow2_adds(k as nat, ks as nat);
        vstd::arithmetic::mul::lemma_mul_is_associative(
            md as int,
            pow2(k as nat) as int,
            pow2(ks as nat) as int,
        );
        assert(vd == ((md as nat) * pow2(k as nat)) * pow2(ks as nat));
    }
    if ms == 0 {
        // Adding a zero returns the other operand exactly.
        proof {
            assert(vs == 0) by {
                vstd::arithmetic::mul::lemma_mul_by_zero_is_zero(pow2(ks as nat) as int);
            }
            lemma_pack_identity(dbits);
            if sd == 0 {
                assert(val149(a) + val149(b) == vd);
            } else {
                assert(val149(a) + val149(b) == -(vd as int));
            }
            assert(vd > 0) by {
                vstd::arithmetic::mul::lemma_mul_strictly_positive(
                    md as int,
                    pow2(kd as nat) as int,
                );
            }
        }
        return dbits;
    }
    if k > 100 {
        // The smaller operand is far below one grid step of the larger:
        // the rounded result is the larger operand unchanged.
        proof {
            assert(ms >= 1 && md >= 0x80_0000);
            assert(exp_of(dbits) >= 1 && kexp_of(dbits) == kd && mant_of(dbits) == md);
            lemma_pack_dominant(dbits, ms as nat, k as nat, sd == ss);
            lemma_pow2_pos(k as nat);
            assert(ms < (md as nat) * pow2(k as nat)) by {
                lemma_pow2_strictly_increases(24, k as nat);
                lemma2_to64();
                vstd::arithmetic::mul::lemma_mul_inequality(
                    1,
                    md as int,
                    pow2(k as nat) as int,
                );
            }
            if sd == ss {
                let v: nat = ((md as nat) * pow2(k as nat) + ms) as nat;
                assert(pack(sd, v, 149 - kd + k) == dbits);
                lemma_pack_shift(sd, v, (149 - kd + k) as int, ks as nat);
                assert((149 - kd + k) + ks == 149);
                assert(v * pow2(ks as nat) == vd + vs) by {
                    vstd::arithmetic::mul::lemma_mul_is_distributive_add_other_way(
                        pow2(ks as nat) as int,
                        ((md as nat) * pow2(k as nat)) as int,
                        ms as int,
                    );
                }
                assert(pack(sd, (vd + vs) as nat, 149) == dbits);
                if sd == 0 {
                    assert(val149(a) + val149(b) == vd + vs);
                } else {
                    assert(val149(a) + val149(b) == -((vd + vs) as int));
                }
            } else {
                let v: nat = ((md as nat) * pow2(k as nat) - ms) as nat;
                assert(pack(sd, v, 149 - kd + k) == dbits);
                lemma_pack_shift(sd, v, (149 - kd + k) as int, ks as nat);
                assert(v * pow2(ks as nat) == vd - vs) by {
                    vstd::arithmetic::mul::lemma_mul_is_distributive_sub_other_way(
                        pow2(ks as nat) as int,
                        ((md as nat) * pow2(k as nat)) as int,
                        ms as int,
                    );
                }
                assert(pack(sd, (vd - vs) as nat, 149) == dbits);
                assert(vd > vs);
                if sd == 0 {
                    assert(val149(a) + val149(b) == vd - vs);
                } else {
                    assert(val149(a) + val149(b) == -((vd - vs) as int));
                }
            }
        }
        return dbits;
    }
    // Exact path: the aligned sum fits a 128-bit word.
    let pk: u128 = pow2_u128(k);
    proof {
        assert((md as nat) * pow2(k as nat) < pow2(124)) by {
            lemma_pow2_adds(24, k as nat);
            vstd::arithmetic::mul::lemma_mul_strict_inequality(
                md as int,
                0x100_0000,
                pow2(k as nat) as int,
            );
            lemma2_to64();
            if 24 + k < 124 {
                lemma_pow2_strictly_increases((24 + k) as nat, 124);
            }
        }
        lemma_pow2_adds(64, 60);
        lemma2_to64();
        lemma2_to64_rest();
    }
    let vbig: u128 = (md as u128) * pk;
    let (sign, v): (u32, u128) = if sd == ss {
        (sd, vbig + (ms as u128))
    } else {
        proof {
            if k == 0 {
                assert(md >= ms);
                assert(vbig >= ms as u128) by {
                    lemma2_to64();
                    vstd::arithmetic::mul::lemma_mul_basics_2(md as int);
                    vstd::arithmetic::mul::lemma_mul_inequality(
                        ms as int,
                        md as int,
                        pow2(0) as int,
                    );
                }
            } else {
                assert(md >= 0x80_0000);
                assert(vbig >= (0x80_0000 as nat) * pow2(k as nat)) by {
                    vstd::arithmetic::mul::lemma_mul_inequality(
                        0x80_0000,
                        md as int,
                        pow2(k as nat) as int,
                    );
                }
                assert((0x80_0000 as nat) * pow2(k as nat) >= 0x100_0000) by {
                    lemma2_to64();
                    if k > 1 {
                        lemma_pow2_strictly_increases(1, k as nat);
                    }
                    vstd::arithmetic::mul::lemma_mul_inequality(
                        2,
                        pow2(k as nat) as int,
                        0x80_0000,
                    );
                }
            }
        }
        (sd, vbig - (ms as u128))
    };
    if v == 0 {
        // Exact cancellation of nonzero operands: the rounded sum is
        // positive zero.
        proof {
            assert(sd != ss);
            assert(vd == vs);
            if sd == 0 {
                assert(val149(a) + val149(b) == vd - vs);
            } else {
                assert(val149(a) + val149(b) == vs - vd);
            }
            assert(!(sign_of(a) == 1 && sign_of(b) == 1));
        }
        return 0;
    }
    let r = pack_f32(sign, v, 149 - (ks as i32));
    proof {
        lemma_pack_shift(sign, v as nat, (149 - ks) as int, ks as nat);
        assert((149 - ks) + ks == 149);
        if sd == ss {
            assert((v as nat) * pow2(ks as nat) == vd + vs) by {
                vstd::arithmetic::mul::lemma_mul_is_distributive_add_other_way(
                    pow2(ks as nat) as int,
                    ((md as nat) * pow2(k as nat)) as int,
                    ms as int,
                );
            }
            if sd == 0 {
                assert(val149(a) + val149(b) == vd + vs);
            } else {
                assert(val149(a) + val149(b) == -((vd + vs) as int));
            }
        } else {
            assert((v as nat) * pow2(ks as nat) == vd - vs) by {
                vstd::arithmetic::mul::lemma_mul_is_distributive_sub_other_way(
                    pow2(ks as nat) as int,
                    ((md as nat) * pow2(k as nat)) as int,
                    ms as int,
                );
            }
            assert(vd > vs) by {
                vstd::arithmetic::mul::lemma_mul_strictly_positive(
                    v as int,
                    pow2(ks as nat) as int,
                );
            }
            if sd == 0 {
                assert(val149(a) + val149(b) == vd - vs);
            } else {
                assert(val149(a) + val149(b) == -((vd - vs) as int));
            }
        }
    }
    r
}

/// Subtract two finite single-precision values: exactly the addition of the
/// negated subtrahend.
pub fn f32_sub(a: u32, b: u32) -> (r: u32)
    requires
        is_finite(a),
        is_finite(b),
    ensures
        r == f32_sub_spec(a, b),
{
    let nb = f32_neg(b);
    f32_add(a, nb)
}

/// Multiply two finite single-precision values, rounding to nearest, ties
/// to even.
pub fn f32_mul(a: u32, b: u32) -> (r: u32)
    requires
        is_finite(a),
        is_finite(b),
    ensures
        r == f32_mul_spec(a, b),
{
    let (sa, ma, ka) = unpack(a);
    let (sb, mb, kb) = unpack(b);
    let sign: u32 = if sa == sb {
        0
    } else {
        1
    };
    proof {
        crate::float_bits::lemma_val_decompose(a);
        crate::float_bits::lemma_val_decompose(b);
    }
    if ma == 0 || mb == 0 {
        proof {
            if ma == 0 {
                vstd::arithmetic::mul::lemma_mul_by_zero_is_zero(pow2(ka as nat) as int);
            } else {
                vstd::arithmetic::mul::lemma_mul_by_zero_is_zero(pow2(kb as nat) as int);
            }
            vstd::arithmetic::mul::lemma_mul_by_zero_is_zero(val149(a));
            vstd::arithmetic::mul::lemma_mul_by_zero_is_zero(val149(b));
        }
        return sign * 0x8000_0000;
    }
    proof {
        vstd::arithmetic::mul::lemma_mul_strict_upper_bound(ma as int, 0x100_0000, mb as int, 0x100_0000);
        vstd::arithmetic::mul::lemma_mul_strictly_positive(ma as int, mb as int);
    }
    let v: u128 = (ma as u128) * (mb as u128);
    let sc: i32 = 298 - (ka as i32) - (kb as i32);
    proof {
        lemma_pow2_adds(64, 60);
        lemma2_to64();
        lemma2_to64_rest();
        let va = (ma as nat) * pow2(ka as nat);
        let vb = (mb as nat) * pow2(kb as nat);
        // |val(a) * val(b)| == (ma * mb) * 2^(ka + kb).
        assert(va * vb == ((ma as nat) * (mb as nat)) * pow2((ka + kb) as nat)) by {
            lemma_pow2_adds(ka as nat, kb as nat);
            vstd::arithmetic::mul::lemma_mul_is_associative(
                (ma as int) * pow2(ka as nat),
                mb as int,
                pow2(kb as nat) as int,
            );
            vstd::arithmetic::mul::lemma_mul_is_associative(
                ma as int,
                pow2(ka as nat) as int,
                mb as int,
            );
            vstd::arithmetic::mul::lemma_mul_is_commutative(pow2(ka as nat) as int, mb as int);
            vstd::arithmetic::mul::lemma_mul_is_associative(
                ma as int,
                mb as int,
                pow2(ka as nat) as int,
            );
            vstd::arithmetic::mul::lemma_mul_is_associative(
                (ma as int) * (mb as int),
                pow2(ka as nat) as int,
                pow2(kb as nat) as int,
            );
        }
        assert(va * vb > 0) by {
            lemma_pow2_pos(ka as nat);
            lemma_pow2_pos(kb as nat);
            vstd::arithmetic::mul::lemma_mul_strictly_positive(ma as int, pow2(ka as nat) as int);
            vstd::arithmetic::mul::lemma_mul_strictly_positive(mb as int, pow2(kb as nat) as int);
            vstd::arithmetic::mul::lemma_mul_strictly_positive(va as int, vb as int);
        }
        lemma_pack_shift(sign, (v as nat), (298 - ka - kb) as int, (ka + kb) as nat);
        // Sign algebra of the product.
        let p = val149(a) * val149(b);
        if sa == 0 && sb == 0 {
            assert(p == va * vb);
        } else if sa == 1 && sb == 1 {
            assert(p == (-(va as int)) * (-(vb as int)));
            assert((-(va as int)) * (-(vb as int)) == va * vb) by {
                vstd::arithmetic::mul::lemma_mul_unary_negation(va as int, -(vb as int));
                vstd::arithmetic::mul::lemma_mul_unary_negation(va as int, vb as int);
            }
        } else if sa == 0 && sb == 1 {
            assert(p == (va as int) * (-(vb as int)));
            assert((va as int) * (-(vb as int)) == -(va * vb)) by {
                vstd::arithmetic::mul::lemma_mul_unary_negation(va as int, vb as int);
            }
        } else {
            assert(p == (-(va as int)) * (vb as int));
            assert((-(va as int)) * (vb as int) == -(va * vb)) by {
                vstd::arithmetic::mul::lemma_mul_unary_negation(va as int, vb as int);
            }
        }
        // The significand product stays far below the 2^125 cap.
        assert((ma as nat) * (mb as nat) < pow2(48)) by {
            lemma_pow2_adds(24, 24);
            vstd::arithmetic::mul::lemma_mul_strict_upper_bound(
                ma as int,
                0x100_0000,
                mb as int,
                0x100_0000,
            );
        }
        if 48 < 125 {
            lemma_pow2_strictly_increases(48, 125);
        }
    }
    pack_f32(sign, v, sc)
}

/// What integer conversion returns: the integer, rounded onto the grid (all
/// integers of magnitude up to 2^24 are exact).
pub open spec fn f32_of_int_spec(v: int) -> u32 {
    if v >= 0 {
        pack(0, v as nat, 0)
    } else {
        pack(1, (-v) as nat, 0)
    }
}

/// The sum of finite values never rounds to a NaN.
pub proof fn lemma_add_spec_not_nan(a: u32, b: u32)
    requires
        is_finite(a),
        is_finite(b),
    ensures
        !is_nan(f32_add_spec(a, b)),
{
    let s = val149(a) + val149(b);
    if s > 0 {
        lemma_pack_props(0, s as nat, 149);
    } else if s < 0 {
        lemma_pack_props(1, (-s) as nat, 149);
    }
}

/// A converted 64-bit integer is always finite.
pub proof fn lemma_of_int_finite(v: int)
    requires
        -0x1_0000_0000_0000_0000 < v < 0x1_0000_0000_0000_0000,
    ensures
        is_finite(f32_of_int_spec(v)),
{
    lemma_pow2_adds(64, 64);
    lemma2_to64();
    let mag: nat = if v >= 0 {
        v as nat
    } else {
        (-v) as nat
    };
    let sign: u32 = if v >= 0 {
        0
    } else {
        1
    };
    lemma_pack_props(sign, mag, 0);
    if mag > 0 {
        lemma_bit_len_le(mag, 64);
    }
}

/// A magnitude bound propagates through addition: the rounded sum of two
/// values below the binade `L` stays below binade `L + 2`, finite and
/// well-defined.
pub proof fn lemma_add_spec_bound(a: u32, b: u32, lb: nat)
    requires
        is_finite(a),
        is_finite(b),
        mag_val(mag_of(a)) < pow2(lb),
        mag_val(mag_of(b)) < pow2(lb),
        24 <= lb <= 274,
    ensures
        is_finite(f32_add_spec(a, b)),
        !is_nan(f32_add_spec(a, b)),
        mag_val(mag_of(f32_add_spec(a, b))) < pow2((lb + 2) as nat),
{
    let s = val149(a) + val149(b);
    lemma_pow2_adds(lb, 1);
    lemma_pow2_adds(lb + 1, 1);
    lemma2_to64();
    if s == 0 {
        lemma_pow2_pos((lb + 2) as nat);
    } else {
        let mag: nat = if s > 0 {
            s as nat
        } else {
            (-s) as nat
        };
        let sign: u32 = if s > 0 {
            0
        } else {
            1
        };
        assert(mag < pow2(lb + 1));
        lemma_bit_len_le(mag, lb + 1);
        lemma_pack_props(sign, mag, 149);
        let bl = bit_len(mag);
        assert(mag_val(mag_of(pack(sign, mag, 149))) <= pow2(bl));
        assert(pow2(bl) < pow2(lb + 2)) by {
            lemma_pow2_strictly_increases(bl, lb + 2);
        }
    }
}

/// Magnitude bounds propagate through multiplication: factors below the
/// binades `la` and `lb` give a finite product below binade
/// `la + lb - 148`.
pub proof fn lemma_mul_spec_bound(a: u32, b: u32, la: nat, lb: nat)
    requires
        is_finite(a),
        is_finite(b),
        mag_val(mag_of(a)) < pow2(la),
        mag_val(mag_of(b)) < pow2(lb),
        150 <= la + lb <= 420,
    ensures
        is_finite(f32_mul_spec(a, b)),
        !is_nan(f32_mul_spec(a, b)),
        mag_val(mag_of(f32_mul_spec(a, b))) < pow2((la + lb - 148) as nat),
{
    let sign: u32 = if sign_of(a) == sign_of(b) {
        0
    } else {
        1
    };
    let p = val149(a) * val149(b);
    let va = mag_val(mag_of(a));
    let vb = mag_val(mag_of(b));
    lemma_pow2_pos((la + lb - 148) as nat);
    assert(va * vb < pow2(la + lb)) by {
        lemma_pow2_pos(la);
        lemma_pow2_pos(lb);
        lemma_pow2_adds(la, lb);
        vstd::arithmetic::mul::lemma_mul_upper_bound(
            va as int,
            pow2(la) as int - 1,
            vb as int,
            pow2(lb) as int - 1,
        );
        assert((pow2(la) as int - 1) * (pow2(lb) as int - 1) == pow2(la) * pow2(lb) - pow2(la)
            - pow2(lb) + 1) by {
            vstd::arithmetic::mul::lemma_mul_is_distributive_sub_other_way(
                pow2(lb) as int - 1,
                pow2(la) as int,
                1,
            );
            vstd::arithmetic::mul::lemma_mul_is_distributive_sub(
                pow2(la) as int,
                pow2(lb) as int,
                1,
            );
        }
    }
    assert(p == va * vb || p == -(va * vb)) by {
        if sign_of(a) == 1 && sign_of(b) == 1 {
            vstd::arithmetic::mul::lemma_mul_unary_negation(va as int, -(vb as int));
            vstd::arithmetic::mul::lemma_mul_unary_negation(va as int, vb as int);
        } else if sign_of(a) == 0 && sign_of(b) == 1 {
            vstd::arithmetic::mul::lemma_mul_unary_negation(va as int, vb as int);
        } else if sign_of(a) == 1 && sign_of(b) == 0 {
            vstd::arithmetic::mul::lemma_mul_unary_negation(va as int, vb as int);
        }
    }
    if p != 0 {
        let mag: nat = if p > 0 {
            p as nat
        } else {
            (-p) as nat
        };
        assert(mag < pow2(la + lb));
        lemma_bit_len_le(mag, la + lb);
        lemma_pack_props(sign, mag, 298);
        let bl = bit_len(mag);
        if bl as int + 149 - 298 >= 0 {
            assert(mag_val(mag_of(pack(sign, mag, 298))) <= pow2((bl + 149 - 298) as nat));
            assert(pow2((bl + 149 - 298) as nat) < pow2((la + lb - 148) as nat)) by {
                lemma_pow2_strictly_increases((bl + 149 - 298) as nat, (la + lb - 148) as nat);
            }
        } else {
            assert(mag_val(mag_of(pack(sign, mag, 298))) <= 1);
            assert(1 < pow2((la + lb - 148) as nat)) by {
                vstd::arithmetic::power2::lemma_pow2_strictly_increases(0, (la + lb - 148) as nat);
                lemma2_to64();
            }
        }
    }
}

/// An integer conversion is finite, flushed (never denormal) and bounded by
/// the integer's own binade.
pub proof fn lemma_of_int_props(v: int, lv: nat)
    requires
        -pow2(lv) < v < pow2(lv),
        1 <= lv <= 64,
    ensures
        is_finite(f32_of_int_spec(v)),
        !is_nan(f32_of_int_spec(v)),
        crate::float_bits::is_flushed(f32_of_int_spec(v)),
        mag_val(mag_of(f32_of_int_spec(v))) < pow2((lv + 150) as nat),
{
    let mag: nat = if v >= 0 {
        v as nat
    } else {
        (-v) as nat
    };
    let sign: u32 = if v >= 0 {
        0
    } else {
        1
    };
    lemma_pack_props(sign, mag, 0);
    lemma_pow2_pos((lv + 150) as nat);
    if mag > 0 {
        lemma_bit_len_le(mag, lv);
        let bl = bit_len(mag);
        assert(bl >= 1) by {
            lemma_bit_len_bounds(mag);
        }
        assert(mag_val(mag_of(f32_of_int_spec(v))) <= pow2((bl + 149) as nat));
        assert(pow2((bl + 149) as nat) < pow2((lv + 150) as nat)) by {
            lemma_pow2_strictly_increases((bl + 149) as nat, (lv + 150) as nat);
        }
    }
}

/// Integers of at most 24 binary digits convert exactly.
pub proof fn lemma_of_int_exact(v: int)
    requires
        -0x100_0000 < v < 0x100_0000,
    ensures
        val149(f32_of_int_spec(v)) == v * pow2(149),
{
    lemma2_to64();
    let mag: nat = if v >= 0 {
        v as nat
    } else {
        (-v) as nat
    };
    let sign: u32 = if v >= 0 {
        0
    } else {
        1
    };
    lemma_pack_props(sign, mag, 0);
    if mag == 0 {
        assert(0 * pow2(149) == 0) by {
            vstd::arithmetic::mul::lemma_mul_by_zero_is_zero(pow2(149) as int);
        }
    } else {
        let r = pack(sign, mag, 0);
        let len = bit_len(mag) as int;
        lemma_bit_len_bounds(mag);
        lemma_bit_len_le(mag, 24);
        // Below 2^24 the conversion shifts up exactly: no digit is dropped.
        let j = len - 24;
        assert(j <= 0);
        let m = mag * pow2((-j) as nat);
        let eb = 150 - (0 - j);
        assert(m >= pow2(23)) by {
            lemma_pow2_adds((len - 1) as nat, (-j) as nat);
            vstd::arithmetic::mul::lemma_mul_inequality(
                pow2((len - 1) as nat) as int,
                mag as int,
                pow2((-j) as nat) as int,
            );
        }
        assert(m < pow2(24)) by {
            lemma_pow2_adds(len as nat, (-j) as nat);
            vstd::arithmetic::mul::lemma_mul_strict_inequality(
                mag as int,
                pow2(len as nat) as int,
                pow2((-j) as nat) as int,
            );
        }
        assert(r == assemble(sign, m, eb));
        lemma_fundamental_div_mod_converse(
            (sign * 0x8000_0000 + eb * 0x80_0000 + (m - 0x80_0000)) as int,
            0x8000_0000,
            sign as int,
            eb * 0x80_0000 + (m - 0x80_0000),
        );
        lemma_fundamental_div_mod_converse(
            eb * 0x80_0000 + (m - 0x80_0000),
            0x80_0000,
            eb,
            (m - 0x80_0000) as int,
        );
        assert(mag_val(mag_of(r)) == m * pow2((eb - 1) as nat));
        assert(m * pow2((eb - 1) as nat) == mag * pow2(149)) by {
            lemma_pow2_adds((-j) as nat, (eb - 1) as nat);
            vstd::arithmetic::mul::lemma_mul_is_associative(
                mag as int,
                pow2((-j) as nat) as int,
                pow2((eb - 1) as nat) as int,
            );
        }
        crate::float_bits::lemma_val_decompose(r);
        if sign == 1 {
            vstd::arithmetic::mul::lemma_mul_unary_negation(mag as int, pow2(149) as int);
        }
    }
}

/// The binade of the ratio `p / q`: the integer `t` with
/// `2^(t-1) <= p/q < 2^t`, read off the digit count of `(p * 2^64) / q`.
pub open spec fn rat_len(p: nat, q: nat) -> int {
    bit_len((p * pow2(64)) / q) as int - 64
}

/// What division returns: the ratio rounded once onto the grid, at the grid
/// step its binade calls for.  Stated for operands whose ratio is far from
/// both overflow and the denormal range.
pub open spec fn ratio_spec(sign: u32, p: nat, q: nat) -> u32 {
    if p == 0 {
        (sign * 0x8000_0000) as u32
    } else {
        let t = rat_len(p, q);
        let m = if t <= 24 {
            rnd_div(p * pow2((24 - t) as nat), q)
        } else {
            rnd_div(p, q * pow2((t - 24) as nat))
        };
        assemble(sign, m, t + 126)
    }
}

/// A multiple below a number bounds the quotient from below.
proof fn lemma_div_lower(a: nat, b: nat, c: nat)
    requires
        b > 0,
        b * c <= a,
    ensures
        a / b >= c,
{
    vstd::arithmetic::div_mod::lemma_div_multiples_vanish(c as int, b as int);
    vstd::arithmetic::div_mod::lemma_div_is_ordered((b * c) as int, a as int, b as int);
}

/// The binade bounds behind `rat_len`.
pub proof fn lemma_rat_len_bounds(p: nat, q: nat)
    requires
        1 <= p < pow2(31),
        1 <= q < pow2(31),
    ensures
        -30 <= rat_len(p, q) <= 31,
        q * pow2((rat_len(p, q) + 63) as nat) <= p * pow2(64),
        p * pow2(64) < q * pow2((rat_len(p, q) + 64) as nat),
{
    lemma2_to64();
    lemma2_to64_rest();
    lemma_pow2_adds(31, 33);
    lemma_pow2_adds(64, 31);
    let num = p * pow2(64);
    let z = num / q;
    let t = rat_len(p, q);
    assert(num >= pow2(64)) by {
        vstd::arithmetic::mul::lemma_mul_inequality(1, p as int, pow2(64) as int);
    }
    assert(num < pow2(95)) by {
        vstd::arithmetic::mul::lemma_mul_strict_inequality(p as int, pow2(31) as int, pow2(64) as int);
    }
    assert(z >= pow2(33)) by {
        assert(q * pow2(33) <= pow2(64)) by {
            vstd::arithmetic::mul::lemma_mul_strict_inequality(q as int, pow2(31) as int, pow2(33) as int);
        }
        lemma_div_lower(num, q, pow2(33));
    }
    assert(z <= num) by {
        vstd::arithmetic::div_mod::lemma_div_is_ordered_by_denominator(num as int, 1, q as int);
        vstd::arithmetic::div_mod::lemma_div_basics(num as int);
    }
    lemma_bit_len_bounds(z);
    assert(bit_len(z) >= 34) by {
        if bit_len(z) <= 33 {
            if bit_len(z) < 33 {
                lemma_pow2_strictly_increases(bit_len(z), 33);
            }
        }
    }
    assert(bit_len(z) <= 95) by {
        lemma_bit_len_le(z, 95);
    }
    vstd::arithmetic::div_mod::lemma_fundamental_div_mod(num as int, q as int);
    let rr = num % q;
    // Lower bound: z * q <= num.
    assert(q * pow2((t + 63) as nat) <= num) by {
        assert(pow2((t + 63) as nat) <= z);
        vstd::arithmetic::mul::lemma_mul_inequality(pow2((t + 63) as nat) as int, z as int, q as int);
        vstd::arithmetic::mul::lemma_mul_nonnegative(z as int, q as int);
    }
    // Upper bound: num < (z + 1) * q.
    assert(num < q * pow2((t + 64) as nat)) by {
        assert(num < (z + 1) * q) by {
            vstd::arithmetic::mul::lemma_mul_is_distributive_add_other_way(q as int, z as int, 1);
        }
        assert(z + 1 <= pow2((t + 64) as nat));
        vstd::arithmetic::mul::lemma_mul_inequality((z + 1) as int, pow2((t + 64) as nat) as int, q as int);
    }
}

/// Divide two nonnegative integers into the nearest single-precision value,
/// ties to even: `p / q` under the given result sign.
pub fn f32_ratio(sign: u32, p: u64, q: u64) -> (r: u32)
    requires
        sign <= 1,
        p < 0x8000_0000,
        1 <= q < 0x8000_0000,
    ensures
        r == ratio_spec(sign, p as nat, q as nat),
        is_finite(r),
        !is_nan(r),
        crate::float_bits::is_flushed(r),
        mag_val(mag_of(r)) < pow2(182),
        mag_val(mag_of(r)) < pow2((150 + rat_len(p as nat, q as nat)) as nat),
{
    proof {
        lemma2_to64();
        vstd::arithmetic::power2::lemma_pow2(182);
        vstd::arithmetic::power::lemma_pow_positive(2, 182);
        if p == 0 {
            lemma_pow2_pos((150 + rat_len(0, q as nat)) as nat);
        }
    }
    if p == 0 {
        proof {
            lemma_fundamental_div_mod_converse(
                (sign * 0x8000_0000) as int,
                0x8000_0000,
                sign as int,
                0,
            );
        }
        return sign * 0x8000_0000;
    }
    proof {
        lemma2_to64();
        lemma2_to64_rest();
        lemma_rat_len_bounds(p as nat, q as nat);
    }
    let num: u128 = (p as u128) * pow2_u128(64);
    proof {
        lemma_pow2_adds(64, 31);
        assert((num as nat) < pow2(95)) by {
            vstd::arithmetic::mul::lemma_mul_strict_inequality(
                p as int,
                pow2(31) as int,
                pow2(64) as int,
            );
        }
    }
    let z: u128 = num / (q as u128);
    let zl: u32 = bit_len_u128(z);
    let t: i32 = (zl as i32) - 64;
    let ghost tt = rat_len(p as nat, q as nat);
    proof {
        assert(t as int == tt);
    }
    // Rebase the binade bounds onto the grid the division happens at:
    // spec_d * 2^23 <= spec_n < spec_d * 2^24.
    let ghost spec_n: nat = if tt <= 24 {
        (p as nat) * pow2((24 - tt) as nat)
    } else {
        p as nat
    };
    let ghost spec_d: nat = if tt <= 24 {
        q as nat
    } else {
        (q as nat) * pow2((tt - 24) as nat)
    };
    proof {
        let lo = (q as nat) * pow2((tt + 63) as nat);
        let hi = (q as nat) * pow2((tt + 64) as nat);
        let pn = (p as nat) * pow2(64);
        if tt <= 24 {
            let c = pow2((40 + tt) as nat);
            lemma_pow2_pos((40 + tt) as nat);
            lemma_pow2_pos((24 - tt) as nat);
            assert((spec_d * pow2(23)) * c == lo) by {
                lemma_pow2_adds(23, (40 + tt) as nat);
                vstd::arithmetic::mul::lemma_mul_is_associative(
                    q as int,
                    pow2(23) as int,
                    c as int,
                );
            }
            assert((spec_d * pow2(24)) * c == hi) by {
                lemma_pow2_adds(24, (40 + tt) as nat);
                vstd::arithmetic::mul::lemma_mul_is_associative(
                    q as int,
                    pow2(24) as int,
                    c as int,
                );
            }
            assert(spec_n * c == pn) by {
                lemma_pow2_adds((24 - tt) as nat, (40 + tt) as nat);
                vstd::arithmetic::mul::lemma_mul_is_associative(
                    p as int,
                    pow2((24 - tt) as nat) as int,
                    c as int,
                );
            }
            assert(spec_d * pow2(23) <= spec_n) by {
                vstd::arithmetic::mul::lemma_mul_inequality_converse(
                    (spec_d * pow2(23)) as int,
                    spec_n as int,
                    c as int,
                );
            }
            assert(spec_n < spec_d * pow2(24)) by {
                vstd::arithmetic::mul::lemma_mul_strict_inequality_converse(
                    spec_n as int,
                    (spec_d * pow2(24)) as int,
                    c as int,
                );
            }
        } else {
            let c = pow2(64);
            lemma_pow2_pos(64);
            lemma_pow2_pos((tt - 24) as nat);
            vstd::arithmetic::mul::lemma_mul_strictly_positive(
                q as int,
                pow2((tt - 24) as nat) as int,
            );
            assert((spec_d * pow2(23)) * c == lo) by {
                lemma_pow2_adds((tt - 24) as nat, 23);
                lemma_pow2_adds((tt - 1) as nat, 64);
                vstd::arithmetic::mul::lemma_mul_is_associative(
                    q as int,
                    pow2((tt - 24) as nat) as int,
                    pow2(23) as int,
                );
                vstd::arithmetic::mul::lemma_mul_is_associative(
                    q as int,
                    pow2((tt - 1) as nat) as int,
                    pow2(64) as int,
                );
                vstd::arithmetic::mul::lemma_mul_is_associative(
                    (q as int) * (pow2((tt - 24) as nat) as int),
                    pow2(23) as int,
                    pow2(64) as int,
                );
                lemma_pow2_adds(23, 64);
            }
            assert((spec_d * pow2(24)) * c == hi) by {
                lemma_pow2_adds((tt - 24) as nat, 24);
                lemma_pow2_adds(tt as nat, 64);
                vstd::arithmetic::mul::lemma_mul_is_associative(
                    q as int,
                    pow2((tt - 24) as nat) as int,
                    pow2(24) as int,
                );
                vstd::arithmetic::mul::lemma_mul_is_associative(
                    q as int,
                    pow2(tt as nat) as int,
                    pow2(64) as int,
                );
                vstd::arithmetic::mul::lemma_mul_is_associative(
                    (q as int) * (pow2((tt - 24) as nat) as int),
                    pow2(24) as int,
                    pow2(64) as int,
                );
                lemma_pow2_adds(24, 64);
            }
            assert(spec_n * c == pn);
            assert(spec_d * pow2(23) <= spec_n) by {
                vstd::arithmetic::mul::lemma_mul_inequality_converse(
                    (spec_d * pow2(23)) as int,
                    spec_n as int,
                    c as int,
                );
            }
            assert(spec_n < spec_d * pow2(24)) by {
                vstd::arithmetic::mul::lemma_mul_strict_inequality_converse(
                    spec_n as int,
                    (spec_d * pow2(24)) as int,
                    c as int,
                );
            }
        }
        // Digit bounds of the quotient itself.
        lemma_pow2_pos(23);
        assert(spec_n / spec_d >= pow2(23)) by {
            lemma_div_lower(spec_n, spec_d, pow2(23));
        }
        assert(spec_n / spec_d < pow2(24)) by {
            vstd::arithmetic::mul::lemma_mul_is_commutative(spec_d as int, pow2(24) as int);
            vstd::arithmetic::div_mod::lemma_multiply_divide_lt(
                spec_n as int,
                spec_d as int,
                pow2(24) as int,
            );
        }
    }
    let (n2, d2): (u128, u128) = if t <= 24 {
        proof {
            assert((24 - t) <= 54);
            assert((p as nat) * pow2((24 - tt) as nat) < pow2(85)) by {
                assert(pow2((24 - tt) as nat) <= pow2(54)) by {
                    if 24 - tt < 54 {
                        lemma_pow2_strictly_increases((24 - tt) as nat, 54);
                    }
                }
                lemma_pow2_adds(31, 54);
                vstd::arithmetic::mul::lemma_mul_strict_upper_bound(
                    p as int,
                    pow2(31) as int,
                    pow2((24 - tt) as nat) as int,
                    pow2(54) as int + 1,
                );
                assert(pow2(31) * (pow2(54) as int + 1) == pow2(85) + pow2(31)) by {
                    vstd::arithmetic::mul::lemma_mul_is_distributive_add(
                        pow2(31) as int,
                        pow2(54) as int,
                        1,
                    );
                }
            }
            lemma_pow2_adds(64, 22);
        }
        ((p as u128) * pow2_u128((24 - t) as u32), q as u128)
    } else {
        proof {
            lemma_pow2_adds(31, 7);
            assert(pow2((tt - 24) as nat) <= pow2(7)) by {
                if tt - 24 < 7 {
                    lemma_pow2_strictly_increases((tt - 24) as nat, 7);
                }
            }
            assert((q as nat) * pow2((tt - 24) as nat) < pow2(38)) by {
                vstd::arithmetic::mul::lemma_mul_strict_upper_bound(
                    q as int,
                    pow2(31) as int,
                    pow2((tt - 24) as nat) as int,
                    pow2(7) as int + 1,
                );
                vstd::arithmetic::mul::lemma_mul_is_distributive_add(
                    pow2(31) as int,
                    pow2(7) as int,
                    1,
                );
                lemma_pow2_adds(38, 1);
                lemma_pow2_strictly_increases(31, 38);
            }
        }
        (p as u128, (q as u128) * pow2_u128((t - 24) as u32))
    };
    proof {
        assert(n2 as nat == spec_n);
        assert(d2 as nat == spec_d);
        assert(d2 > 0) by {
            lemma_pow2_pos((tt - 24) as nat);
            vstd::arithmetic::mul::lemma_mul_strictly_positive(
                q as int,
                pow2((tt - 24) as nat) as int,
            );
        }
    }
    let q2: u128 = n2 / d2;
    let r2: u128 = n2 % d2;
    let m: u128 = if 2 * r2 < d2 {
        q2
    } else if 2 * r2 > d2 {
        q2 + 1
    } else if q2 % 2 == 0 {
        q2
    } else {
        q2 + 1
    };
    proof {
        assert(m as nat == rnd_div(spec_n, spec_d));
        assert(0x80_0000 <= m <= 0x100_0000) by {
            lemma2_to64();
        }
    }
    let eb: i32 = t + 126;
    let r: u32 = if m < 0x100_0000 {
        sign * 0x8000_0000 + (eb as u32) * 0x80_0000 + (m as u32 - 0x80_0000)
    } else {
        sign * 0x8000_0000 + ((eb + 1) as u32) * 0x80_0000
    };
    proof {
        if m < 0x100_0000 {
            lemma_fundamental_div_mod_converse(
                r as int,
                0x8000_0000,
                sign as int,
                (eb as int) * 0x80_0000 + (m as int - 0x80_0000),
            );
            lemma_fundamental_div_mod_converse(
                (eb as int) * 0x80_0000 + (m as int - 0x80_0000),
                0x80_0000,
                eb as int,
                m as int - 0x80_0000,
            );
            assert(mag_val(mag_of(r)) == (m as nat) * pow2((eb - 1) as nat));
            assert((m as nat) * pow2((eb - 1) as nat) < pow2((24 + eb - 1) as nat)) by {
                lemma_pow2_pos((eb - 1) as nat);
                vstd::arithmetic::mul::lemma_mul_strict_inequality(
                    m as int,
                    0x100_0000int,
                    pow2((eb - 1) as nat) as int,
                );
                lemma_pow2_adds(24, (eb - 1) as nat);
                lemma_pow2_adds(23, eb as nat);
            }
            assert(pow2((24 + eb - 1) as nat) <= pow2(181)) by {
                if 24 + eb - 1 < 181 {
                    lemma_pow2_strictly_increases((24 + eb - 1) as nat, 181);
                }
            }
            assert(pow2(181) < pow2(182)) by {
                lemma_pow2_strictly_increases(181, 182);
            }
            assert(pow2((24 + eb - 1) as nat) <= pow2((150 + tt) as nat)) by {
                if 24 + eb - 1 < 150 + tt {
                    lemma_pow2_strictly_increases((24 + eb - 1) as nat, (150 + tt) as nat);
                }
            }
        } else {
            lemma_fundamental_div_mod_converse(
                r as int,
                0x8000_0000,
                sign as int,
                ((eb + 1) as int) * 0x80_0000,
            );
            lemma_fundamental_div_mod_converse(
                ((eb + 1) as int) * 0x80_0000,
                0x80_0000,
                (eb + 1) as int,
                0,
            );
            assert(mag_val(mag_of(r)) == 0x80_0000 * pow2(eb as nat));
            assert(0x80_0000 * pow2(eb as nat) == pow2((23 + eb) as nat)) by {
                lemma_pow2_adds(23, eb as nat);
            }
            assert(pow2((23 + eb) as nat) < pow2(182)) by {
                lemma_pow2_strictly_increases((23 + eb) as nat, 182);
            }
            assert(pow2((23 + eb) as nat) < pow2((150 + tt) as nat)) by {
                lemma_pow2_strictly_increases((23 + eb) as nat, (150 + tt) as nat);
            }
        }
    }
    r
}

/// Convert a signed integer to the nearest single-precision value, ties to
/// even.
pub fn f32_of_int(v: i64) -> (r: u32)
    ensures
        r == f32_of_int_spec(v as int),
{
    if v >= 0 {
        pack_f32(0, v as u128, 0)
    } else {
        proof {
            lemma_pow2_adds(64, 61);
            lemma2_to64();
            lemma2_to64_rest();
        }
        pack_f32(1, (-(v as i128)) as u128, 0)
    }
}

} // verus!
