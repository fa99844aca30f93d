//! Correctly rounded scaling of a binary64 value by a fixed factor.
//!
//! Two routines cover every conversion: multiplication by a binary fraction
//! `c / 2^k`, and division by a small whole number. Each works on the integer
//! significand, finds the ordinal just below the exact result, and rounds to
//! nearest with ties to even.
use crate::binary64::{
    binade,
    is_infinite,
    is_nan,
    is_negative,
    magnitude,
    quanta,
    significand,
    HIDDEN_BIT,
    INFINITY,
    QUIET_BIT,
    SIGNIFICAND_END,
    SIGN_BIT,
};
use crate::bits::{
    bit_length,
    lemma_pow2_exponent_below,
    lemma_pow2_monotonic,
    lemma_quotient_bounds,
    lemma_quotient_range,
    power_of_two,
};
use crate::rounding::{lemma_round_bracket, nearest};
use vstd::arithmetic::power2::{
    lemma2_to64,
    lemma2_to64_rest,
    lemma_pow2_adds,
    lemma_pow2_pos,
    lemma_pow2_unfold,
    pow2,
};
use vstd::bits::lemma_u128_shr_is_div;
use vstd::prelude::*;

verus! {

/// Whether `r` is `x` scaled by the exact factor `num / den`, rounded once.
///
/// A NaN comes back quieted, an infinity unchanged. A finite `x` keeps its
/// sign, and the magnitude of `r` is the ordinal nearest to the exact
/// product, ties going to the even ordinal and overflow to infinity.
pub open spec fn scaled_by(x: u64, num: nat, den: nat, r: u64) -> bool {
    if is_nan(x) {
        r == x | QUIET_BIT
    } else if is_infinite(x) {
        r == x
    } else {
        &&& is_negative(r) == is_negative(x)
        &&& nearest(quanta(magnitude(x)) * num, den, magnitude(r))
    }
}

/// Splits a finite ordinal into its significand and its binade.
fn split(mag: u64) -> (parts: (u64, u64))
    requires
        mag < INFINITY,
    ensures
        parts.0 == significand(mag as nat),
        parts.1 == binade(mag as nat),
        parts.0 < SIGNIFICAND_END,
        parts.1 <= 2045,
        parts.1 > 0 ==> parts.0 >= HIDDEN_BIT,
        quanta(mag as nat) == parts.0 * pow2(parts.1 as nat),
{
    let field: u64 = mag / HIDDEN_BIT;
    if field == 0 {
        (mag, 0)
    } else {
        (HIDDEN_BIT + mag % HIDDEN_BIT, field - 1)
    }
}

/// Rounds the product of a finite magnitude and the factor `c / 2^k`.
fn multiply_magnitude(mag: u64, c: u64, k: u32) -> (r: u64)
    requires
        mag < INFINITY,
        0 < c < SIGNIFICAND_END,
        k < 64,
    ensures
        nearest(quanta(mag as nat) * (c as nat), pow2(k as nat), r as nat),
{
    let (m, s) = split(mag);
    let wide_m: u128 = m as u128;
    let wide_c: u128 = c as u128;
    assert(wide_m * wide_c < 0x400_0000_0000_0000_0000_0000_0000) by (nonlinear_arith)
        requires
            wide_m < 0x20_0000_0000_0000,
            wide_c < 0x20_0000_0000_0000,
    ;
    let p: u128 = wide_m * wide_c;
    // The digits of the product above the lowest 53 tell how far it must be
    // shifted to leave a 53-bit significand.
    let top: u64 = (p / 0x20_0000_0000_0000) as u64;
    let len: u32 = bit_length(top);
    proof {
        lemma2_to64();
        lemma2_to64_rest();
        if len > 0 {
            lemma_pow2_exponent_below((len - 1) as nat, 53);
        }
    }
    let d: u32 = if k as u64 > s && k - s as u32 > len {
        k - s as u32
    } else {
        len
    };
    let t: u64 = d as u64 + s - k as u64;
    let unit: u128 = power_of_two(d) as u128;
    proof {
        let low: nat = if t > 0 {
            HIDDEN_BIT as nat
        } else {
            0
        };
        lemma_pow2_monotonic(len as nat, d as nat);
        assert(p < 0x20_0000_0000_0000 * unit);
        if t > 0 {
            if len > 0 {
                lemma_pow2_unfold(len as nat);
            } else {
                assert(p >= m) by (nonlinear_arith)
                    requires
                        p == wide_m * wide_c,
                        wide_m == m,
                        wide_c >= 1,
                ;
            }
        }
        assert(low * unit <= p);
        lemma_u128_shr_is_div(p, d as u128);
        lemma_quotient_range(p as nat, unit as nat, low, 0x20_0000_0000_0000);
        lemma_quotient_bounds(p as nat, unit as nat);
    }
    let q: u64 = (p >> d) as u64;
    let rem: u128 = p - q as u128 * unit;
    let up: bool = 2 * rem > unit || (2 * rem == unit && q % 2 == 1);
    let below: u64 = t * HIDDEN_BIT + q;
    proof {
        lemma_pow2_adds(t as nat, k as nat);
        lemma_pow2_adds(d as nat, s as nat);
        lemma_pow2_pos(k as nat);
        assert(quanta(mag as nat) * (c as nat) == p * pow2(s as nat)) by (nonlinear_arith)
            requires
                quanta(mag as nat) == m * pow2(s as nat),
                p == m * c,
        ;
        lemma_round_bracket(
            quanta(mag as nat) * (c as nat),
            pow2(k as nat),
            p as nat,
            q as nat,
            unit as nat,
            rem as nat,
            s as nat,
            t as nat,
            up,
        );
    }
    if below >= INFINITY {
        INFINITY
    } else if up {
        below + 1
    } else {
        below
    }
}

/// Rounds the quotient of a finite magnitude by the whole number `dv`.
fn divide_magnitude(mag: u64, dv: u64) -> (r: u64)
    requires
        mag < INFINITY,
        0 < dv < 2048,
    ensures
        nearest(quanta(mag as nat), dv as nat, r as nat),
{
    let (m, s) = split(mag);
    let width: u32 = bit_length(dv);
    proof {
        lemma2_to64();
        lemma2_to64_rest();
        lemma_pow2_exponent_below((width - 1) as nat, 11);
        lemma_pow2_unfold(width as nat);
        lemma_pow2_monotonic(width as nat, 11);
    }
    let full: u64 = power_of_two(width);
    assert(m * full <= 0xFFFF_FFFF_FFFF_F800) by (nonlinear_arith)
        requires
            m < 0x20_0000_0000_0000,
            full <= 2048,
    ;
    // A normal significand is scaled up until its quotient has 53 bits;
    // near the bottom of the range the binade limits the scaling.
    let want: u32 = if m * full >= dv * SIGNIFICAND_END {
        width - 1
    } else {
        width
    };
    let sh: u32 = if want as u64 <= s {
        want
    } else {
        s as u32
    };
    let t: u64 = s - sh as u64;
    let lift: u64 = power_of_two(sh);
    proof {
        lemma_pow2_monotonic(sh as nat, want as nat);
        lemma_pow2_monotonic(want as nat, width as nat);
        assert(m * lift <= m * pow2(want as nat) <= m * pow2(width as nat)) by (nonlinear_arith)
            requires
                lift <= pow2(want as nat) <= pow2(width as nat),
        ;
    }
    let a: u64 = m * lift;
    let q: u64 = a / dv;
    let rem: u64 = a % dv;
    let up: bool = 2 * rem > dv || (2 * rem == dv && q % 2 == 1);
    proof {
        let low: nat = if t > 0 {
            HIDDEN_BIT as nat
        } else {
            0
        };
        if want == width {
            assert(a < 0x20_0000_0000_0000 * dv);
        } else {
            assert(m * pow2(want as nat) < 0x20_0000_0000_0000 * pow2(want as nat))
                by (nonlinear_arith)
                requires
                    m < 0x20_0000_0000_0000,
                    pow2(want as nat) > 0,
            ;
            assert(a < 0x20_0000_0000_0000 * dv);
        }
        if t > 0 {
            assert(HIDDEN_BIT * pow2(want as nat) <= m * pow2(want as nat)) by (nonlinear_arith)
                requires
                    HIDDEN_BIT <= m,
            ;
            assert(m * (2 * pow2(want as nat)) == 2 * (m * pow2(want as nat)))
                by (nonlinear_arith);
            assert(low * dv <= a);
        }
        lemma_quotient_range(a as nat, dv as nat, low, 0x20_0000_0000_0000);
        lemma_quotient_bounds(a as nat, dv as nat);
        lemma_pow2_adds(sh as nat, t as nat);
        lemma_pow2_pos(t as nat);
        assert(quanta(mag as nat) == a * pow2(t as nat)) by (nonlinear_arith)
            requires
                quanta(mag as nat) == m * pow2(s as nat),
                pow2(s as nat) == lift * pow2(t as nat),
                a == m * lift,
        ;
        assert(pow2(t as nat) * dv == dv * pow2(t as nat)) by (nonlinear_arith);
        lemma_round_bracket(
            quanta(mag as nat),
            dv as nat,
            a as nat,
            q as nat,
            dv as nat,
            rem as nat,
            t as nat,
            t as nat,
            up,
        );
    }
    let below: u64 = t * HIDDEN_BIT + q;
    if up {
        below + 1
    } else {
        below
    }
}

/// Multiplies the binary64 value encoded by `x` by the factor `c / 2^k` and
/// rounds the exact product to nearest, ties to even.
pub fn multiply(x: u64, c: u64, k: u32) -> (r: u64)
    requires
        0 < c < SIGNIFICAND_END,
        k < 64,
    ensures
        scaled_by(x, c as nat, pow2(k as nat), r),
{
    let negative: bool = x >= SIGN_BIT;
    let mag: u64 = if negative {
        x - SIGN_BIT
    } else {
        x
    };
    if mag > INFINITY {
        x | QUIET_BIT
    } else if mag == INFINITY {
        x
    } else {
        let rounded: u64 = multiply_magnitude(mag, c, k);
        if negative {
            SIGN_BIT + rounded
        } else {
            rounded
        }
    }
}

/// Divides the binary64 value encoded by `x` by the whole number `dv` and
/// rounds the exact quotient to nearest, ties to even.
pub fn divide(x: u64, dv: u64) -> (r: u64)
    requires
        0 < dv < 2048,
    ensures
        scaled_by(x, 1, dv as nat, r),
{
    let negative: bool = x >= SIGN_BIT;
    let mag: u64 = if negative {
        x - SIGN_BIT
    } else {
        x
    };
    if mag > INFINITY {
        x | QUIET_BIT
    } else if mag == INFINITY {
        x
    } else {
        let rounded: u64 = divide_magnitude(mag, dv);
        if negative {
            SIGN_BIT + rounded
        } else {
            rounded
        }
    }
}

} // verus!
