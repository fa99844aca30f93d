//! What holds of every conversion, proved from the contracts alone.
use crate::binary64::{
    binade,
    is_finite,
    is_nan,
    is_negative,
    lemma_quanta_of_parts,
    lemma_quanta_step,
    magnitude,
    ordinal,
    quanta,
    HIDDEN_BIT,
    INFINITY,
};
use crate::bits::lemma_pow2_monotonic;
use crate::rounding::{
    gap,
    lemma_nearest_exact,
    lemma_nearest_unique,
    lemma_round_bracket,
    nearest,
};
use crate::scale::scaled_by;
use crate::{MILE_DENOMINATOR, MILE_FACTOR, MILE_NUMERATOR};
use vstd::arithmetic::power2::{
    lemma2_to64,
    lemma2_to64_rest,
    lemma_pow2_adds,
    lemma_pow2_pos,
    lemma_pow2_unfold,
    pow2,
};
use vstd::prelude::*;

verus! {

/// An encoding is its sign and its magnitude.
pub proof fn lemma_same_parts(a: u64, b: u64)
    requires
        is_negative(a) == is_negative(b),
        magnitude(a) == magnitude(b),
    ensures
        a == b,
{
}

/// The contract of a conversion leaves one result: two values that both are
/// `x` scaled by `num / den` are the same value.
pub proof fn lemma_scaled_by_unique(x: u64, num: nat, den: nat, r1: u64, r2: u64)
    requires
        den > 0,
        scaled_by(x, num, den, r1),
        scaled_by(x, num, den, r2),
    ensures
        r1 == r2,
{
    if is_finite(x) {
        lemma_nearest_unique(quanta(magnitude(x)) * num, den, magnitude(r1), magnitude(r2));
        lemma_same_parts(r1, r2);
    }
}

/// A NaN scales to a NaN of the same sign.
pub proof fn lemma_nan_propagates(x: u64, num: nat, den: nat, r: u64)
    requires
        is_nan(x),
        scaled_by(x, num, den, r),
    ensures
        is_nan(r),
        is_negative(r) == is_negative(x),
{
    assert((x | 0x0008_0000_0000_0000u64) >= x && ((x | 0x0008_0000_0000_0000u64)
        >= 0x8000_0000_0000_0000u64 <==> x >= 0x8000_0000_0000_0000u64)) by (bit_vector);
}

/// Zero scales to zero, whatever the factor, and keeps its sign.
pub proof fn lemma_zero_scales_to_zero(x: u64, num: nat, den: nat, r: u64)
    requires
        den > 0,
        magnitude(x) == 0,
        scaled_by(x, num, den, r),
    ensures
        r == x,
{
    lemma_quanta_of_parts(0, 0);
    assert(ordinal(0, 0) == 0);
    assert(0 * pow2(0) == 0) by (nonlinear_arith);
    assert(quanta(0) * num == quanta(0) * den);
    lemma_exact_result(x, num, den, r, 0);
    lemma_same_parts(r, x);
}

/// No power of two is a multiple of five.
proof fn lemma_pow2_not_multiple_of_five(e: nat)
    ensures
        pow2(e) % 5 != 0,
    decreases e,
{
    if e == 0 {
        lemma2_to64();
    } else {
        lemma_pow2_not_multiple_of_five((e - 1) as nat);
        lemma_pow2_unfold(e);
    }
}

/// A thousand times a whole number of quanta never is the value that stands
/// for overflow.
proof fn lemma_thousandfold_is_finite(units: nat)
    ensures
        units * 1000 != quanta(INFINITY as nat),
{
    lemma_quanta_of_parts(2046, HIDDEN_BIT as nat);
    assert(ordinal(2046, HIDDEN_BIT as nat) == INFINITY);
    lemma2_to64_rest();
    lemma_pow2_adds(52, 2046);
    lemma_pow2_not_multiple_of_five(2098);
}

/// Where the exact result is the value of an ordinal, the conversion gives
/// that ordinal: nothing is lost to rounding.
pub proof fn lemma_exact_result(x: u64, num: nat, den: nat, r: u64, n: nat)
    requires
        den > 0,
        is_finite(x),
        scaled_by(x, num, den, r),
        n <= INFINITY,
        quanta(magnitude(x)) * num == quanta(n) * den,
    ensures
        magnitude(r) == n,
        is_negative(r) == is_negative(x),
{
    let exact: nat = quanta(magnitude(x)) * num;
    lemma_nearest_exact(exact, den, n);
    lemma_nearest_unique(exact, den, magnitude(r), n);
}

/// Converting to meters and back returns the measurement, whenever the
/// product by 1000 is representable without rounding.
pub proof fn lemma_round_trip(km: u64, meters: u64, back: u64)
    requires
        is_finite(km),
        scaled_by(km, 1000, 1, meters),
        quanta(magnitude(meters)) == quanta(magnitude(km)) * 1000,
        scaled_by(meters, 1, 1000, back),
    ensures
        back == km,
{
    lemma_thousandfold_is_finite(quanta(magnitude(km)));
    assert(quanta(magnitude(meters)) * 1 == quanta(magnitude(km)) * 1000);
    lemma_exact_result(meters, 1, 1000, back, magnitude(km));
    lemma_same_parts(back, km);
}

/// A finite result lies within half a step of the exact value: twice its
/// distance from the exact product is at most the spacing of its binade.
pub proof fn lemma_rounding_error(x: u64, num: nat, den: nat, r: u64)
    requires
        den > 0,
        is_finite(x),
        scaled_by(x, num, den, r),
        is_finite(r),
    ensures
        2 * gap(quanta(magnitude(x)) * num, den, magnitude(r)) <= pow2(binade(magnitude(r))) * den,
{
    let exact: nat = quanta(magnitude(x)) * num;
    let n: nat = magnitude(r);
    if exact >= quanta(n) * den {
        let step: nat = pow2(binade(n));
        lemma_quanta_step(n);
        lemma_pow2_pos(binade(n));
        assert(step * den > 0) by (nonlinear_arith)
            requires
                step > 0,
                den > 0,
        ;
        assert(gap(exact, den, n) <= gap(exact, den, n + 1));
        assert(quanta(n + 1) * den == quanta(n) * den + step * den) by (nonlinear_arith)
            requires
                quanta(n + 1) == quanta(n) + step,
        ;
    } else {
        lemma_quanta_of_parts(0, 0);
        assert(ordinal(0, 0) == 0);
        assert(0 * pow2(0) == 0) by (nonlinear_arith);
        assert(0 * den == 0) by (nonlinear_arith);
        assert(n >= 1);
        let below: nat = (n - 1) as nat;
        let step: nat = pow2(binade(below));
        lemma_quanta_step(below);
        lemma_pow2_pos(binade(below));
        assert(step * den > 0) by (nonlinear_arith)
            requires
                step > 0,
                den > 0,
        ;
        assert(gap(exact, den, n) <= gap(exact, den, below));
        assert(quanta(n) * den == quanta(below) * den + step * den) by (nonlinear_arith)
            requires
                quanta(n) == quanta(below) + step,
        ;
        lemma_pow2_monotonic(binade(below), binade(n));
        assert(step * den <= pow2(binade(n)) * den) by (nonlinear_arith)
            requires
                step <= pow2(binade(n)),
        ;
    }
}

/// The miles-per-kilometer factor is the binary64 number nearest to the
/// decimal 0.62137119224: `MILE_FACTOR` encodes `MILE_NUMERATOR / 2^53`, and
/// the decimal, written in quanta as `62137119224 * 2^1074 / 10^11`, rounds to
/// that encoding.
pub proof fn lemma_mile_factor_is_nearest()
    ensures
        quanta(MILE_FACTOR as nat) * MILE_DENOMINATOR == MILE_NUMERATOR * pow2(1074),
        nearest(62_137_119_224 * pow2(1074), 100_000_000_000, MILE_FACTOR as nat),
{
    let q: nat = MILE_NUMERATOR as nat;
    let floor: nat = (q - 1) as nat;
    let unit: nat = 100_000_000_000;
    let p: nat = 62_137_119_224 * 0x20_0000_0000_0000;
    let rem: nat = 67_144_030_208;
    let exact: nat = 62_137_119_224 * pow2(1074);
    lemma2_to64_rest();
    lemma_pow2_adds(53, 1021);
    lemma_quanta_of_parts(1021, q);
    assert(ordinal(1021, floor) + 1 == ordinal(1021, q) == MILE_FACTOR);
    assert(quanta(MILE_FACTOR as nat) * MILE_DENOMINATOR == MILE_NUMERATOR * pow2(1074))
        by (nonlinear_arith)
        requires
            quanta(MILE_FACTOR as nat) == q * pow2(1021),
            pow2(1074) == MILE_DENOMINATOR * pow2(1021),
            q == MILE_NUMERATOR,
    ;
    assert(exact == p * pow2(1021)) by (nonlinear_arith)
        requires
            exact == 62_137_119_224 * pow2(1074),
            pow2(1074) == 0x20_0000_0000_0000 * pow2(1021),
            p == 62_137_119_224 * 0x20_0000_0000_0000,
    ;
    assert(pow2(1021) * unit == unit * pow2(1021)) by (nonlinear_arith);
    lemma_round_bracket(exact, unit, p, floor, unit, rem, 1021, 1021, true);
}

} // verus!
