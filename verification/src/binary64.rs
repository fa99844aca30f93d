//! The IEEE 754 binary64 encoding, read as integers.
//!
//! A measurement is carried as the 64-bit pattern of a double-precision
//! number: one sign bit, eleven exponent bits, fifty-two fraction bits.
//! Dropping the sign bit leaves the *ordinal* of the magnitude: ordinals
//! `0 ..= INFINITY` enumerate the non-negative values in increasing order,
//! and every one of those values is a whole number of *quanta*, where one
//! quantum is `2^-1074`, the smallest positive subnormal.
use vstd::arithmetic::power2::{lemma2_to64, lemma_pow2_pos, lemma_pow2_unfold, pow2};
use vstd::prelude::*;

verus! {

/// Weight of the implicit leading bit of a normal significand, `2^52`.
pub const HIDDEN_BIT: u64 = 0x0010_0000_0000_0000;

/// One past the largest significand, `2^53`.
pub const SIGNIFICAND_END: u64 = 0x0020_0000_0000_0000;

/// The sign bit, `2^63`.
pub const SIGN_BIT: u64 = 0x8000_0000_0000_0000;

/// Ordinal of positive infinity; every larger ordinal encodes a NaN.
pub const INFINITY: u64 = 0x7FF0_0000_0000_0000;

/// The most significant fraction bit, set in every quiet NaN.
pub const QUIET_BIT: u64 = 0x0008_0000_0000_0000;

/// Whether the sign bit of `x` is set.
pub open spec fn is_negative(x: u64) -> bool {
    x >= SIGN_BIT
}

/// The encoding `x` without its sign bit.
pub open spec fn magnitude(x: u64) -> nat {
    if x >= SIGN_BIT {
        (x - SIGN_BIT) as nat
    } else {
        x as nat
    }
}

/// Whether `x` encodes a NaN.
pub open spec fn is_nan(x: u64) -> bool {
    magnitude(x) > INFINITY
}

/// Whether `x` encodes positive or negative infinity.
pub open spec fn is_infinite(x: u64) -> bool {
    magnitude(x) == INFINITY
}

/// Whether `x` encodes a finite number (zero, subnormal or normal).
pub open spec fn is_finite(x: u64) -> bool {
    magnitude(x) < INFINITY
}

/// The integer significand of ordinal `n`: the fraction bits, with the
/// hidden bit added for every ordinal outside the subnormal range.
pub open spec fn significand(n: nat) -> nat {
    if n < HIDDEN_BIT {
        n
    } else {
        (HIDDEN_BIT + n % (HIDDEN_BIT as nat)) as nat
    }
}

/// The power of two by which the significand of ordinal `n` is scaled to
/// give its value in quanta. Subnormals and the first binade share scale 0.
pub open spec fn binade(n: nat) -> nat {
    if n < 2 * HIDDEN_BIT {
        0
    } else {
        (n / (HIDDEN_BIT as nat) - 1) as nat
    }
}

/// The value of ordinal `n`, counted in quanta of `2^-1074`.
///
/// `quanta(INFINITY)` is `2^2098`, that is the value `2^1024`: one binade
/// above the largest finite number. Rounding treats it as the grid point
/// that stands for overflow.
pub open spec fn quanta(n: nat) -> nat {
    significand(n) * pow2(binade(n))
}

/// The ordinal with binade `t` and significand `q`.
pub open spec fn ordinal(t: nat, q: nat) -> nat {
    (t * HIDDEN_BIT + q) as nat
}

/// Every ordinal splits into its binade and its significand.
pub proof fn lemma_ordinal_parts(n: nat)
    ensures
        n == ordinal(binade(n), significand(n)),
        significand(n) < 2 * HIDDEN_BIT,
        binade(n) > 0 ==> significand(n) >= HIDDEN_BIT,
{
}

/// The value of the ordinal assembled from binade `t` and significand `q`.
/// The significand may be `2^53`, one past the largest: the ordinal is then
/// the first of the next binade.
pub proof fn lemma_quanta_of_parts(t: nat, q: nat)
    requires
        q <= 2 * HIDDEN_BIT,
        t > 0 ==> q >= HIDDEN_BIT,
    ensures
        quanta(ordinal(t, q)) == q * pow2(t),
{
    let n: nat = ordinal(t, q);
    lemma2_to64();
    if q < HIDDEN_BIT {
        assert(t == 0);
        assert(n == q);
    } else if q < 2 * HIDDEN_BIT {
        assert(n == (t + 1) * HIDDEN_BIT + (q - HIDDEN_BIT));
        assert(n % (HIDDEN_BIT as nat) == q - HIDDEN_BIT);
        assert(n / (HIDDEN_BIT as nat) == t + 1);
        assert(significand(n) == q);
        assert(binade(n) == t);
    } else {
        assert(n == (t + 2) * HIDDEN_BIT);
        assert(n % (HIDDEN_BIT as nat) == 0);
        assert(n / (HIDDEN_BIT as nat) == t + 2);
        assert(significand(n) == HIDDEN_BIT);
        assert(binade(n) == t + 1);
        lemma_pow2_unfold(t + 1);
        assert(q * pow2(t) == HIDDEN_BIT * (2 * pow2(t))) by (nonlinear_arith)
            requires
                q == 2 * HIDDEN_BIT,
        ;
    }
}

/// Neighbouring ordinals differ by one unit of the lower one's binade.
pub proof fn lemma_quanta_step(n: nat)
    ensures
        quanta(n + 1) == quanta(n) + pow2(binade(n)),
{
    let t: nat = binade(n);
    let q: nat = significand(n);
    lemma_ordinal_parts(n);
    lemma_quanta_of_parts(t, q);
    lemma_quanta_of_parts(t, q + 1);
    assert(n + 1 == ordinal(t, q + 1));
    assert((q + 1) * pow2(t) == q * pow2(t) + pow2(t)) by (nonlinear_arith);
}

/// Larger ordinals have larger values.
pub proof fn lemma_quanta_increasing(a: nat, b: nat)
    requires
        a < b,
    ensures
        quanta(a) < quanta(b),
    decreases b - a,
{
    lemma_quanta_step(a);
    lemma_pow2_pos(binade(a));
    if a + 1 < b {
        lemma_quanta_increasing(a + 1, b);
    }
}

/// Values respect the order of ordinals, equal ordinals included.
pub proof fn lemma_quanta_monotonic(a: nat, b: nat)
    requires
        a <= b,
    ensures
        quanta(a) <= quanta(b),
{
    if a < b {
        lemma_quanta_increasing(a, b);
    }
}

} // verus!
