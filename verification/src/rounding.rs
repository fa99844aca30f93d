//! Rounding to nearest, ties to even, stated over ordinals.
//!
//! The exact result of a conversion is a fraction `num / den` of quanta. The
//! rounded result is the ordinal whose value lies nearest to that fraction;
//! where two ordinals are equally near, it is the even one. The grid ends at
//! `INFINITY`, whose value is one binade above the largest finite number, so
//! a fraction that lies at least half a step past the largest finite number
//! rounds to infinity, as IEEE 754 prescribes.
use crate::binary64::{
    lemma_quanta_increasing,
    lemma_quanta_monotonic,
    lemma_quanta_of_parts,
    ordinal,
    quanta,
    HIDDEN_BIT,
    INFINITY,
};
use vstd::arithmetic::power2::{lemma_pow2_pos, pow2};
use vstd::prelude::*;

verus! {

/// Distance between the fraction `num / den` and the value of ordinal `n`,
/// scaled by `den`.
pub open spec fn gap(num: nat, den: nat, n: nat) -> nat {
    if num >= quanta(n) * den {
        (num - quanta(n) * den) as nat
    } else {
        (quanta(n) * den - num) as nat
    }
}

/// Whether `n` is the ordinal to which `num / den` rounds: no ordinal up to
/// infinity lies nearer, and any other that lies as near leaves `n` even.
pub open spec fn nearest(num: nat, den: nat, n: nat) -> bool {
    &&& n <= INFINITY
    &&& forall|k: nat| k <= INFINITY ==> gap(num, den, n) <= #[trigger] gap(num, den, k)
    &&& forall|k: nat|
        k <= INFINITY && k != n && #[trigger] gap(num, den, k) == gap(num, den, n) ==> n % 2 == 0
}

/// Scaling by a positive denominator keeps the order of values.
pub proof fn lemma_scaled_quanta_increasing(a: nat, b: nat, den: nat)
    requires
        a < b,
        den > 0,
    ensures
        quanta(a) * den < quanta(b) * den,
{
    lemma_quanta_increasing(a, b);
    assert(quanta(a) * den < quanta(b) * den) by (nonlinear_arith)
        requires
            quanta(a) < quanta(b),
            den > 0,
    ;
}

/// A fraction rounds to one ordinal only.
pub proof fn lemma_nearest_unique(num: nat, den: nat, a: nat, b: nat)
    requires
        den > 0,
        nearest(num, den, a),
        nearest(num, den, b),
    ensures
        a == b,
{
    if a != b {
        let lo: nat = if a < b { a } else { b };
        let hi: nat = if a < b { b } else { a };
        assert(gap(num, den, lo) <= gap(num, den, hi));
        assert(gap(num, den, hi) <= gap(num, den, lo));
        assert(lo % 2 == 0 && hi % 2 == 0);
        let mid: nat = lo + 1;
        assert(mid < hi);
        lemma_scaled_quanta_increasing(lo, mid, den);
        lemma_scaled_quanta_increasing(mid, hi, den);
        assert(gap(num, den, lo) <= gap(num, den, mid));
        assert(false);
    }
}

/// A fraction that lies between two neighbouring ordinals rounds to the one
/// that `up` selects, provided `up` follows the nearer side and, on a tie,
/// the even ordinal.
pub proof fn lemma_nearest_between(num: nat, den: nat, n: nat, up: bool)
    requires
        den > 0,
        n < INFINITY,
        quanta(n) * den <= num < quanta(n + 1) * den,
        up <==> {
            ||| num - quanta(n) * den > quanta(n + 1) * den - num
            ||| (num - quanta(n) * den == quanta(n + 1) * den - num && n % 2 == 1)
        },
    ensures
        nearest(num, den, if up { n + 1 } else { n }),
{
    let r: nat = if up { n + 1 } else { n };
    assert forall|k: nat| k <= INFINITY implies gap(num, den, r) <= #[trigger] gap(
        num,
        den,
        k,
    ) by {
        if k < n {
            lemma_scaled_quanta_increasing(k, n, den);
        } else if k > n + 1 {
            lemma_scaled_quanta_increasing(n + 1, k, den);
        }
    }
    assert forall|k: nat|
        k <= INFINITY && k != r && #[trigger] gap(num, den, k) == gap(num, den, r) implies r % 2
        == 0 by {
        if k < n {
            lemma_scaled_quanta_increasing(k, n, den);
        } else if k > n + 1 {
            lemma_scaled_quanta_increasing(n + 1, k, den);
        }
    }
}

/// A fraction at or beyond the value that stands for overflow rounds to
/// infinity.
pub proof fn lemma_nearest_overflow(num: nat, den: nat)
    requires
        den > 0,
        quanta(INFINITY as nat) * den <= num,
    ensures
        nearest(num, den, INFINITY as nat),
{
    assert forall|k: nat| k <= INFINITY implies gap(num, den, INFINITY as nat) <= #[trigger] gap(
        num,
        den,
        k,
    ) by {
        if k < INFINITY {
            lemma_scaled_quanta_increasing(k, INFINITY as nat, den);
        }
    }
    assert forall|k: nat|
        k <= INFINITY && k != INFINITY as nat && #[trigger] gap(num, den, k) == gap(
            num,
            den,
            INFINITY as nat,
        ) implies INFINITY as nat % 2 == 0 by {
        lemma_scaled_quanta_increasing(k, INFINITY as nat, den);
    }
}

/// A fraction that is the value of an ordinal rounds to that ordinal.
pub proof fn lemma_nearest_exact(num: nat, den: nat, n: nat)
    requires
        den > 0,
        n <= INFINITY,
        num == quanta(n) * den,
    ensures
        nearest(num, den, n),
{
    assert forall|k: nat| k <= INFINITY && k != n implies #[trigger] gap(num, den, k) > 0 by {
        if k < n {
            lemma_scaled_quanta_increasing(k, n, den);
        } else {
            lemma_scaled_quanta_increasing(n, k, den);
        }
    }
}

/// The exact value `p * b` lies between `q * g` and `(q + 1) * g` once all are
/// scaled by `den`, at distances given by the remainder `rem` of `p` by `unit`.
pub proof fn lemma_bracket(p: nat, q: nat, unit: nat, rem: nat, b: nat, g: nat, den: nat)
    requires
        p == q * unit + rem,
        rem < unit,
        g * den == unit * b,
        b > 0,
    ensures
        (q * g) * den + rem * b == p * b,
        p * b + (unit - rem) * b == ((q + 1) * g) * den,
        (unit - rem) * b > 0,
        rem * b > (unit - rem) * b <==> 2 * rem > unit,
        rem * b == (unit - rem) * b <==> 2 * rem == unit,
{
    assert((q * g) * den == q * (unit * b)) by (nonlinear_arith)
        requires
            g * den == unit * b,
    ;
    assert(((q + 1) * g) * den == q * (unit * b) + unit * b) by (nonlinear_arith)
        requires
            g * den == unit * b,
    ;
    assert(p * b == q * (unit * b) + rem * b) by (nonlinear_arith)
        requires
            p == q * unit + rem,
    ;
    assert((unit - rem) * b == unit * b - rem * b) by (nonlinear_arith);
    assert((unit - rem) * b > 0) by (nonlinear_arith)
        requires
            rem < unit,
            b > 0,
    ;
    assert(rem * b > (unit - rem) * b <==> 2 * rem > unit) by (nonlinear_arith)
        requires
            b > 0,
    ;
    assert(rem * b == (unit - rem) * b <==> 2 * rem == unit) by (nonlinear_arith)
        requires
            b > 0,
    ;
}

/// Rounds the exact value `p * 2^s / den` to an ordinal, given the ordinal
/// `ordinal(t, q)` just below it and the remainder that tells how far below.
pub proof fn lemma_round_bracket(
    num: nat,
    den: nat,
    p: nat,
    q: nat,
    unit: nat,
    rem: nat,
    s: nat,
    t: nat,
    up: bool,
)
    requires
        den > 0,
        num == p * pow2(s),
        p == q * unit + rem,
        rem < unit,
        pow2(t) * den == unit * pow2(s),
        q < 2 * HIDDEN_BIT,
        t > 0 ==> q >= HIDDEN_BIT,
        up <==> (2 * rem > unit || (2 * rem == unit && q % 2 == 1)),
    ensures
        ordinal(t, q) >= INFINITY ==> nearest(num, den, INFINITY as nat),
        ordinal(t, q) < INFINITY ==> nearest(
            num,
            den,
            if up {
                ordinal(t, q) + 1
            } else {
                ordinal(t, q)
            },
        ),
{
    let n: nat = ordinal(t, q);
    lemma_pow2_pos(s);
    lemma_quanta_of_parts(t, q);
    lemma_quanta_of_parts(t, q + 1);
    assert(n + 1 == ordinal(t, q + 1));
    lemma_bracket(p, q, unit, rem, pow2(s), pow2(t), den);
    assert(quanta(n) * den <= num);
    assert(num < quanta(n + 1) * den);
    if n >= INFINITY {
        lemma_quanta_monotonic(INFINITY as nat, n);
        assert(quanta(INFINITY as nat) * den <= quanta(n) * den) by (nonlinear_arith)
            requires
                quanta(INFINITY as nat) <= quanta(n),
        ;
        lemma_nearest_overflow(num, den);
    } else {
        assert(n % 2 == q % 2);
        lemma_nearest_between(num, den, n, up);
    }
}

} // verus!
