//! Small exact facts about powers of two, and the two executable helpers
//! that the scaling routines build on.
use vstd::arithmetic::div_mod::{lemma_fundamental_div_mod, lemma_mod_bound};
use vstd::arithmetic::power2::{
    lemma2_to64,
    lemma2_to64_rest,
    lemma_pow2_pos,
    lemma_pow2_strictly_increases,
    pow2,
};
use vstd::bits::{lemma_u64_pow2_no_overflow, lemma_u64_shl_is_mul, lemma_u64_shr_is_div};
use vstd::prelude::*;
use vstd::std_specs::bits::{axiom_u64_leading_zeros, u64_leading_zeros};

verus! {

/// Powers of two grow with the exponent.
pub proof fn lemma_pow2_monotonic(a: nat, b: nat)
    requires
        a <= b,
    ensures
        pow2(a) <= pow2(b),
{
    if a < b {
        lemma_pow2_strictly_increases(a, b);
    }
}

/// A number below one power of two and at least another has the smaller
/// exponent.
pub proof fn lemma_pow2_exponent_below(a: nat, b: nat)
    requires
        pow2(a) < pow2(b),
    ensures
        a < b,
{
    if a >= b {
        lemma_pow2_monotonic(b, a);
    }
}

/// Quotient and remainder of a division by a positive number.
pub proof fn lemma_quotient_bounds(p: nat, unit: nat)
    requires
        unit > 0,
    ensures
        p == (p / unit) * unit + p % unit,
        p % unit < unit,
{
    lemma_fundamental_div_mod(p as int, unit as int);
    lemma_mod_bound(p as int, unit as int);
    assert(unit * (p / unit) == (p / unit) * unit) by (nonlinear_arith);
}

/// The quotient of a number inside `[lo * unit, hi * unit)` lies inside
/// `[lo, hi)`.
pub proof fn lemma_quotient_range(p: nat, unit: nat, lo: nat, hi: nat)
    requires
        unit > 0,
        lo * unit <= p < hi * unit,
    ensures
        lo <= p / unit < hi,
{
    lemma_quotient_bounds(p, unit);
    let q: nat = p / unit;
    assert((q + 1) * unit == q * unit + unit) by (nonlinear_arith);
    assert(lo <= q) by (nonlinear_arith)
        requires
            lo * unit <= p,
            p < (q + 1) * unit,
            unit > 0,
    ;
    assert(q < hi) by (nonlinear_arith)
        requires
            q * unit <= p,
            p < hi * unit,
            unit > 0,
    ;
}

/// The number of binary digits of `x`: zero for zero, otherwise the position
/// of the leading one, counted from one.
pub fn bit_length(x: u64) -> (n: u32)
    ensures
        n <= 64,
        x < pow2(n as nat),
        n > 0 ==> pow2((n - 1) as nat) <= x,
{
    let zeros: u32 = x.leading_zeros();
    proof {
        axiom_u64_leading_zeros(x);
        lemma2_to64();
        lemma2_to64_rest();
        let lz: int = u64_leading_zeros(x);
        if lz > 0 {
            let shift: u64 = (64 - lz) as u64;
            lemma_u64_shr_is_div(x, shift);
            lemma_pow2_pos(shift as nat);
            lemma_quotient_bounds(x as nat, pow2(shift as nat));
        }
        if lz < 64 {
            let shift: u64 = (63 - lz) as u64;
            let top: u64 = x >> shift;
            assert(top != 0) by (bit_vector)
                requires
                    top & 1u64 != 0u64,
            ;
            lemma_u64_shr_is_div(x, shift);
            lemma_pow2_pos(shift as nat);
            lemma_quotient_bounds(x as nat, pow2(shift as nat));
            assert(pow2(shift as nat) <= x) by (nonlinear_arith)
                requires
                    x == (x as nat / pow2(shift as nat)) * pow2(shift as nat) + x as nat % pow2(
                        shift as nat,
                    ),
                    x as nat / pow2(shift as nat) >= 1,
            ;
        }
    }
    64 - zeros
}

/// The power of two with exponent `e`.
pub fn power_of_two(e: u32) -> (p: u64)
    requires
        e < 64,
    ensures
        p == pow2(e as nat),
{
    proof {
        lemma_u64_pow2_no_overflow(e as nat);
        lemma_u64_shl_is_mul(1u64, e as u64);
    }
    1u64 << e
}

} // verus!
