//! Unit conversions on double-precision measurements, with every result
//! proved to be the correctly rounded product or quotient.
//!
//! Distances convert between kilometers, meters and miles; times between
//! hours, minutes and seconds. A measurement travels as the 64-bit pattern
//! of an IEEE 754 binary64 number, and each conversion returns the pattern
//! that double-precision hardware gives for the same multiplication or
//! division: the exact result rounded once to nearest, ties to even; NaN in,
//! NaN out; an infinity stays what it is.
pub mod binary64;
pub mod bits;
pub mod laws;
pub mod rounding;
pub mod scale;

use crate::scale::{divide, multiply, scaled_by};
use vstd::arithmetic::power2::{lemma2_to64, lemma2_to64_rest};
use vstd::prelude::*;

verus! {

/// Meters in one kilometer.
pub const METERS_PER_KILOMETER: u64 = 1000;

/// Minutes in one hour.
pub const MINUTES_PER_HOUR: u64 = 60;

/// Seconds in one minute.
pub const SECONDS_PER_MINUTE: u64 = 60;

/// Encoding of the miles-per-kilometer factor, the binary64 number nearest
/// to 0.62137119224.
pub const MILE_FACTOR: u64 = 0x3FE3_E245_D6AB_1D52;

/// Numerator of the miles-per-kilometer factor: its significand.
pub const MILE_NUMERATOR: u64 = 0x0013_E245_D6AB_1D52;

/// Denominator of the miles-per-kilometer factor, `2^53`.
pub const MILE_DENOMINATOR: u64 = 0x0020_0000_0000_0000;

/// Converts kilometers to meters: the measurement times 1000.
pub fn km2m(km: u64) -> (meters: u64)
    ensures
        scaled_by(km, METERS_PER_KILOMETER as nat, 1, meters),
{
    proof {
        lemma2_to64();
    }
    multiply(km, METERS_PER_KILOMETER, 0)
}

/// Converts kilometers to miles: the measurement times the binary64 number
/// nearest to 0.62137119224.
pub fn km2mi(km: u64) -> (miles: u64)
    ensures
        scaled_by(km, MILE_NUMERATOR as nat, MILE_DENOMINATOR as nat, miles),
{
    proof {
        lemma2_to64_rest();
    }
    multiply(km, MILE_NUMERATOR, 53)
}

/// Converts hours to minutes: the measurement times 60.
pub fn hour2min(hour: u64) -> (minutes: u64)
    ensures
        scaled_by(hour, MINUTES_PER_HOUR as nat, 1, minutes),
{
    proof {
        lemma2_to64();
    }
    multiply(hour, MINUTES_PER_HOUR, 0)
}

/// Converts minutes to seconds: the measurement times 60.
pub fn min2sec(min: u64) -> (seconds: u64)
    ensures
        scaled_by(min, SECONDS_PER_MINUTE as nat, 1, seconds),
{
    proof {
        lemma2_to64();
    }
    multiply(min, SECONDS_PER_MINUTE, 0)
}

/// Converts meters to kilometers: the measurement divided by 1000.
pub fn meter2km(meter: u64) -> (kilometers: u64)
    ensures
        scaled_by(meter, 1, METERS_PER_KILOMETER as nat, kilometers),
{
    divide(meter, METERS_PER_KILOMETER)
}

} // verus!
