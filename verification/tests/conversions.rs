use unit_converter::{hour2min, km2m, km2mi, meter2km, min2sec};

fn apply(convert: fn(u64) -> u64, value: f64) -> f64 {
    f64::from_bits(convert(value.to_bits()))
}

const ALL: [fn(u64) -> u64; 5] = [km2m, km2mi, hour2min, min2sec, meter2km];

#[test]
fn test_meters_to_kilometers() {
    assert_eq!(apply(meter2km, 1000.0), 1.0);
}

#[test]
fn test_km2mi() {
    assert!((apply(km2mi, 1.0) - 0.621371).abs() < 1e-6);
}

#[test]
fn test_hour2min() {
    assert_eq!(apply(hour2min, 1.0), 60.0);
}

#[test]
fn test_min2sec() {
    assert_eq!(apply(min2sec, 1.0), 60.0);
}

#[test]
fn one_kilometer_is_a_thousand_meters() {
    assert_eq!(apply(km2m, 1.0), 1000.0);
    assert_eq!(km2m(0x3FF0_0000_0000_0000), 0x408F_4000_0000_0000);
}

#[test]
fn one_kilometer_in_miles_is_the_factor_itself() {
    assert_eq!(apply(km2mi, 1.0), 0.62137119224);
    assert_eq!(km2mi(0x3FF0_0000_0000_0000), 0x3FE3_E245_D6AB_1D52);
}

#[test]
fn one_hour_is_sixty_minutes() {
    assert_eq!(hour2min(0x3FF0_0000_0000_0000), 0x404E_0000_0000_0000);
}

#[test]
fn one_minute_is_sixty_seconds() {
    assert_eq!(min2sec(0x3FF0_0000_0000_0000), 0x404E_0000_0000_0000);
}

#[test]
fn a_thousand_meters_is_one_kilometer() {
    assert_eq!(meter2km(0x408F_4000_0000_0000), 0x3FF0_0000_0000_0000);
}

#[test]
fn exact_formula_values() {
    assert_eq!(apply(km2m, 2.5), 2500.0);
    assert_eq!(apply(km2m, -0.75), -750.0);
    assert_eq!(apply(hour2min, 1.5), 90.0);
    assert_eq!(apply(hour2min, 24.0), 1440.0);
    assert_eq!(apply(min2sec, 0.25), 15.0);
    assert_eq!(apply(min2sec, -2.0), -120.0);
    assert_eq!(apply(meter2km, 500.0), 0.5);
    assert_eq!(apply(meter2km, -42195.0), -42.195);
    assert_eq!(apply(km2mi, 100.0), 62.137119224);
    assert_eq!(apply(km2mi, 42.195), 42.195 * 0.62137119224);
}

#[test]
fn inexact_results_round_to_nearest() {
    assert_eq!(apply(km2m, 0.1), 100.0);
    assert_eq!(apply(km2m, 0.001), 1.0);
    assert_eq!(apply(meter2km, 1.0), 0.001);
    assert_eq!(apply(meter2km, 3.0), 0.003);
    assert_eq!(apply(hour2min, 0.1), 6.0);
    assert_eq!(apply(min2sec, 1.0 / 3.0), 20.0);
}

#[test]
fn zero_maps_to_zero() {
    for convert in ALL {
        assert_eq!(convert(0), 0);
        assert_eq!(apply(convert, 0.0), 0.0);
    }
}

#[test]
fn negative_zero_keeps_its_sign() {
    for convert in ALL {
        assert_eq!(convert(0x8000_0000_0000_0000), 0x8000_0000_0000_0000);
        assert!(apply(convert, -0.0).is_sign_negative());
    }
}

#[test]
fn infinity_stays_infinity() {
    for convert in ALL {
        assert_eq!(apply(convert, f64::INFINITY), f64::INFINITY);
        assert_eq!(apply(convert, f64::NEG_INFINITY), f64::NEG_INFINITY);
    }
}

#[test]
fn nan_propagates_quieted() {
    for convert in ALL {
        assert!(apply(convert, f64::NAN).is_nan());
        assert_eq!(convert(0x7FF0_0000_0000_0001), 0x7FF8_0000_0000_0001);
        assert_eq!(convert(0xFFF4_0000_0000_00AB), 0xFFFC_0000_0000_00AB);
        assert_eq!(convert(0x7FFF_FFFF_FFFF_FFFF), 0x7FFF_FFFF_FFFF_FFFF);
    }
}

#[test]
fn products_overflow_to_infinity() {
    assert_eq!(apply(km2m, 1e308), f64::INFINITY);
    assert_eq!(apply(km2m, -1e308), f64::NEG_INFINITY);
    assert_eq!(apply(km2m, f64::MAX), f64::INFINITY);
    assert_eq!(apply(hour2min, f64::MAX / 59.0), f64::INFINITY);
    assert_eq!(apply(min2sec, f64::MAX / 60.0), f64::MAX / 60.0 * 60.0);
    assert_eq!(apply(km2m, f64::MAX / 1000.0), f64::MAX / 1000.0 * 1000.0);
    assert!(apply(km2mi, f64::MAX).is_finite());
    assert!(apply(meter2km, f64::MAX).is_finite());
}

#[test]
fn overflow_threshold_rounds_as_hardware_does() {
    // The largest finite number is 0x7FEF_FFFF_FFFF_FFFF; walk the inputs
    // around the one whose product first reaches infinity.
    let edge = (f64::MAX / 1000.0).to_bits();
    for bits in edge - 8..=edge + 8 {
        let expected = (f64::from_bits(bits) * 1000.0).to_bits();
        assert_eq!(km2m(bits), expected);
    }
    let edge = (f64::MAX / 60.0).to_bits();
    for bits in edge - 8..=edge + 8 {
        let expected = (f64::from_bits(bits) * 60.0).to_bits();
        assert_eq!(hour2min(bits), expected);
        assert_eq!(min2sec(bits), expected);
    }
}

#[test]
fn subnormal_inputs_and_results() {
    let tiny = f64::from_bits(1);
    assert_eq!(apply(km2m, tiny), f64::from_bits(1000));
    assert_eq!(apply(hour2min, tiny), f64::from_bits(60));
    assert_eq!(apply(meter2km, tiny), 0.0);
    assert_eq!(apply(km2mi, tiny), tiny);
    assert_eq!(apply(meter2km, f64::from_bits(500)), 0.0);
    assert_eq!(apply(meter2km, f64::from_bits(501)), tiny);
    assert_eq!(apply(meter2km, f64::from_bits(1500)), f64::from_bits(2));
    assert_eq!(apply(meter2km, f64::from_bits(2500)), f64::from_bits(2));
    assert_eq!(apply(meter2km, f64::MIN_POSITIVE), f64::MIN_POSITIVE / 1000.0);
    assert_eq!(apply(km2m, f64::MIN_POSITIVE / 1000.0), f64::MIN_POSITIVE / 1000.0 * 1000.0);
    assert_eq!(apply(km2mi, f64::MIN_POSITIVE), f64::MIN_POSITIVE * 0.62137119224);
}

#[test]
fn round_trip_on_typical_magnitudes() {
    let mut hundredths = 0u32;
    while hundredths < 200_000 {
        let km = f64::from(hundredths) / 100.0;
        assert_eq!(apply(meter2km, apply(km2m, km)), km);
        assert_eq!(apply(meter2km, apply(km2m, -km)), -km);
        hundredths += 1;
    }
}

#[test]
fn round_trip_on_exact_products() {
    let mut whole = 0u64;
    while whole < 100_000 {
        let km = (whole * 7919) as f64;
        let meters = km2m(km.to_bits());
        assert_eq!(f64::from_bits(meters), (whole * 7919 * 1000) as f64);
        assert_eq!(meter2km(meters), km.to_bits());
        whole += 1;
    }
}

#[test]
fn round_trip_can_miss_after_a_rounded_product() {
    let km = 4.074848159348841e-81;
    let back = apply(meter2km, apply(km2m, km));
    assert_eq!(back, km * 1000.0 / 1000.0);
    assert_ne!(back, km);
}

#[test]
fn conversions_are_linear_within_tolerance() {
    let values = [0.5, 1.0, 3.25, 17.0, 1234.5678, -9.81, 6.02214076e23, 1.6e-19];
    let scalars = [2.0, -1.0, 0.1, 3.0, 1e6, 7.5e-4];
    for convert in ALL {
        for x in values {
            for s in scalars {
                let left = apply(convert, s * x);
                let right = s * apply(convert, x);
                assert!((left - right).abs() <= 4.0 * f64::EPSILON * left.abs());
            }
        }
    }
}

#[test]
fn scaling_by_a_power_of_two_is_exactly_linear() {
    let values = [0.1, 1.0, 3.7, 1234.5678, -9.81];
    for convert in ALL {
        for x in values {
            assert_eq!(apply(convert, 8.0 * x), 8.0 * apply(convert, x));
            assert_eq!(apply(convert, 0.25 * x), 0.25 * apply(convert, x));
        }
    }
}

#[test]
fn same_input_gives_same_bits() {
    for convert in ALL {
        assert_eq!(convert(0x4005_BF0A_8B14_5769), convert(0x4005_BF0A_8B14_5769));
    }
}
