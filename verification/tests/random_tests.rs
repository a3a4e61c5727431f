use pretty_dtoa::{digits_to_a, FmtFloatConfig};
use rand::Rng;

/// Convert a double-precision value to a string: special values render as
/// fixed tokens, and finite values go through the shortest-digit generator
/// and then the configurable renderer.
fn dtoa(value: f64, config: FmtFloatConfig) -> String {
    if value.is_nan() {
        return "NaN".to_string();
    } else if value.is_infinite() {
        return "inf".to_string();
    }
    let rad_10 = ryu_floating_decimal::d2d(value);
    let sign = value.is_sign_negative();
    let s = format!("{}", rad_10.mantissa);
    let exp = rad_10.exponent + s.len() as i32;
    digits_to_a(sign, s.into_bytes(), exp, config)
}

/// Single-precision equivalent of `dtoa`, with a signed infinity token.
fn ftoa(value: f32, config: FmtFloatConfig) -> String {
    if value.is_nan() {
        return "NaN".to_string();
    } else if value.is_infinite() {
        if value.is_sign_positive() {
            return "inf".to_string();
        } else {
            return "-inf".to_string();
        }
    }
    let rad_10 = ryu_floating_decimal::f2d(value);
    let sign = value.is_sign_negative();
    let s = format!("{}", rad_10.mantissa);
    let exp = rad_10.exponent + s.len() as i32;
    digits_to_a(sign, s.into_bytes(), exp, config)
}

#[test]
fn test_ftoa_values() {
    let config = FmtFloatConfig::default();
    assert_eq!(ftoa(1.5f32, config), "1.5");
    assert_eq!(ftoa(-0.25f32, config), "-0.25");
    assert_eq!(ftoa(12091e-3f32, config), "12.091");
    assert_eq!(ftoa(f32::NAN, config), "NaN");
    assert_eq!(ftoa(f32::INFINITY, config), "inf");
    assert_eq!(ftoa(f32::NEG_INFINITY, config), "-inf");
}

#[test]
fn test_widths() {
    // Test random floats with several configurations, and
    // make sure that .max_width(_) does its job
    let mut rng = rand::thread_rng();

    let configs = &[
        FmtFloatConfig::default(),
        FmtFloatConfig::default().force_no_e_notation(),
        FmtFloatConfig::default().add_point_zero(true),
        FmtFloatConfig::default().truncate().force_e_notation().min_significant_digits(5),
    ];

    for width in 6..=13 {
        for i in 0..20000 {
            let config = configs[i % configs.len()].max_width(width);
            let val = f64::from_bits(rng.gen::<u64>());
            if val > 0.0 && val <= 9e-99 && width == 6 {
                // unrepresentable
                continue;
            }
            if val < 0.0 && val >= -9e-9 && width == 6 {
                // unrepresentable
                continue;
            }
            if val <= -1e100 && width == 6 {
                // unrepresentable
                continue;
            }
            if val.is_nan() {
                continue;
            }
            let as_string = dtoa(val, config);
            assert!(
                as_string.len() <= width as usize,
                "Found bad example for string width: '{}' at width {} gives {}",
                val,
                width,
                as_string
            );
        }
    }
}

#[test]
fn test_round_trip_dtoa() {
    // Make sure random floats with several configurations
    // round trip perfectly
    let mut rng = rand::thread_rng();

    let configs = &[
        FmtFloatConfig::default(),
        FmtFloatConfig::default().force_no_e_notation().add_point_zero(true),
        FmtFloatConfig::default().force_e_notation(),
    ];
    for _ in 0..20000 {
        for config in configs.iter().cloned() {
            let val = f64::from_bits(rng.gen::<u64>());
            if val.is_nan() {
                continue;
            }
            let as_string = dtoa(val, config);
            let round = as_string.parse::<f64>().unwrap();
            assert!(
                round == val,
                "Found bad example for round trip: value '{}' gives string '{}' which turns into value '{}'",
                val,
                as_string,
                round
            );
        }
    }
}

#[test]
fn test_round_trip_ftoa() {
    // Test round tripping for random f32's
    let mut rng = rand::thread_rng();

    let configs = &[
        FmtFloatConfig::default(),
        FmtFloatConfig::default().force_no_e_notation().add_point_zero(true),
        FmtFloatConfig::default().force_e_notation(),
    ];
    for _ in 0..20000 {
        for config in configs.iter().cloned() {
            let val = f32::from_bits(rng.gen::<u32>());
            if val.is_nan() {
                continue;
            }
            let as_string = ftoa(val, config);
            let round = as_string.parse::<f32>().unwrap();
            assert!(
                round == val,
                "Found bad example for round trip: value '{}' gives string '{}' which turns into value '{}'",
                val,
                as_string,
                round
            );
        }
    }
}
