use pretty_dtoa::{digit_to_u8, digits_to_a, FmtFloatConfig, RoundMode};
use rand::Rng;

/// Convert a double-precision value to a string: special values render as
/// fixed tokens, and finite values go through the shortest-digit generator
/// and then the configurable renderer.
fn dtoa(value: f64, config: FmtFloatConfig) -> String {
    if value.is_nan() {
        return "NaN".to_string();
    } else if value.is_infinite() {
        return "inf".to_string();
    }
    let rad_10 = ryu_floating_decimal::d2d(value);
    let sign = value.is_sign_negative();
    let s = format!("{}", rad_10.mantissa);
    let exp = rad_10.exponent + s.len() as i32;
    digits_to_a(sign, s.into_bytes(), exp, config)
}

/// The count of significant digits in a plain or scientific decimal
/// string: the digits of the part before any exponent marker, with the
/// sign and radix point dropped and leading and trailing zeros stripped.
fn sig_digit_count(s: &str) -> usize {
    let mantissa: &str = s.split(['e', 'E']).next().unwrap();
    let digits: Vec<char> = mantissa.chars().filter(|c| c.is_ascii_digit()).collect();
    let stripped: Vec<char> = digits
        .iter()
        .cloned()
        .skip_while(|c| *c == '0')
        .collect();
    let count = stripped.iter().rposition(|c| *c != '0').map(|p| p + 1).unwrap_or(0);
    if count == 0 {
        1
    } else {
        count
    }
}

#[test]
fn test_config_builders() {
    let base = FmtFloatConfig::default();
    assert_eq!(base.max_sig_digits, None);
    assert_eq!(base.min_sig_digits, None);
    assert_eq!(base.max_decimal_digits, None);
    assert_eq!(base.min_decimal_digits, None);
    assert_eq!(base.upper_e_break, 4);
    assert_eq!(base.lower_e_break, -4);
    assert_eq!(base.ignore_extremes, None);
    assert_eq!(base.round_mode, RoundMode::Round);
    assert!(!base.force_e_notation);
    assert!(!base.force_no_e_notation);
    assert!(!base.capitalize_e);
    assert!(base.add_point_zero);
    assert_eq!(base.max_width, None);
    assert_eq!(base.radix_point, '.');

    assert_eq!(base.max_significant_digits(5).max_sig_digits, Some(5));
    assert_eq!(base.min_significant_digits(3).min_sig_digits, Some(3));
    assert_eq!(base.max_decimal_digits(-2).max_decimal_digits, Some(-2));
    assert_eq!(base.min_decimal_digits(4).min_decimal_digits, Some(4));
    assert_eq!(base.upper_e_break(7).upper_e_break, 7);
    assert_eq!(base.lower_e_break(-7).lower_e_break, -7);
    assert_eq!(base.ignore_extremes(3).ignore_extremes, Some(3));
    assert_eq!(base.truncate().round_mode, RoundMode::Truncate);
    assert_eq!(base.truncate().round().round_mode, RoundMode::Round);
    assert_eq!(base.capitalize_e(true).capitalize_e, true);
    assert_eq!(base.add_point_zero(false).add_point_zero, false);
    assert_eq!(base.max_width(9).max_width, Some(9));
    assert_eq!(base.max_width(9).no_max_width().max_width, None);
    assert_eq!(base.radix_point(',').radix_point, ',');

    // the two notation overrides clear each other
    let forced = base.force_no_e_notation().force_e_notation();
    assert!(forced.force_e_notation && !forced.force_no_e_notation);
    let unforced = base.force_e_notation().force_no_e_notation();
    assert!(unforced.force_no_e_notation && !unforced.force_e_notation);
}

#[test]
fn test_digit_to_u8_values() {
    assert_eq!(digit_to_u8(0), b'0');
    assert_eq!(digit_to_u8(5), b'5');
    assert_eq!(digit_to_u8(9), b'9');
}

#[test]
fn test_digits_to_a_direct() {
    let config = FmtFloatConfig::default();
    // 0.123 * 10^3 == 123
    assert_eq!(digits_to_a(false, vec![b'1', b'2', b'3'], 3, config), "123.0");
    assert_eq!(digits_to_a(true, vec![b'1', b'2', b'3'], 3, config), "-123.0");
    // the single zero digit
    assert_eq!(digits_to_a(false, vec![b'0'], 1, config), "0.0");
    // 0.123 * 10^0 == 0.123
    assert_eq!(digits_to_a(false, vec![b'1', b'2', b'3'], 0, config), "0.123");
}

#[test]
fn test_carry_collapse() {
    // rounding 999 at two significant digits collapses to a single 1 with
    // the exponent bumped
    let config = FmtFloatConfig::default().max_significant_digits(2).round();
    assert_eq!(digits_to_a(false, vec![b'9', b'9', b'9'], 3, config), "1000.0");
    // the same collapse through the decimal-digit cap
    let config = FmtFloatConfig::default().max_decimal_digits(0).round();
    assert_eq!(digits_to_a(false, vec![b'9', b'5'], 1, config), "10.0");
    // the full cascade on 3.999999: rounding at four significant digits
    // carries through every nine
    let config = FmtFloatConfig::default().round().max_significant_digits(4);
    assert_eq!(dtoa(3.999999, config), "4.0");
}

#[test]
fn test_degenerate_configs() {
    // a significant-digit limit of zero empties the digits entirely
    let config = FmtFloatConfig::default().max_significant_digits(0).truncate();
    assert_eq!(digits_to_a(false, vec![b'5', b'5'], 1, config), "0.0");
    // with rounding, the carry brings back a single 1
    let config = FmtFloatConfig::default().max_significant_digits(0).round();
    assert_eq!(digits_to_a(false, vec![b'5', b'5'], 1, config), "10.0");
    // a run limit of zero triggers on the very first extreme digit
    let config = FmtFloatConfig::default().ignore_extremes(0);
    assert_eq!(digits_to_a(false, vec![b'9', b'5'], 1, config), "10.0");
    let config = FmtFloatConfig::default().ignore_extremes(0).add_point_zero(false);
    assert_eq!(digits_to_a(false, vec![b'0'], 1, config), "0");
}

#[test]
fn test_tiny_width_budgets() {
    // a width too small for anything still renders, best effort
    let config = FmtFloatConfig::default().max_width(0);
    assert_eq!(digits_to_a(true, vec![b'5'], 1, config), "-5.e0");
    let config = FmtFloatConfig::default().max_width(3);
    assert_eq!(digits_to_a(false, vec![b'1', b'2', b'3', b'4'], 1, config), "1.2");
    // the one shape where the radix point is dropped to fit: sign plus
    // digit plus marker plus a four-character exponent at width seven
    let config = FmtFloatConfig::default().max_width(7);
    assert_eq!(dtoa(-9.9e-300, config), "-9e-300");
    assert_eq!(dtoa(-1.5e200, config), "-1e200");
}

#[test]
fn test_e_notation_details() {
    let config = FmtFloatConfig::default().force_e_notation().capitalize_e(true);
    assert_eq!(digits_to_a(false, vec![b'7'], 1, config), "7.0E0");
    let config = FmtFloatConfig::default().force_e_notation().radix_point(',');
    assert_eq!(digits_to_a(false, vec![b'7', b'5'], -2, config), "7,5e-3");
}

#[test]
fn test_round_trip_exact_values() {
    let config = FmtFloatConfig::default();
    let values = [
        f64::MAX,
        f64::MIN,
        f64::MIN_POSITIVE,
        1.0,
        -1.0,
        0.1,
        3.141592653589793,
        2.2250738585072014e-308,
        1e300,
        -123456789.123456789,
    ];
    for v in values {
        let s = dtoa(v, config);
        assert_eq!(s.parse::<f64>().unwrap(), v, "value {} printed as {}", v, s);
    }
    assert_eq!(dtoa(f64::NAN, config), "NaN");
    assert_eq!(dtoa(f64::INFINITY, config), "inf");
}

#[test]
fn test_shortest_digit_count() {
    // the standard library also prints the shortest digit sequence that
    // round-trips, so the significant digit counts must agree
    let config = FmtFloatConfig::default();
    let values = [
        1.0,
        100.0,
        0.00123,
        3.141592653589793,
        1e-5,
        123456.789,
        2.2250738585072014e-308,
        9.109383e-31,
        6.02214076e23,
    ];
    for v in values {
        let ours = dtoa(v, config);
        let std_s = format!("{}", v);
        assert_eq!(
            sig_digit_count(&ours),
            sig_digit_count(&std_s),
            "value {}: '{}' vs '{}'",
            v,
            ours,
            std_s
        );
    }
    let mut rng = rand::thread_rng();
    for _ in 0..20000 {
        let v = f64::from_bits(rng.gen::<u64>());
        if !v.is_finite() || v == 0.0 {
            continue;
        }
        let ours = dtoa(v, config);
        let std_s = format!("{}", v);
        assert_eq!(
            sig_digit_count(&ours),
            sig_digit_count(&std_s),
            "value {}: '{}' vs '{}'",
            v,
            ours,
            std_s
        );
    }
}

#[test]
fn test_width_bound_deterministic() {
    // the width budget holds across notations for ordinary magnitudes
    let values = [
        123.4533, -123.4533, 0.00324, -0.0324, 3.24e10, 3.24e-10, 99999.0, 1.0, -1.0,
        f64::MAX, -1e300,
    ];
    for width in 7..=13 {
        for v in values {
            let config = FmtFloatConfig::default().truncate().max_width(width);
            let s = dtoa(v, config);
            assert!(
                s.len() <= width as usize,
                "value {} at width {} gives '{}'",
                v,
                width,
                s
            );
        }
    }
}
