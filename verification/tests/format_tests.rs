use pretty_dtoa::{digits_to_a, FmtFloatConfig};

/// Convert a double-precision value to a string: special values render as
/// fixed tokens, and finite values go through the shortest-digit generator
/// and then the configurable renderer.
fn dtoa(value: f64, config: FmtFloatConfig) -> String {
    if value.is_nan() {
        return "NaN".to_string();
    } else if value.is_infinite() {
        return "inf".to_string();
    }
    let rad_10 = ryu_floating_decimal::d2d(value);
    let sign = value.is_sign_negative();
    let s = format!("{}", rad_10.mantissa);
    let exp = rad_10.exponent + s.len() as i32;
    digits_to_a(sign, s.into_bytes(), exp, config)
}

#[test]
fn test_max_sig_digits() {
    let config = FmtFloatConfig::default().round().max_significant_digits(5);
    assert_eq!(dtoa(3.111111, config), "3.1111");
    assert_eq!(dtoa(123.4567, config), "123.46");
    assert_eq!(dtoa(0.0001234567, config), "0.00012346");
    assert_eq!(dtoa(22.29999, config), "22.3");
    assert_eq!(dtoa(4.1, config), "4.1");
    let config = FmtFloatConfig::default().truncate().max_significant_digits(4);
    assert_eq!(dtoa(3.999999, config), "3.999");
    assert_eq!(dtoa(555.5555, config), "555.5");
    assert_eq!(dtoa(923.1, config), "923.1");
}

#[test]
fn test_min_sig_digits() {
    let config = FmtFloatConfig::default().min_significant_digits(5);
    assert_eq!(dtoa(3.111111, config), "3.111111");
    assert_eq!(dtoa(12.0, config), "12.000");
    assert_eq!(dtoa(340.0, config), "340.00");
    assert_eq!(dtoa(123.4567, config), "123.4567");
    assert_eq!(dtoa(0.00123, config), "0.0012300");
}

#[test]
fn test_max_decimal_digits() {
    let config = FmtFloatConfig::default().max_decimal_digits(3).round();
    assert_eq!(dtoa(3.41214, config), "3.412");
    assert_eq!(dtoa(3.4129, config), "3.413");
    assert_eq!(dtoa(3.4999, config), "3.5");
    assert_eq!(dtoa(1293.4129, config), "1293.413");
    assert_eq!(dtoa(203.4999, config), "203.5");
    assert_eq!(dtoa(0.002911, config), "0.003");
    let config = FmtFloatConfig::default().max_decimal_digits(3).truncate();
    assert_eq!(dtoa(3.41214, config), "3.412");
    assert_eq!(dtoa(3.4129, config), "3.412");
    assert_eq!(dtoa(3.4999, config), "3.499");
    assert_eq!(dtoa(393.4129, config), "393.412");
    let config = FmtFloatConfig::default()
        .max_decimal_digits(-3)
        .truncate()
        .force_no_e_notation()
        .add_point_zero(true);
    assert_eq!(dtoa(123123.0, config), "123000.0");
    assert_eq!(dtoa(99999.0, config), "99000.0");
    let config = FmtFloatConfig::default()
        .max_decimal_digits(-3)
        .round()
        .force_no_e_notation()
        .add_point_zero(true);
    assert_eq!(dtoa(123123.0, config), "123000.0");
    assert_eq!(dtoa(123923.0, config), "124000.0");
    assert_eq!(dtoa(99999.0, config), "100000.0");
}

#[test]
fn test_min_decimal_digits() {
    let config = FmtFloatConfig::default().min_decimal_digits(3);
    assert_eq!(dtoa(3.4, config), "3.400");
    assert_eq!(dtoa(10.0, config), "10.000");
    assert_eq!(dtoa(100.0, config), "100.000");
    let config = FmtFloatConfig::default().min_decimal_digits(5);
    assert_eq!(dtoa(0.023, config), "0.02300");
    assert_eq!(dtoa(0.123, config), "0.12300");
    assert_eq!(dtoa(0.12345678, config), "0.12345678");
}

#[test]
fn test_upper_e_break() {
    let config = FmtFloatConfig::default().upper_e_break(3);
    assert_eq!(dtoa(23.4, config), "23.4");
    assert_eq!(dtoa(892.3, config), "892.3");
    assert_eq!(dtoa(1892.3, config), "1.8923e3");
    assert_eq!(dtoa(71892.3, config), "7.18923e4");
}

#[test]
fn test_lower_e_break() {
    let config = FmtFloatConfig::default().lower_e_break(-3);
    assert_eq!(dtoa(0.123, config), "0.123");
    assert_eq!(dtoa(0.0123, config), "0.0123");
    assert_eq!(dtoa(0.00123, config), "0.00123");
    assert_eq!(dtoa(0.000123, config), "1.23e-4");
    assert_eq!(dtoa(0.0000123, config), "1.23e-5");
}

#[test]
fn test_ignore_extremes() {
    let config = FmtFloatConfig::default().ignore_extremes(3);
    assert_eq!(dtoa(12.1992, config), "12.1992");
    assert_eq!(dtoa(12.199921, config), "12.2");
    assert_eq!(dtoa(12.1002, config), "12.1002");
    assert_eq!(dtoa(12.10002, config), "12.1");
    let config = FmtFloatConfig::default().ignore_extremes(3).add_point_zero(true);
    assert_eq!(dtoa(99.99, config), "100.0");
}

#[test]
fn test_force_e_notation() {
    let config = FmtFloatConfig::default().force_e_notation();
    assert_eq!(dtoa(1.0, config), "1.0e0");
    assert_eq!(dtoa(15.0, config), "1.5e1");
    assert_eq!(dtoa(0.150, config), "1.5e-1");
}

#[test]
fn test_force_no_e_notation() {
    let config = FmtFloatConfig::default().force_no_e_notation().add_point_zero(false);
    let s = format!("{}", 1.123e20);
    assert_eq!(dtoa(1.123e20, config), s);
    let s = format!("{}", 1.123e-20);
    assert_eq!(dtoa(1.123e-20, config), s);
}

#[test]
fn test_capitalize_e() {
    let config = FmtFloatConfig::default().capitalize_e(true);
    assert_eq!(dtoa(1.2e8, config), "1.2E8");
}

#[test]
fn test_add_point_zero() {
    let config = FmtFloatConfig::default().add_point_zero(true);
    assert_eq!(dtoa(1230.0, config), "1230.0");
    assert_eq!(dtoa(129.0, config), "129.0");
    assert_eq!(dtoa(12.2, config), "12.2");
    let config = FmtFloatConfig::default().add_point_zero(false);
    assert_eq!(dtoa(1230.0, config), "1230");
    assert_eq!(dtoa(129.0, config), "129");
    assert_eq!(dtoa(12.2, config), "12.2");
}

#[test]
fn test_max_width_specifics() {
    let config = FmtFloatConfig::default().max_width(6).force_no_e_notation();
    assert_eq!(dtoa(123.4533, config), "123.45");
    assert_eq!(dtoa(0.00324, config), "0.0032");
    assert_eq!(dtoa(-0.0324, config), "-0.032");
    let config = FmtFloatConfig::default().max_width(8).force_no_e_notation();
    assert_eq!(dtoa(3.24e-10, config), "3.24e-10");
    assert_eq!(dtoa(3.24e10, config), "3.24e10");
}

#[test]
fn test_radix_point() {
    let config = FmtFloatConfig::default().radix_point(',').add_point_zero(true);
    assert_eq!(dtoa(123.4, config), "123,4");
    assert_eq!(dtoa(1.3e10, config), "1,3e10");
    assert_eq!(dtoa(123.0, config), "123,0");
}
