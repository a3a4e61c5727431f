use vstd::prelude::*;

verus! {

/// What to do with the first digit that falls past a cutoff point: round the
/// kept digits to the nearest value, or drop the tail unchanged.
#[derive(Debug, Clone, Copy, Hash, PartialEq, Eq, Structural)]
pub enum RoundMode {
    Round,
    Truncate,
}

/// Configuration for formatting floats into strings.
///
/// Options are set in a chained style: every setter consumes the
/// configuration and returns an updated copy, so a configuration value is
/// never mutated in place.
#[derive(Debug, Clone, Copy, Hash, PartialEq, Eq)]
pub struct FmtFloatConfig {
    /// A max number of significant digits to include in the formatted string
    /// (after the first non-zero digit). None means include all digits
    pub max_sig_digits: Option<u8>,
    /// A min number of significant digits to include in the formatted string
    /// (after the first non-zero digit). None means no minimum
    pub min_sig_digits: Option<u8>,
    /// A max number of digits after the decimal point to include.
    /// Overrides any significant digit rules
    pub max_decimal_digits: Option<i8>,
    /// A min number of digits after the decimal point to include.
    /// Overrides any significant digit rules
    pub min_decimal_digits: Option<i8>,
    /// How many digits left of the decimal point there can be
    /// before scientific notation is used
    pub upper_e_break: i8,
    /// Lower equivalent of upper_e_break
    pub lower_e_break: i8,
    /// Ignore digits after (and including) a certain number of
    /// consecutive 9's or 0's
    pub ignore_extremes: Option<u8>,
    /// Round or truncate
    pub round_mode: RoundMode,
    /// Force scientific e notation
    pub force_e_notation: bool,
    /// Force no scientific e notation. Overrides force_e_notation
    pub force_no_e_notation: bool,
    /// Capitalize the e in scientific notation
    pub capitalize_e: bool,
    /// Add a .0 at the end of integers
    pub add_point_zero: bool,
    /// The maximum number of characters in the string. This should be
    /// greater than or equal to 7 to guarantee all floats will print
    /// correctly, but can be smaller for certain floats
    pub max_width: Option<u8>,
    /// The separator between the integer and non-integer part
    pub radix_point: char,
}

impl FmtFloatConfig {
    /// A default configuration. The resulting string always round-trips:
    /// parsing it back with a standard decimal-to-binary conversion gives
    /// the exact same float.
    pub fn default() -> (c: Self)
        ensures
            c == (FmtFloatConfig {
                max_sig_digits: None,
                min_sig_digits: None,
                max_decimal_digits: None,
                min_decimal_digits: None,
                upper_e_break: 4,
                lower_e_break: -4i8,
                ignore_extremes: None,
                round_mode: RoundMode::Round,
                force_e_notation: false,
                force_no_e_notation: false,
                capitalize_e: false,
                add_point_zero: true,
                max_width: None,
                radix_point: '.',
            }),
    {
        FmtFloatConfig {
            max_sig_digits: None,
            min_sig_digits: None,
            max_decimal_digits: None,
            min_decimal_digits: None,
            upper_e_break: 4,
            lower_e_break: -4,
            ignore_extremes: None,
            round_mode: RoundMode::Round,
            force_e_notation: false,
            force_no_e_notation: false,
            capitalize_e: false,
            add_point_zero: true,
            max_width: None,
            radix_point: '.',
        }
    }

    /// The maximum number of non-zero digits to include in the string
    pub fn max_significant_digits(self, val: u8) -> (c: Self)
        ensures
            c == (FmtFloatConfig { max_sig_digits: Some(val), ..self }),
    {
        FmtFloatConfig { max_sig_digits: Some(val), ..self }
    }

    /// The minimum number of non-zero digits to include in the string
    pub fn min_significant_digits(self, val: u8) -> (c: Self)
        ensures
            c == (FmtFloatConfig { min_sig_digits: Some(val), ..self }),
    {
        FmtFloatConfig { min_sig_digits: Some(val), ..self }
    }

    /// The maximum number of digits past the decimal point to include in the string
    pub fn max_decimal_digits(self, val: i8) -> (c: Self)
        ensures
            c == (FmtFloatConfig { max_decimal_digits: Some(val), ..self }),
    {
        FmtFloatConfig { max_decimal_digits: Some(val), ..self }
    }

    /// The minimum number of digits past the decimal point to include in the string
    pub fn min_decimal_digits(self, val: i8) -> (c: Self)
        ensures
            c == (FmtFloatConfig { min_decimal_digits: Some(val), ..self }),
    {
        FmtFloatConfig { min_decimal_digits: Some(val), ..self }
    }

    /// The upper exponent value that will force using exponent notation
    /// (default: 4)
    pub fn upper_e_break(self, val: i8) -> (c: Self)
        ensures
            c == (FmtFloatConfig { upper_e_break: val, ..self }),
    {
        FmtFloatConfig { upper_e_break: val, ..self }
    }

    /// The lower exponent value that will force using exponent notation
    /// (default: -4)
    pub fn lower_e_break(self, val: i8) -> (c: Self)
        ensures
            c == (FmtFloatConfig { lower_e_break: val, ..self }),
    {
        FmtFloatConfig { lower_e_break: val, ..self }
    }

    /// Ignore digits after and including a certain number of consecutive
    /// 9's or 0's. This is useful for printing numbers with floating point
    /// errors to humans, even if the numbers are technically slightly
    /// adjusted. (example: 3.5999951 -> 3.6)
    pub fn ignore_extremes(self, limit: u8) -> (c: Self)
        ensures
            c == (FmtFloatConfig { ignore_extremes: Some(limit), ..self }),
    {
        FmtFloatConfig { ignore_extremes: Some(limit), ..self }
    }

    /// When cutting off after a certain number of significant digits,
    /// ignore any further digits. Opposite of ``round(self)``.
    pub fn truncate(self) -> (c: Self)
        ensures
            c == (FmtFloatConfig { round_mode: RoundMode::Truncate, ..self }),
    {
        FmtFloatConfig { round_mode: RoundMode::Truncate, ..self }
    }

    /// When cutting off after a certain number of significant digits /
    /// decimal digits, read the next digit and round up / down. This is the
    /// default, but it doesn't matter in the default config, since no
    /// rounding happens.
    pub fn round(self) -> (c: Self)
        ensures
            c == (FmtFloatConfig { round_mode: RoundMode::Round, ..self }),
    {
        FmtFloatConfig { round_mode: RoundMode::Round, ..self }
    }

    /// Force all floats to be in scientific notation.
    /// (example: 31 -> 3.1e1)
    pub fn force_e_notation(self) -> (c: Self)
        ensures
            c == (FmtFloatConfig {
                force_e_notation: true,
                force_no_e_notation: false,
                ..self
            }),
    {
        FmtFloatConfig { force_e_notation: true, force_no_e_notation: false, ..self }
    }

    /// Force all floats to not be in scientific notation.
    /// (example: 3e10 -> 30000000000)
    pub fn force_no_e_notation(self) -> (c: Self)
        ensures
            c == (FmtFloatConfig {
                force_no_e_notation: true,
                force_e_notation: false,
                ..self
            }),
    {
        FmtFloatConfig { force_no_e_notation: true, force_e_notation: false, ..self }
    }

    /// Capitalize the e in e notation.
    /// (example: 3.1e10 -> 3.1E10)
    /// (default: false)
    pub fn capitalize_e(self, val: bool) -> (c: Self)
        ensures
            c == (FmtFloatConfig { capitalize_e: val, ..self }),
    {
        FmtFloatConfig { capitalize_e: val, ..self }
    }

    /// Add a ".0" at the end of integers.
    /// (example: 31 -> 31.0)
    /// (default: true)
    pub fn add_point_zero(self, val: bool) -> (c: Self)
        ensures
            c == (FmtFloatConfig { add_point_zero: val, ..self }),
    {
        FmtFloatConfig { add_point_zero: val, ..self }
    }

    /// The maximum width of all the characters in the string. This should
    /// be greater than or equal to 7 to guarantee all floats will print
    /// correctly, but can be smaller for certain floats
    pub fn max_width(self, val: u8) -> (c: Self)
        ensures
            c == (FmtFloatConfig { max_width: Some(val), ..self }),
    {
        FmtFloatConfig { max_width: Some(val), ..self }
    }

    /// Allows any width of strings. This is set by default
    pub fn no_max_width(self) -> (c: Self)
        ensures
            c == (FmtFloatConfig { max_width: None, ..self }),
    {
        FmtFloatConfig { max_width: None, ..self }
    }

    /// The separator between the integer and non-integer part of the float
    /// string
    /// (default: `'.'`)
    pub fn radix_point(self, val: char) -> (c: Self)
        ensures
            c == (FmtFloatConfig { radix_point: val, ..self }),
    {
        FmtFloatConfig { radix_point: val, ..self }
    }
}

} // verus!
