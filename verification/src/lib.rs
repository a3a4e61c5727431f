//! Render floating-point values as decimal strings under a rich set of
//! formatting options: digit limits with rounding or truncation, scientific
//! notation thresholds, width budgets, and a configurable radix point.
//!
//! The numeric core works on a decimal digit sequence paired with a decimal
//! exponent: the digits `d1 d2 d3 ...` with exponent `E` stand for the value
//! `0.d1d2d3... * 10^E`. [`digits_to_a`] turns such a pair, plus a sign and a
//! [`FmtFloatConfig`], into the final string. The digit sequence itself is
//! expected from a shortest-round-trip generator; gluing a generator onto
//! [`digits_to_a`] yields a complete float-to-string conversion.

mod config;
mod digits;
mod laws;
mod reading;
mod render;

pub use config::FmtFloatConfig;
pub use config::RoundMode;
pub use digits::digit_seq_val;
pub use digits::digit_to_u8;
pub use digits::is_digit_seq;
pub use digits::pow10;
pub use laws::lemma_default_faithful;
pub use laws::lemma_round_up_carry;
pub use laws::lemma_width_bound;
pub use reading::lemma_default_read_back;
pub use reading::read_fold;
pub use reading::read_step;
pub use reading::spec_read_decimal;
pub use reading::ReadState;
pub use render::digits_to_a;
pub use render::spec_digits_to_a;
