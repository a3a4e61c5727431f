use vstd::prelude::*;

use crate::config::FmtFloatConfig;
use crate::config::RoundMode;
use crate::digits::is_digit_seq;
use crate::digits::digit_seq_val;
use crate::digits::pow10;
use crate::digits::spec_cap_decimal;
use crate::digits::spec_inc;
use crate::digits::spec_round_up;
use crate::digits::spec_cap_significant;
use crate::digits::spec_pad_decimal;
use crate::digits::spec_pad_significant;
use crate::digits::spec_strip_extremes;
use crate::digits::spec_strip_scan;
use crate::render::lemma_int_chars_len;
use crate::render::spec_assemble_e;
use crate::render::spec_assemble_plain;
use crate::render::spec_digits_to_a;
use crate::render::spec_e_width_digits;
use crate::render::spec_int_chars;
use crate::render::spec_use_e_notation;
use crate::render::spec_width_adjust;

verus! {

/// The significant-digit cap moves the exponent up by at most one, and
/// not at all in truncate mode.
proof fn lemma_cap_significant_e(s: Seq<u8>, e: int, config: FmtFloatConfig)
    ensures
        e <= spec_cap_significant(s, e, config).1 <= e + 1,
        config.round_mode == RoundMode::Truncate ==> spec_cap_significant(s, e, config).1 == e,
{
}

/// The decimal-digit cap moves the exponent up by at most one, and not at
/// all in truncate mode.
proof fn lemma_cap_decimal_e(s: Seq<u8>, e: int, config: FmtFloatConfig)
    ensures
        e <= spec_cap_decimal(s, e, config).1 <= e + 1,
        config.round_mode == RoundMode::Truncate ==> spec_cap_decimal(s, e, config).1 == e,
{
}

/// Incrementing a digit string never lengthens it.
proof fn lemma_inc_len(s: Seq<u8>)
    ensures
        spec_inc(s).len() <= s.len(),
    decreases s.len(),
{
    if s.len() == 0 {
    } else if s.last() == 57 {
        lemma_inc_len(s.drop_last());
    }
}

/// The extreme-run scan moves the exponent up by at most one.
proof fn lemma_strip_scan_e(s: Seq<u8>, limit: nat, e: int, i: nat, nines: nat, zeros: nat, acc: Seq<u8>)
    ensures
        e <= spec_strip_scan(s, limit, e, i, nines, zeros, acc).1 <= e + 1,
    decreases s.len() - i,
{
    if i >= s.len() {
    } else {
        let d = s[i as int];
        let nines2: nat = if d == 57 {
            nines + 1
        } else {
            0
        };
        if d == 57 && nines2 >= limit {
        } else {
            let zeros2: nat = if d == 48 {
                zeros + 1
            } else {
                0
            };
            if d == 48 && zeros2 >= limit {
            } else {
                lemma_strip_scan_e(s, limit, e, i + 1, nines2, zeros2, acc.push(d));
            }
        }
    }
}

/// Extreme-run suppression moves the exponent up by at most one.
proof fn lemma_strip_extremes_e(s: Seq<u8>, e: int, config: FmtFloatConfig)
    ensures
        e <= spec_strip_extremes(s, e, config).1 <= e + 1,
{
    match config.ignore_extremes {
        Some(limit) => {
            lemma_strip_scan_e(s, limit as nat, e, 0, 0, 0, Seq::empty());
        },
        None => {},
    }
}

/// The exact length of a plain rendering, term by term: sign, the leading
/// zero and point and position zeros for small exponents, the digits, the
/// inner radix point, the trailing zeros for large exponents, and the
/// point-zero suffix.
proof fn lemma_assemble_plain_len(sign: bool, s: Seq<u8>, e: int, config: FmtFloatConfig)
    ensures
        spec_assemble_plain(sign, s, e, config).len() == (if sign {
            1int
        } else {
            0int
        }) + (if e <= 0 {
            2 - e
        } else {
            0int
        }) + s.len() + (if 0 < e < s.len() {
            1int
        } else {
            0int
        }) + (if e > s.len() {
            e - s.len()
        } else {
            0int
        }) + (if s.len() <= e && config.add_point_zero {
            2int
        } else {
            0int
        }),
{
    if 0 < e < s.len() {
        assert(s.take(e).len() == e);
        assert(s.skip(e).len() == s.len() - e);
    }
}

/// The length of an e-notation rendering under a width budget of at least
/// seven never exceeds the budget, for exponents whose written form fits
/// four characters.
proof fn lemma_assemble_e_len(sign: bool, s: Seq<u8>, e: int, config: FmtFloatConfig, w0: int)
    requires
        config.max_width == Some(w0 as u8),
        7 <= w0 <= 255,
        -400 <= e <= 400,
    ensures
        spec_assemble_e(sign, s, e, config).len() <= w0,
{
    let s0: Seq<u8> = if s.len() == 0 {
        seq![48u8]
    } else {
        s
    };
    let el = spec_int_chars(e - 1).len();
    lemma_int_chars_len(e - 1);
    let sign1: int = if sign {
        1
    } else {
        0
    };
    let extra = 3 + el + sign1;
    let s2 = spec_e_width_digits(sign, s0, e, w0);
    assert(s0.len() >= 1);
    if extra >= w0 {
        assert(s2 =~= s0.take(1));
        assert(s2.len() == 1);
        if w0 == 7 && sign {
            // the special shape without a radix point
            assert(spec_assemble_e(sign, s, e, config).len() == 3 + el);
        } else {
            // extra exceeds seven only with a sign and a four-character
            // exponent, and that shape was just handled
            assert(extra <= w0);
            assert(spec_assemble_e(sign, s, e, config).len() == extra);
        }
    } else {
        if s0.len() > 1 + (w0 - extra) {
            assert(s2 == s0.take(1 + (w0 - extra)));
            assert(s2.len() == 1 + (w0 - extra));
        } else {
            assert(s2 == s0);
        }
        assert(1 <= s2.len() <= 1 + (w0 - extra));
        if s2.len() == 1 && w0 == 7 && sign {
            assert(spec_assemble_e(sign, s, e, config).len() == 3 + el);
        } else {
            assert(spec_assemble_e(sign, s, e, config).len() == extra + (s2.len() - 1));
        }
    }
}

/// Incrementing a digit string adds one to its value, up to the power of
/// ten that accounts for the trailing nines the carry removed; a string of
/// nothing but nines overflows to the next power of ten.
proof fn lemma_inc_val(s: Seq<u8>)
    requires
        is_digit_seq(s),
    ensures
        spec_inc(s).len() == 0 ==> digit_seq_val(s) + 1 == pow10(s.len()),
        spec_inc(s).len() > 0 ==> spec_inc(s).len() <= s.len() && digit_seq_val(spec_inc(s))
            * pow10((s.len() - spec_inc(s).len()) as nat) == digit_seq_val(s) + 1,
    decreases s.len(),
{
    if s.len() == 0 {
    } else {
        let t = s.drop_last();
        assert(is_digit_seq(t));
        if s.last() == 57 {
            lemma_inc_val(t);
            assert(digit_seq_val(s) == digit_seq_val(t) * 10 + 9);
            if spec_inc(t).len() == 0 {
                assert(digit_seq_val(s) + 1 == 10 * (digit_seq_val(t) + 1));
                assert(pow10(s.len()) == 10 * pow10(t.len()));
            } else {
                let v = digit_seq_val(spec_inc(t));
                let k = (t.len() - spec_inc(t).len()) as nat;
                assert(v * pow10(k) == digit_seq_val(t) + 1);
                assert(pow10(k + 1) == 10 * pow10(k));
                assert(v * pow10(k + 1) == (v * pow10(k)) * 10) by (nonlinear_arith)
                    requires
                        pow10(k + 1) == 10 * pow10(k),
                ;
                assert(v * pow10(k + 1) == digit_seq_val(s) + 1);
                assert((s.len() - spec_inc(s).len()) as nat == k + 1);
            }
        } else {
            assert(spec_inc(s) == t.push((s.last() + 1) as u8));
            assert(spec_inc(s).drop_last() =~= t);
            assert(digit_seq_val(spec_inc(s)) == digit_seq_val(t) * 10 + (s.last() + 1 - 48));
            assert(pow10(0) == 1);
        }
    }
}

/// Carry correctness law: rounding a digit string up by one unit in its
/// last place adds exactly one to the number the digits denote, once the
/// result is rescaled by the power of ten that accounts for the trailing
/// nines the carry removed and for the exponent bump of a full collapse.
/// In particular 999 becomes 1 with the exponent up one, and that pair
/// still denotes 999 + 1.
pub proof fn lemma_round_up_carry(s: Seq<u8>, e: int)
    requires
        is_digit_seq(s),
    ensures
        ({
            let r = spec_round_up(s, e);
            &&& 1 <= r.0.len()
            &&& e <= r.1 <= e + 1
            &&& digit_seq_val(r.0) * pow10((s.len() - r.0.len() + r.1 - e) as nat)
                == digit_seq_val(s) + 1
        }),
{
    lemma_inc_val(s);
    let r = spec_round_up(s, e);
    if spec_inc(s).len() == 0 {
        assert(r.0 =~= seq![49u8]);
        assert(r.0.drop_last() =~= Seq::<u8>::empty());
        assert(digit_seq_val(Seq::<u8>::empty()) == 0);
        assert(digit_seq_val(r.0) == digit_seq_val(r.0.drop_last()) * 10 + 1);
        assert((s.len() - r.0.len() + r.1 - e) as nat == s.len());
    }
}

/// Faithfulness law behind the round-trip guarantee: when no digit limit,
/// no extreme-run suppression, and no width budget is set — as in the
/// default configuration — the renderer keeps the digit sequence and the
/// exponent exactly as given, and the output is nothing but their plain or
/// scientific assembly. Reparsing the output therefore recovers whatever
/// value the digit generator encoded; no digit is dropped, rounded, or
/// padded on the way to the string.
pub proof fn lemma_default_faithful(sign: bool, s: Seq<u8>, e: int, config: FmtFloatConfig)
    requires
        config.max_sig_digits is None,
        config.min_sig_digits is None,
        config.max_decimal_digits is None,
        config.min_decimal_digits is None,
        config.ignore_extremes is None,
        config.max_width is None,
    ensures
        spec_digits_to_a(sign, s, e, config) == (if spec_use_e_notation(e, config) {
            spec_assemble_e(sign, s, e, config)
        } else {
            spec_assemble_plain(sign, s, e, config)
        }),
{
}

/// Width bound law: once a width budget of at least seven characters is
/// set, the rendered string exceeds the budget by at most one character,
/// whatever the other options say, for every digit sequence and every
/// decimal exponent in the double-precision range; and with truncating
/// cutoffs it never exceeds the budget at all. (With rounding cutoffs the
/// one extra character is real: a carry out of the budget trim can
/// collapse the digits to a lone one and raise the exponent, making the
/// plain rendering one character longer than the budget.)
pub proof fn lemma_width_bound(sign: bool, s: Seq<u8>, e: int, config: FmtFloatConfig)
    requires
        is_digit_seq(s),
        1 <= s.len(),
        -323 <= e <= 309,
        config.max_width matches Some(w0) && w0 >= 7,
    ensures
        spec_digits_to_a(sign, s, e, config).len() <= config.max_width->0 as int + 1,
        config.round_mode == RoundMode::Truncate ==> spec_digits_to_a(sign, s, e, config).len()
            <= config.max_width->0 as int,
{
    let w0: int = config.max_width->0 as int;
    let sig = spec_cap_significant(s, e, config);
    let dec = spec_cap_decimal(sig.0, sig.1, config);
    let ext = spec_strip_extremes(dec.0, dec.1, config);
    let padded = spec_pad_decimal(spec_pad_significant(ext.0, config), ext.1, config);
    let use_e0 = spec_use_e_notation(ext.1, config);
    let adj = spec_width_adjust(sign, padded, ext.1, use_e0, config);
    lemma_cap_significant_e(s, e, config);
    lemma_cap_decimal_e(sig.0, sig.1, config);
    lemma_strip_extremes_e(dec.0, dec.1, config);
    let e3 = ext.1;
    assert(-323 <= e3 <= 312);
    let sign1: int = if sign {
        1
    } else {
        0
    };
    let w: int = w0 - sign1;
    let apz: int = if config.add_point_zero {
        2
    } else {
        0
    };
    let len5 = padded.len() as int;
    if e3 > 0 && e3 + apz > w {
        lemma_assemble_e_len(sign, adj.0, adj.1, config, w0);
    } else if 3 - e3 > w {
        lemma_assemble_e_len(sign, adj.0, adj.1, config, w0);
    } else if !use_e0 {
        // plain notation, possibly after a budget trim; the budget
        // arithmetic below mirrors the width stage's cost accounting
        let is_int = e3 > len5;
        let extra = (if config.add_point_zero && is_int {
            2int
        } else {
            0int
        }) + (if !is_int && !(e3 > 0 && e3 == w) {
            1int
        } else {
            0int
        }) + (if e3 > 0 && len5 < e3 {
            e3 - len5
        } else {
            0int
        }) + (if e3 <= 0 {
            1 - e3
        } else {
            0int
        });
        assert(w >= 6);
        if len5 + extra > w {
            let kept = padded.take(w - extra);
            if e3 <= 0 {
                assert(extra == 2 - e3);
                assert(kept.len() == w - extra);
            } else if is_int {
                // an integer-valued magnitude always fits its budget, so
                // this branch cannot trim
                assert(len5 + extra <= w);
                assert(false);
            } else {
                assert(0 < e3 <= len5);
                if e3 == w {
                    assert(extra == 0);
                    assert(kept.len() == w);
                    assert(!config.add_point_zero);
                } else {
                    assert(extra == 1);
                    assert(kept.len() == w - 1);
                    assert(e3 <= w - 1);
                    if e3 == w - 1 {
                        assert(!config.add_point_zero);
                    }
                }
            }
            if config.round_mode == RoundMode::Round && padded[w - extra] >= 53 {
                // the trim rounds: the kept digits either shrink under the
                // carry with the exponent unchanged, or collapse to a lone
                // one with the exponent up by one
                let r = spec_round_up(kept, e3);
                assert(adj.0 == r.0 && adj.1 == r.1 && adj.2 == false);
                lemma_inc_len(kept);
                if spec_inc(kept).len() == 0 {
                    assert(r.0 =~= seq![49u8] && r.1 == e3 + 1);
                    lemma_assemble_plain_len(sign, r.0, e3 + 1, config);
                    assert(r.0.len() == 1);
                } else {
                    assert(r.0 == spec_inc(kept) && r.1 == e3);
                    assert(1 <= r.0.len() <= kept.len());
                    lemma_assemble_plain_len(sign, r.0, e3, config);
                }
            } else {
                assert(adj.0 == kept && adj.1 == e3 && adj.2 == false);
                lemma_assemble_plain_len(sign, kept, e3, config);
            }
        } else {
            assert(adj.0 == padded && adj.1 == e3 && adj.2 == false);
            lemma_assemble_plain_len(sign, padded, e3, config);
            if e3 <= 0 {
                assert(extra == 2 - e3);
            } else if e3 == len5 && config.add_point_zero {
                // the cost count treats an exactly-integer magnitude as
                // fractional, so the point-zero suffix needs the headroom
                // that the first notation check guarantees
                assert(e3 + apz <= w);
            }
        }
    } else {
        lemma_assemble_e_len(sign, adj.0, adj.1, config, w0);
    }
}

} // verus!
