use vstd::prelude::*;

use crate::config::FmtFloatConfig;
use crate::config::RoundMode;
use crate::digits::cap_decimal_digits;
use crate::digits::cap_significant_digits;
use crate::digits::is_digit_seq;
use crate::digits::pad_decimal_digits;
use crate::digits::pad_significant_digits;
use crate::digits::spec_cap_decimal;
use crate::digits::spec_cap_significant;
use crate::digits::spec_pad_decimal;
use crate::digits::spec_pad_significant;
use crate::digits::spec_round_up;
use crate::digits::spec_strip_extremes;
use crate::digits::strip_extreme_runs;
use crate::digits::ASCII_FIVE;
use crate::digits::ASCII_ZERO;

verus! {

/// The view of an ASCII digit sequence as characters.
pub open spec fn spec_chars(s: Seq<u8>) -> Seq<char> {
    Seq::new(s.len(), |i: int| s[i] as char)
}

/// `n` zero characters (none when `n` is negative).
pub open spec fn spec_zero_chars(n: int) -> Seq<char> {
    Seq::new(if n >= 0 { n as nat } else { 0 }, |i: int| '0')
}

/// The character of a single decimal digit value.
pub open spec fn spec_digit_char(d: int) -> char {
    ((48 + d) as u8) as char
}

/// The decimal digit characters of a nonnegative integer.
pub open spec fn spec_nat_chars(n: int) -> Seq<char>
    decreases n,
{
    if n <= 9 {
        seq![spec_digit_char(n)]
    } else {
        spec_nat_chars(n / 10).push(spec_digit_char(n % 10))
    }
}

/// The decimal rendering of an integer, as an exponent is written.
pub open spec fn spec_int_chars(n: int) -> Seq<char> {
    if n < 0 {
        seq!['-'] + spec_nat_chars(-n)
    } else {
        spec_nat_chars(n)
    }
}

/// How many characters a nonnegative integer takes, by decade.
pub proof fn lemma_nat_chars_len(n: int)
    requires
        0 <= n,
    ensures
        1 <= spec_nat_chars(n).len(),
        n <= 9 ==> spec_nat_chars(n).len() == 1,
        n <= 99 ==> spec_nat_chars(n).len() <= 2,
        n <= 999 ==> spec_nat_chars(n).len() <= 3,
        n <= 9999 ==> spec_nat_chars(n).len() <= 4,
        n <= 99999 ==> spec_nat_chars(n).len() <= 5,
        n <= 999999 ==> spec_nat_chars(n).len() <= 6,
        n <= 9999999 ==> spec_nat_chars(n).len() <= 7,
        n <= 99999999 ==> spec_nat_chars(n).len() <= 8,
        n <= 999999999 ==> spec_nat_chars(n).len() <= 9,
        n <= 9999999999 ==> spec_nat_chars(n).len() <= 10,
        n <= 99999999999 ==> spec_nat_chars(n).len() <= 11,
    decreases n,
{
    if n <= 9 {
    } else {
        lemma_nat_chars_len(n / 10);
    }
}

/// How many characters an integer takes, by decade, sign included.
pub proof fn lemma_int_chars_len(n: int)
    requires
        -99999999999 <= n <= 99999999999,
    ensures
        1 <= spec_int_chars(n).len() <= 12,
        -999 <= n <= 999 ==> spec_int_chars(n).len() <= 4,
        0 <= n <= 999 ==> spec_int_chars(n).len() <= 3,
{
    if n < 0 {
        lemma_nat_chars_len(-n);
    } else {
        lemma_nat_chars_len(n);
    }
}

/// Append the decimal digit characters of a nonnegative integer.
fn push_nat_chars(out: &mut Vec<char>, n: i32)
    requires
        0 <= n,
    ensures
        final(out)@ == old(out)@ + spec_nat_chars(n as int),
    decreases n,
{
    if n <= 9 {
        out.push((48 + n as u8) as char);
        proof {
            assert(out@ =~= old(out)@ + spec_nat_chars(n as int));
        }
    } else {
        push_nat_chars(out, n / 10);
        out.push((48 + (n % 10) as u8) as char);
        proof {
            assert(out@ =~= old(out)@ + spec_nat_chars(n as int));
        }
    }
}

/// Append the decimal rendering of an integer, minus sign included.
fn push_int_chars(out: &mut Vec<char>, n: i32)
    requires
        n > i32::MIN,
    ensures
        final(out)@ == old(out)@ + spec_int_chars(n as int),
{
    if n < 0 {
        out.push('-');
        push_nat_chars(out, -n);
        proof {
            assert(out@ =~= old(out)@ + spec_int_chars(n as int));
        }
    } else {
        push_nat_chars(out, n);
    }
}

/// Append a range of an ASCII digit sequence as characters.
fn push_digit_chars(out: &mut Vec<char>, digits: &Vec<u8>, from: usize, to: usize)
    requires
        from <= to <= digits@.len(),
    ensures
        final(out)@ == old(out)@ + spec_chars(digits@.subrange(from as int, to as int)),
{
    let mut i = from;
    while i < to
        invariant
            from <= i <= to <= digits@.len(),
            out@ == old(out)@ + spec_chars(digits@.subrange(from as int, i as int)),
        decreases to - i,
    {
        out.push(digits[i] as char);
        proof {
            assert(out@ =~= old(out)@ + spec_chars(digits@.subrange(from as int, (i + 1) as int)));
        }
        i = i + 1;
    }
}

/// Append `n` zero characters.
fn push_zero_chars(out: &mut Vec<char>, n: usize)
    ensures
        final(out)@ == old(out)@ + spec_zero_chars(n as int),
{
    let mut k: usize = 0;
    while k < n
        invariant
            k <= n,
            out@ == old(out)@ + spec_zero_chars(k as int),
        decreases n - k,
    {
        out.push('0');
        proof {
            assert(out@ =~= old(out)@ + spec_zero_chars((k + 1) as int));
        }
        k = k + 1;
    }
}

/// Whether scientific notation is chosen before any width budgeting: the
/// exponent lies above the upper break or at or below the lower break, or
/// e notation is forced, and not forced off.
pub open spec fn spec_use_e_notation(e: int, config: FmtFloatConfig) -> bool {
    (e > config.upper_e_break as int || e <= config.lower_e_break as int
        || config.force_e_notation) && !config.force_no_e_notation
}

/// Digits, exponent, and notation choice after width budgeting. With no
/// width budget nothing changes. Otherwise the budget (less one for a
/// minus sign) forces scientific notation for magnitudes that cannot fit
/// plainly; and when plain notation stands, the exact character cost
/// (radix point, leading or trailing zeros, point-zero suffix) is counted
/// and the digit tail is cut to fit, rounding by the same carry rule as
/// every other cut.
pub open spec fn spec_width_adjust(
    sign: bool,
    s: Seq<u8>,
    e: int,
    use_e: bool,
    config: FmtFloatConfig,
) -> (Seq<u8>, int, bool) {
    match config.max_width {
        None => (s, e, use_e),
        Some(w0) => {
            let w: int = if sign {
                if w0 >= 1 {
                    w0 - 1
                } else {
                    0
                }
            } else {
                w0 as int
            };
            let apz: int = if config.add_point_zero {
                2
            } else {
                0
            };
            if e > 0 && e + apz > w {
                (s, e, true)
            } else if 3 - e > w {
                (s, e, true)
            } else if !use_e {
                let is_int = e > s.len();
                let extra = (if config.add_point_zero && is_int {
                    2int
                } else {
                    0int
                }) + (if !is_int && !(e > 0 && e == w) {
                    1int
                } else {
                    0int
                }) + (if e > 0 && s.len() < e {
                    e - s.len()
                } else {
                    0int
                }) + (if e <= 0 {
                    1 - e
                } else {
                    0int
                });
                if s.len() + extra > w {
                    let kept = s.take(w - extra);
                    if config.round_mode == RoundMode::Round && s[w - extra] >= 53 {
                        let r = spec_round_up(kept, e);
                        (r.0, r.1, false)
                    } else {
                        (kept, e, false)
                    }
                } else {
                    (s, e, false)
                }
            } else {
                (s, e, true)
            }
        },
    }
}

/// Apply the width budget, as `spec_width_adjust` describes.
fn width_adjust(
    sign: bool,
    digits: Vec<u8>,
    e: i32,
    use_e: bool,
    config: FmtFloatConfig,
) -> (r: (Vec<u8>, i32, bool))
    requires
        is_digit_seq(digits@),
        -0x2000_0000 <= e <= 0x2000_0000,
        digits@.len() <= 0x2000_0000,
    ensures
        r.0@ == spec_width_adjust(sign, digits@, e as int, use_e, config).0,
        r.1 as int == spec_width_adjust(sign, digits@, e as int, use_e, config).1,
        r.2 == spec_width_adjust(sign, digits@, e as int, use_e, config).2,
        is_digit_seq(r.0@),
        r.0@.len() <= digits@.len() || r.0@.len() == 1,
        e <= r.1 <= e + 1,
{
    match config.max_width {
        None => (digits, e, use_e),
        Some(w0) => {
            let w: i32 = if sign {
                if w0 >= 1 {
                    w0 as i32 - 1
                } else {
                    0
                }
            } else {
                w0 as i32
            };
            let apz: i32 = if config.add_point_zero {
                2
            } else {
                0
            };
            if e > 0 && e + apz > w {
                (digits, e, true)
            } else if 3 - e > w {
                (digits, e, true)
            } else if !use_e {
                let len_i: i32 = digits.len() as i32;
                let is_int = e > len_i;
                let mut extra: i32 = 0;
                if config.add_point_zero && is_int {
                    extra = extra + 2;
                }
                if !is_int && !(e > 0 && e == w) {
                    extra = extra + 1;
                }
                if e > 0 && len_i < e {
                    extra = extra + (e - len_i);
                }
                if e <= 0 {
                    extra = extra + (1 - e);
                }
                if len_i + extra > w {
                    let cut = (w - extra) as usize;
                    let removed = digits[cut];
                    let mut work = digits;
                    work.truncate(cut);
                    proof {
                        assert(work@ =~= digits@.take((w - extra) as int));
                    }
                    if config.round_mode == RoundMode::Round && removed >= ASCII_FIVE {
                        let (d2, e2) = crate::digits::round_up_digits(work, e);
                        (d2, e2, false)
                    } else {
                        (work, e, false)
                    }
                } else {
                    (digits, e, false)
                }
            } else {
                (digits, e, true)
            }
        },
    }
}

/// The digit sequence an e-notation rendering keeps under a width budget:
/// the fixed cost (sign, leading digit, radix point, exponent marker, and
/// exponent characters) comes out of the budget first, and the digit tail
/// keeps only what is left.
pub open spec fn spec_e_width_digits(sign: bool, s: Seq<u8>, e: int, w0: int) -> Seq<u8> {
    let extra = 3 + spec_int_chars(e - 1).len() + (if sign {
        1int
    } else {
        0int
    });
    if extra >= w0 {
        s.take(1)
    } else if s.len() > 1 + (w0 - extra) {
        s.take(1 + (w0 - extra))
    } else {
        s
    }
}

/// An e-notation rendering with the digits as given: sign, leading digit,
/// radix point, remaining digits (a lone leading digit is followed by a
/// zero only when no width budget is set), exponent marker, and the
/// exponent less one.
pub open spec fn spec_e_generic(sign: bool, s: Seq<u8>, e: int, config: FmtFloatConfig) -> Seq<char> {
    let head: Seq<char> = if sign {
        seq!['-']
    } else {
        Seq::empty()
    };
    let marker: char = if config.capitalize_e {
        'E'
    } else {
        'e'
    };
    let mid: Seq<char> = if s.len() == 1 {
        if config.max_width is None {
            seq!['0']
        } else {
            Seq::empty()
        }
    } else {
        spec_chars(s.skip(1))
    };
    head + seq![s[0] as char, config.radix_point] + mid + seq![marker] + spec_int_chars(e - 1)
}

/// The full e-notation rendering. Empty digits render as a single zero.
/// Under a width budget the digit tail is cut to fit first, and in the one
/// case where even the radix point cannot fit (a budget of exactly seven
/// spent entirely on sign, digit, marker, and exponent) the point is
/// dropped.
pub open spec fn spec_assemble_e(sign: bool, s: Seq<u8>, e: int, config: FmtFloatConfig) -> Seq<char> {
    let s0: Seq<u8> = if s.len() == 0 {
        seq![48u8]
    } else {
        s
    };
    match config.max_width {
        None => spec_e_generic(sign, s0, e, config),
        Some(w0) => {
            let s2 = spec_e_width_digits(sign, s0, e, w0 as int);
            if s2.len() == 1 && w0 == 7 && sign {
                seq!['-', s0[0] as char, if config.capitalize_e { 'E' } else { 'e' }]
                    + spec_int_chars(e - 1)
            } else {
                spec_e_generic(sign, s2, e, config)
            }
        },
    }
}

/// Render in e notation, as `spec_assemble_e` describes.
#[verifier::rlimit(100)]
fn assemble_e_notation(sign: bool, digits: Vec<u8>, e: i32, config: FmtFloatConfig) -> (out: Vec<
    char,
>)
    requires
        is_digit_seq(digits@),
        -0x4000_0000 <= e <= 0x4000_0000,
    ensures
        out@ == spec_assemble_e(sign, digits@, e as int, config),
{
    let mut work = digits;
    if work.len() == 0 {
        work.push(ASCII_ZERO);
    }
    let ghost s0: Seq<u8> = work@;
    proof {
        assert(s0 == if digits@.len() == 0 { seq![48u8] } else { digits@ });
    }
    // the exponent characters, written once and reused
    let mut exp_chars: Vec<char> = Vec::new();
    push_int_chars(&mut exp_chars, e - 1);
    proof {
        lemma_int_chars_len(e - 1);
    }
    let has_width = config.max_width.is_some();
    match config.max_width {
        Some(w0) => {
            let extra: usize = 3 + exp_chars.len() + (if sign {
                1
            } else {
                0
            });
            if extra >= w0 as usize {
                work.truncate(1);
                proof {
                    assert(work@ =~= s0.take(1));
                }
            } else {
                let keep = w0 as usize - extra;
                if work.len() > 1 + keep {
                    work.truncate(1 + keep);
                    proof {
                        assert(work@ =~= s0.take(1 + keep as int));
                    }
                }
            }
            proof {
                assert(work@ == spec_e_width_digits(sign, s0, e as int, w0 as int));
            }
            if work.len() == 1 && w0 == 7 && sign {
                // no room for the radix point: sign, digit, marker, exponent
                let ghost expc: Seq<char> = spec_int_chars(e as int - 1);
                let mut out: Vec<char> = Vec::new();
                out.push('-');
                out.push(work[0] as char);
                out.push(
                    if config.capitalize_e {
                        'E'
                    } else {
                        'e'
                    },
                );
                let ghost pre: Seq<char> = out@;
                let mut tail = exp_chars;
                out.append(&mut tail);
                proof {
                    assert(work@[0] == s0[0]);
                    assert(pre =~= seq![
                        '-',
                        s0[0] as char,
                        if config.capitalize_e {
                            'E'
                        } else {
                            'e'
                        },
                    ]);
                    assert(out@ =~= seq![
                        '-',
                        s0[0] as char,
                        if config.capitalize_e {
                            'E'
                        } else {
                            'e'
                        },
                    ] + expc);
                    assert(out@ == spec_assemble_e(sign, digits@, e as int, config));
                }
                return out;
            }
        },
        None => {},
    }
    let ghost s2: Seq<u8> = work@;
    let ghost head: Seq<char> = if sign {
        seq!['-']
    } else {
        Seq::empty()
    };
    let ghost mk: char = if config.capitalize_e {
        'E'
    } else {
        'e'
    };
    let ghost mid: Seq<char> = if s2.len() == 1 {
        if config.max_width is None {
            seq!['0']
        } else {
            Seq::empty()
        }
    } else {
        spec_chars(s2.skip(1))
    };
    let ghost expc: Seq<char> = spec_int_chars(e as int - 1);
    let mut out: Vec<char> = Vec::new();
    if sign {
        out.push('-');
    }
    proof {
        assert(out@ =~= head);
    }
    out.push(work[0] as char);
    out.push(config.radix_point);
    proof {
        assert(out@ =~= head + seq![s2[0] as char, config.radix_point]);
    }
    if work.len() == 1 {
        if !has_width {
            out.push('0');
        }
    } else {
        let wl = work.len();
        push_digit_chars(&mut out, &work, 1, wl);
        proof {
            assert(work@.subrange(1, wl as int) =~= s2.skip(1));
        }
    }
    proof {
        assert(out@ =~= head + seq![s2[0] as char, config.radix_point] + mid);
    }
    out.push(
        if config.capitalize_e {
            'E'
        } else {
            'e'
        },
    );
    let mut tail = exp_chars;
    out.append(&mut tail);
    proof {
        assert(out@ =~= head + seq![s2[0] as char, config.radix_point] + mid + seq![mk] + expc);
        assert(spec_e_generic(sign, s2, e as int, config) == head + seq![
            s2[0] as char,
            config.radix_point,
        ] + mid + seq![mk] + expc);
        assert(out@ == spec_assemble_e(sign, digits@, e as int, config));
    }
    out
}

/// A plain (non-scientific) rendering: sign; for exponents at or below
/// zero a leading zero, the radix point, and the zeros that position the
/// digits; the digits with the radix point inserted after the integer
/// part; trailing zeros up to the radix point for large exponents; and a
/// point-zero suffix on integer values when configured.
pub open spec fn spec_assemble_plain(sign: bool, s: Seq<u8>, e: int, config: FmtFloatConfig) -> Seq<
    char,
> {
    let head: Seq<char> = if sign {
        seq!['-']
    } else {
        Seq::empty()
    };
    let lead: Seq<char> = if e <= 0 {
        seq!['0', config.radix_point] + spec_zero_chars(-e)
    } else {
        Seq::empty()
    };
    let body: Seq<char> = if 0 < e < s.len() {
        spec_chars(s.take(e)) + seq![config.radix_point] + spec_chars(s.skip(e))
    } else {
        spec_chars(s)
    };
    let tail_zeros: Seq<char> = if e > s.len() {
        spec_zero_chars(e - s.len())
    } else {
        Seq::empty()
    };
    let suffix: Seq<char> = if s.len() <= e && config.add_point_zero {
        seq![config.radix_point, '0']
    } else {
        Seq::empty()
    };
    head + lead + body + tail_zeros + suffix
}

/// Render plainly, as `spec_assemble_plain` describes.
#[verifier::rlimit(100)]
fn assemble_plain(sign: bool, digits: Vec<u8>, e: i32, config: FmtFloatConfig) -> (out: Vec<char>)
    requires
        is_digit_seq(digits@),
        -0x4000_0000 <= e <= 0x4000_0000,
        digits@.len() <= 0x4000_0000,
    ensures
        out@ == spec_assemble_plain(sign, digits@, e as int, config),
{
    let ghost ge: int = e as int;
    let ghost head: Seq<char> = if sign {
        seq!['-']
    } else {
        Seq::empty()
    };
    let ghost lead: Seq<char> = if ge <= 0 {
        seq!['0', config.radix_point] + spec_zero_chars(-ge)
    } else {
        Seq::empty()
    };
    let ghost body: Seq<char> = if 0 < ge < digits@.len() {
        spec_chars(digits@.take(ge)) + seq![config.radix_point] + spec_chars(digits@.skip(ge))
    } else {
        spec_chars(digits@)
    };
    let ghost tzs: Seq<char> = if ge > digits@.len() {
        spec_zero_chars(ge - digits@.len())
    } else {
        Seq::empty()
    };
    let ghost suffix: Seq<char> = if digits@.len() <= ge && config.add_point_zero {
        seq![config.radix_point, '0']
    } else {
        Seq::empty()
    };
    let mut out: Vec<char> = Vec::new();
    if sign {
        out.push('-');
    }
    proof {
        assert(out@ =~= head);
    }
    if e <= 0 {
        out.push('0');
        out.push(config.radix_point);
        push_zero_chars(&mut out, (0 - e) as usize);
    }
    proof {
        assert(out@ =~= head + lead);
    }
    let len = digits.len();
    if 0 < e && (e as usize) < len {
        let cut = e as usize;
        push_digit_chars(&mut out, &digits, 0, cut);
        out.push(config.radix_point);
        push_digit_chars(&mut out, &digits, cut, len);
        proof {
            assert(digits@.subrange(0, e as int) =~= digits@.take(e as int));
            assert(digits@.subrange(e as int, len as int) =~= digits@.skip(e as int));
        }
    } else {
        push_digit_chars(&mut out, &digits, 0, len);
        proof {
            assert(digits@.subrange(0, len as int) =~= digits@);
        }
    }
    proof {
        assert(out@ =~= head + lead + body);
    }
    if e > 0 && len < e as usize {
        push_zero_chars(&mut out, e as usize - len);
    }
    proof {
        assert(out@ =~= head + lead + body + tzs);
    }
    if len as i32 <= e && config.add_point_zero {
        out.push(config.radix_point);
        out.push('0');
    }
    proof {
        assert(out@ =~= head + lead + body + tzs + suffix);
        assert(spec_assemble_plain(sign, digits@, e as int, config) == head + lead + body + tzs
            + suffix);
    }
    out
}

/// Relies on std's `String` collecting from an iterator of `char`s: the
/// resulting string holds exactly the given characters in order.
#[verifier::external_body]
fn chars_to_string(chars: Vec<char>) -> (r: String)
    ensures
        r@ == chars@,
{
    chars.into_iter().collect()
}

/// The complete rendering pipeline on a digit sequence `s` and decimal
/// exponent `e` standing for the value `0.s * 10^e`, with `sign` true for
/// negative values: cap the significant digits, cap the decimal digits,
/// suppress extreme runs, pad to the minimum significant and decimal digit
/// counts, choose the notation, budget the width, and assemble the
/// characters.
pub open spec fn spec_digits_to_a(sign: bool, s: Seq<u8>, e: int, config: FmtFloatConfig) -> Seq<
    char,
> {
    let sig = spec_cap_significant(s, e, config);
    let dec = spec_cap_decimal(sig.0, sig.1, config);
    let ext = spec_strip_extremes(dec.0, dec.1, config);
    let padded = spec_pad_decimal(spec_pad_significant(ext.0, config), ext.1, config);
    let use_e0 = spec_use_e_notation(ext.1, config);
    let adj = spec_width_adjust(sign, padded, ext.1, use_e0, config);
    if adj.2 {
        spec_assemble_e(sign, adj.0, adj.1, config)
    } else {
        spec_assemble_plain(sign, adj.0, adj.1, config)
    }
}

/// Render a decimal digit sequence (in ASCII form), decimal exponent, and
/// sign into the final string under the given configuration, as
/// `spec_digits_to_a` describes. The digits paired with the exponent stand
/// for the value `0.d1d2d3... * 10^e`.
pub fn digits_to_a(sign: bool, digits: Vec<u8>, e: i32, config: FmtFloatConfig) -> (r: String)
    requires
        is_digit_seq(digits@),
        1 <= digits@.len() <= 0x1000_0000,
        -0x1000_0000 <= e <= 0x1000_0000,
    ensures
        r@ == spec_digits_to_a(sign, digits@, e as int, config),
{
    let (d1, e1) = cap_significant_digits(digits, e, config);
    let (d2, e2) = cap_decimal_digits(d1, e1, config);
    let (d3, e3) = strip_extreme_runs(d2, e2, config);
    let d4 = pad_significant_digits(d3, config);
    let d5 = pad_decimal_digits(d4, e3, config);
    let use_e0 = (e3 > config.upper_e_break as i32 || e3 <= config.lower_e_break as i32
        || config.force_e_notation) && !config.force_no_e_notation;
    let (d6, e6, use_e) = width_adjust(sign, d5, e3, use_e0, config);
    let out = if use_e {
        assemble_e_notation(sign, d6, e6, config)
    } else {
        assemble_plain(sign, d6, e6, config)
    };
    chars_to_string(out)
}

} // verus!
