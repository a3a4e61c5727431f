use vstd::prelude::*;

use crate::config::FmtFloatConfig;
use crate::config::RoundMode;

verus! {

/// ASCII code of the digit `0`; digit sequences are kept in ASCII form.
pub const ASCII_ZERO: u8 = 48;

/// ASCII code of the digit `1`.
pub const ASCII_ONE: u8 = 49;

/// ASCII code of the digit `5`, the first digit that rounds upward.
pub const ASCII_FIVE: u8 = 53;

/// ASCII code of the digit `9`.
pub const ASCII_NINE: u8 = 57;

/// A digit sequence holds only the ASCII codes of `0` through `9`.
pub open spec fn is_digit_seq(s: Seq<u8>) -> bool {
    forall|i: int| 0 <= i < s.len() ==> 48 <= #[trigger] s[i] <= 57
}

/// Convert a digit value (0 to 9) into its ASCII code.
pub fn digit_to_u8(val: u8) -> (r: u8)
    requires
        val <= 207,
    ensures
        r == val + 48,
{
    val + 48
}

/// Increment an ASCII digit string by one, dropping the trailing nines the
/// carry moves past. The empty result means the carry overflowed past the
/// leading digit (the whole string was nines).
pub open spec fn spec_inc(s: Seq<u8>) -> Seq<u8>
    decreases s.len(),
{
    if s.len() == 0 {
        s
    } else if s.last() == 57 {
        spec_inc(s.drop_last())
    } else {
        s.drop_last().push((s.last() + 1) as u8)
    }
}

/// Ten to the `n`.
pub open spec fn pow10(n: nat) -> int
    decreases n,
{
    if n == 0 {
        1
    } else {
        10 * pow10((n - 1) as nat)
    }
}

/// The integer an ASCII digit string denotes when read as a whole number.
pub open spec fn digit_seq_val(s: Seq<u8>) -> int
    decreases s.len(),
{
    if s.len() == 0 {
        0
    } else {
        digit_seq_val(s.drop_last()) * 10 + (s.last() - 48)
    }
}

/// Digits and exponent after rounding the digit string up by one unit in its
/// last place: trailing nines are carried over, and a carry past the leading
/// digit collapses the string to the single digit `1` with the exponent one
/// higher (999 rounds to 1 with the exponent up one).
pub open spec fn spec_round_up(s: Seq<u8>, e: int) -> (Seq<u8>, int) {
    let t = spec_inc(s);
    if t.len() == 0 {
        (seq![49u8], e + 1)
    } else {
        (t, e)
    }
}

proof fn lemma_inc_digit_seq(s: Seq<u8>)
    requires
        is_digit_seq(s),
    ensures
        is_digit_seq(spec_inc(s)),
        spec_inc(s).len() <= s.len(),
    decreases s.len(),
{
    if s.len() == 0 {
    } else if s.last() == 57 {
        assert(is_digit_seq(s.drop_last()));
        lemma_inc_digit_seq(s.drop_last());
    } else {
        assert(is_digit_seq(spec_inc(s))) by {
            assert(forall|i: int| 0 <= i < s.len() - 1 ==> s.drop_last()[i] == s[i]);
        }
    }
}

/// Shared carry helper: increment the last digit and cascade the carry
/// leftward, popping each nine the carry moves past; when the carry passes
/// the leading digit, collapse to the single digit `1` and bump the decimal
/// exponent by one.
pub(crate) fn round_up_digits(digits: Vec<u8>, e: i32) -> (r: (Vec<u8>, i32))
    requires
        is_digit_seq(digits@),
        e < i32::MAX,
    ensures
        r.0@ == spec_round_up(digits@, e as int).0,
        r.1 as int == spec_round_up(digits@, e as int).1,
        is_digit_seq(r.0@),
        1 <= r.0@.len(),
        r.0@.len() <= digits@.len() || r.0@.len() == 1,
        e <= r.1 <= e + 1,
{
    let mut work = digits;
    let ghost orig: Seq<u8> = work@;
    proof {
        lemma_inc_digit_seq(orig);
    }
    while work.len() > 0 && work[work.len() - 1] == ASCII_NINE
        invariant
            is_digit_seq(work@),
            is_digit_seq(orig),
            work@.len() <= orig.len(),
            spec_inc(work@) == spec_inc(orig),
        decreases work@.len(),
    {
        let ghost before: Seq<u8> = work@;
        work.pop();
        proof {
            assert(work@ =~= before.drop_last());
            assert(spec_inc(before) == spec_inc(work@));
        }
    }
    if work.len() == 0 {
        let mut out: Vec<u8> = Vec::new();
        out.push(ASCII_ONE);
        proof {
            assert(spec_inc(orig).len() == 0);
            assert(out@ =~= seq![49u8]);
        }
        (out, e + 1)
    } else {
        let l = work.len() - 1;
        let v = work[l];
        let ghost before: Seq<u8> = work@;
        work[l] = v + 1;
        proof {
            lemma_inc_digit_seq(orig);
            assert(work@ =~= before.drop_last().push((v + 1) as u8));
            assert(before.last() == v && v != 57);
            assert(spec_inc(before) == before.drop_last().push((v + 1) as u8));
            assert(work@ == spec_round_up(orig, e as int).0);
        }
        (work, e)
    }
}

/// Digits and exponent after capping the number of significant digits:
/// when the sequence is longer than the limit it is cut there, and in round
/// mode a first dropped digit of five or more rounds the kept digits up.
pub open spec fn spec_cap_significant(s: Seq<u8>, e: int, config: FmtFloatConfig) -> (Seq<u8>, int) {
    match config.max_sig_digits {
        Some(limit) => if s.len() > limit {
            let kept = s.take(limit as int);
            if config.round_mode == RoundMode::Round && s[limit as int] >= 53 {
                spec_round_up(kept, e)
            } else {
                (kept, e)
            }
        } else {
            (s, e)
        },
        None => (s, e),
    }
}

/// Remove extra significant digits, as `spec_cap_significant` describes.
pub fn cap_significant_digits(digits: Vec<u8>, e: i32, config: FmtFloatConfig) -> (r: (Vec<u8>, i32))
    requires
        is_digit_seq(digits@),
        e < i32::MAX,
    ensures
        r.0@ == spec_cap_significant(digits@, e as int, config).0,
        r.1 as int == spec_cap_significant(digits@, e as int, config).1,
        is_digit_seq(r.0@),
        r.0@.len() <= digits@.len() || r.0@.len() == 1,
        e <= r.1 <= e + 1,
{
    match config.max_sig_digits {
        Some(limit) => {
            let limit = limit as usize;
            if digits.len() > limit {
                let removed = digits[limit];
                let mut work = digits;
                work.truncate(limit);
                proof {
                    assert(work@ =~= digits@.take(limit as int));
                }
                if config.round_mode == RoundMode::Round && removed >= ASCII_FIVE {
                    round_up_digits(work, e)
                } else {
                    (work, e)
                }
            } else {
                (digits, e)
            }
        },
        None => (digits, e),
    }
}

/// Digits and exponent after capping the number of digits past the radix
/// point: the cut position is the decimal-digit limit shifted by the
/// exponent, and when it falls inside the sequence the cut rounds or
/// truncates exactly as the significant-digit cap does.
pub open spec fn spec_cap_decimal(s: Seq<u8>, e: int, config: FmtFloatConfig) -> (Seq<u8>, int) {
    match config.max_decimal_digits {
        Some(limit) => {
            let pos = limit + e;
            if 0 <= pos < s.len() {
                let kept = s.take(pos);
                if config.round_mode == RoundMode::Round && s[pos] >= 53 {
                    spec_round_up(kept, e)
                } else {
                    (kept, e)
                }
            } else {
                (s, e)
            }
        },
        None => (s, e),
    }
}

/// Remove extra decimal digits, as `spec_cap_decimal` describes.
pub fn cap_decimal_digits(digits: Vec<u8>, e: i32, config: FmtFloatConfig) -> (r: (Vec<u8>, i32))
    requires
        is_digit_seq(digits@),
        -0x4000_0000 <= e <= 0x4000_0000,
        digits@.len() <= 0x4000_0000,
    ensures
        r.0@ == spec_cap_decimal(digits@, e as int, config).0,
        r.1 as int == spec_cap_decimal(digits@, e as int, config).1,
        is_digit_seq(r.0@),
        r.0@.len() <= digits@.len() || r.0@.len() == 1,
        e <= r.1 <= e + 1,
{
    match config.max_decimal_digits {
        Some(limit) => {
            let pos: i32 = limit as i32 + e;
            if 0 <= pos && pos < digits.len() as i32 {
                let pos = pos as usize;
                let removed = digits[pos];
                let mut work = digits;
                work.truncate(pos);
                proof {
                    assert(work@ =~= digits@.take(pos as int));
                }
                if config.round_mode == RoundMode::Round && removed >= ASCII_FIVE {
                    round_up_digits(work, e)
                } else {
                    (work, e)
                }
            } else {
                (digits, e)
            }
        },
        None => (digits, e),
    }
}

/// One scan step of extreme-run suppression. Walking the digits left to
/// right with counters for the current run of nines and of zeros, the first
/// run that reaches the limit ends the output: a run of nines is dropped and
/// the digit before it rounds up one (collapsing to `1` with the exponent
/// bumped when the nines reach back to the start), while a run of zeros is
/// simply dropped. Digits after the run are discarded either way.
pub open spec fn spec_strip_scan(
    s: Seq<u8>,
    limit: nat,
    e: int,
    i: nat,
    nines: nat,
    zeros: nat,
    acc: Seq<u8>,
) -> (Seq<u8>, int)
    decreases s.len() - i,
{
    if i >= s.len() {
        (acc, e)
    } else {
        let d = s[i as int];
        let nines2: nat = if d == 57 { nines + 1 } else { 0 };
        if d == 57 && nines2 >= limit {
            let kept = acc.take(acc.len() + 1 - nines2);
            if kept.len() == 0 {
                (seq![49u8], e + 1)
            } else {
                (kept.drop_last().push((kept.last() + 1) as u8), e)
            }
        } else {
            let zeros2: nat = if d == 48 { zeros + 1 } else { 0 };
            if d == 48 && zeros2 >= limit {
                (acc.take(acc.len() + 1 - zeros2), e)
            } else {
                spec_strip_scan(s, limit, e, i + 1, nines2, zeros2, acc.push(d))
            }
        }
    }
}

/// Digits and exponent after suppressing the first run of extreme digits
/// (all nines or all zeros) of the configured length, if any.
pub open spec fn spec_strip_extremes(s: Seq<u8>, e: int, config: FmtFloatConfig) -> (Seq<u8>, int) {
    match config.ignore_extremes {
        Some(limit) => spec_strip_scan(s, limit as nat, e, 0, 0, 0, Seq::empty()),
        None => (s, e),
    }
}

/// Suppress runs of extreme digits, as `spec_strip_extremes` describes.
pub fn strip_extreme_runs(digits: Vec<u8>, e: i32, config: FmtFloatConfig) -> (r: (Vec<u8>, i32))
    requires
        is_digit_seq(digits@),
        e < i32::MAX,
    ensures
        r.0@ == spec_strip_extremes(digits@, e as int, config).0,
        r.1 as int == spec_strip_extremes(digits@, e as int, config).1,
        is_digit_seq(r.0@),
        r.0@.len() <= digits@.len() || r.0@.len() == 1,
        e <= r.1 <= e + 1,
{
    let limit: usize = match config.ignore_extremes {
        Some(limit) => limit as usize,
        None => {
            return (digits, e);
        },
    };
    let ghost limit0: nat = (config.ignore_extremes->0) as nat;
    let ghost e0: int = e as int;
    let mut stripped: Vec<u8> = Vec::new();
    let mut nines: usize = 0;
    let mut zeros: usize = 0;
    let mut i: usize = 0;
    while i < digits.len()
        invariant
            is_digit_seq(digits@),
            e < i32::MAX,
            config.ignore_extremes is Some,
            limit0 == config.ignore_extremes->0 as nat,
            e0 == e as int,
            limit == limit0,
            i <= digits@.len(),
            stripped@ == digits@.take(i as int),
            nines <= i,
            zeros <= i,
            nines == i || digits@[i - nines - 1] != 57,
            spec_strip_scan(digits@, limit0, e0, i as nat, nines as nat, zeros as nat, stripped@)
                == spec_strip_scan(digits@, limit0, e0, 0, 0, 0, Seq::empty()),
        decreases digits@.len() - i,
    {
        let d = digits[i];
        let ghost acc0: Seq<u8> = stripped@;
        let ghost nines_old: nat = nines as nat;
        if d == ASCII_NINE {
            nines = nines + 1;
        } else {
            nines = 0;
        }
        if d == ASCII_NINE && nines >= limit {
            // a run of nines: drop it and round the digit before it up
            let ghost step: (Seq<u8>, int) = spec_strip_scan(
                digits@,
                limit0,
                e0,
                i as nat,
                nines_old,
                zeros as nat,
                acc0,
            );
            let ghost kept: Seq<u8> = acc0.take(acc0.len() + 1 - (nines_old + 1));
            stripped.truncate(stripped.len() + 1 - nines);
            proof {
                assert(stripped@ =~= kept);
            }
            if stripped.len() == 0 {
                let mut one: Vec<u8> = Vec::new();
                one.push(ASCII_ONE);
                proof {
                    assert(one@ =~= seq![49u8]);
                    assert(step == (seq![49u8], e0 + 1));
                }
                return (one, e + 1);
            } else {
                let l = stripped.len() - 1;
                let v = stripped[l];
                proof {
                    // the digit just before the run of nines is not a nine
                    assert(stripped@.last() == digits@[i - nines_old - 1]);
                }
                stripped[l] = v + 1;
                proof {
                    assert(stripped@ =~= kept.drop_last().push((kept.last() + 1) as u8));
                    assert(step == (kept.drop_last().push((kept.last() + 1) as u8), e0));
                }
                return (stripped, e);
            }
        }
        let ghost zeros_old: nat = zeros as nat;
        if d == ASCII_ZERO {
            zeros = zeros + 1;
        } else {
            zeros = 0;
        }
        if d == ASCII_ZERO && zeros >= limit {
            // a run of zeros: drop it outright
            let ghost step: (Seq<u8>, int) = spec_strip_scan(
                digits@,
                limit0,
                e0,
                i as nat,
                nines_old,
                zeros_old,
                acc0,
            );
            let ghost kept: Seq<u8> = acc0.take(acc0.len() + 1 - (zeros_old + 1));
            stripped.truncate(stripped.len() + 1 - zeros);
            proof {
                assert(stripped@ =~= kept);
                assert(step == (kept, e0));
            }
            return (stripped, e);
        }
        stripped.push(d);
        proof {
            assert(stripped@ =~= digits@.take(i + 1 as int));
            assert(spec_strip_scan(digits@, limit0, e0, i as nat, nines_old, zeros_old, acc0)
                == spec_strip_scan(
                digits@,
                limit0,
                e0,
                (i + 1) as nat,
                nines as nat,
                zeros as nat,
                acc0.push(d),
            ));
        }
        i = i + 1;
    }
    proof {
        assert(digits@.take(digits@.len() as int) =~= digits@);
    }
    (stripped, e)
}

/// A digit sequence padded with trailing zero digits up to a target length;
/// a sequence already long enough is unchanged.
pub open spec fn spec_zero_pad(s: Seq<u8>, n: int) -> Seq<u8> {
    if s.len() >= n {
        s
    } else {
        s + Seq::new((n - s.len()) as nat, |j: int| 48u8)
    }
}

/// Digits after padding to the minimum significant-digit count.
pub open spec fn spec_pad_significant(s: Seq<u8>, config: FmtFloatConfig) -> Seq<u8> {
    match config.min_sig_digits {
        Some(limit) => spec_zero_pad(s, limit as int),
        None => s,
    }
}

/// Digits after padding to the minimum decimal-digit count; the target
/// position is the decimal-digit minimum shifted by the exponent.
pub open spec fn spec_pad_decimal(s: Seq<u8>, e: int, config: FmtFloatConfig) -> Seq<u8> {
    match config.min_decimal_digits {
        Some(limit) => spec_zero_pad(s, limit + e),
        None => s,
    }
}

/// Append trailing zero digits until the sequence is `n` long.
fn pad_with_zeros(digits: Vec<u8>, n: usize) -> (r: Vec<u8>)
    requires
        is_digit_seq(digits@),
    ensures
        r@ == spec_zero_pad(digits@, n as int),
        is_digit_seq(r@),
        digits@.len() <= r@.len(),
        r@.len() <= digits@.len() || r@.len() == n,
{
    let mut work = digits;
    let ghost orig: Seq<u8> = work@;
    while work.len() < n
        invariant
            is_digit_seq(work@),
            orig.len() <= work@.len(),
            work@.len() <= n || work@.len() == orig.len(),
            work@ == spec_zero_pad(orig, work@.len() as int),
        decreases n - work@.len(),
    {
        let ghost before: Seq<u8> = work@;
        work.push(ASCII_ZERO);
        proof {
            assert(work@ =~= spec_zero_pad(orig, work@.len() as int));
        }
    }
    proof {
        assert(work@ =~= spec_zero_pad(orig, n as int));
    }
    work
}

/// Pad zeros to reach the minimum significant-digit count, as
/// `spec_pad_significant` describes.
pub fn pad_significant_digits(digits: Vec<u8>, config: FmtFloatConfig) -> (r: Vec<u8>)
    requires
        is_digit_seq(digits@),
    ensures
        r@ == spec_pad_significant(digits@, config),
        is_digit_seq(r@),
        digits@.len() <= r@.len(),
        r@.len() <= digits@.len() || r@.len() <= 255,
{
    match config.min_sig_digits {
        Some(limit) => pad_with_zeros(digits, limit as usize),
        None => digits,
    }
}

/// Pad zeros to reach the minimum decimal-digit count, as
/// `spec_pad_decimal` describes.
pub fn pad_decimal_digits(digits: Vec<u8>, e: i32, config: FmtFloatConfig) -> (r: Vec<u8>)
    requires
        is_digit_seq(digits@),
        -0x4000_0000 <= e <= 0x4000_0000,
        digits@.len() <= 0x4000_0000,
    ensures
        r@ == spec_pad_decimal(digits@, e as int, config),
        is_digit_seq(r@),
        digits@.len() <= r@.len(),
        r@.len() <= digits@.len() || r@.len() as int <= 127 + e,
{
    match config.min_decimal_digits {
        Some(limit) => {
            let target: i32 = limit as i32 + e;
            if target > digits.len() as i32 {
                pad_with_zeros(digits, target as usize)
            } else {
                digits
            }
        },
        None => digits,
    }
}

} // verus!
