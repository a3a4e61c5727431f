use vstd::prelude::*;

use crate::config::FmtFloatConfig;
use crate::digits::digit_seq_val;
use crate::digits::is_digit_seq;
use crate::digits::pow10;
use crate::render::spec_assemble_e;
use crate::render::spec_assemble_plain;
use crate::render::spec_chars;
use crate::render::spec_digit_char;
use crate::render::spec_digits_to_a;
use crate::render::spec_int_chars;
use crate::render::spec_nat_chars;
use crate::render::spec_use_e_notation;
use crate::render::spec_zero_chars;

verus! {

/// The state of reading a decimal numeral left to right: the digits seen
/// so far as an integer, how many of them came after the point, whether
/// the point and the exponent marker have passed, and the exponent's sign
/// and digits.
pub struct ReadState {
    pub m: int,
    pub frac: int,
    pub seen_point: bool,
    pub in_exp: bool,
    pub exp_neg: bool,
    pub x: int,
}

/// The reading of one character: digits accumulate into the mantissa or,
/// after the marker, into the exponent; the point starts the fraction
/// count; a minus sign after the marker makes the exponent negative; any
/// other character changes nothing.
pub open spec fn read_step(st: ReadState, c: char) -> ReadState {
    let cv = c as int;
    if 48 <= cv <= 57 {
        if st.in_exp {
            ReadState { x: st.x * 10 + (cv - 48), ..st }
        } else if st.seen_point {
            ReadState { m: st.m * 10 + (cv - 48), frac: st.frac + 1, ..st }
        } else {
            ReadState { m: st.m * 10 + (cv - 48), ..st }
        }
    } else if cv == 46 {
        ReadState { seen_point: true, ..st }
    } else if cv == 101 || cv == 69 {
        ReadState { in_exp: true, ..st }
    } else if cv == 45 && st.in_exp {
        ReadState { exp_neg: true, ..st }
    } else {
        st
    }
}

/// Reading a character sequence left to right from a starting state.
pub open spec fn read_fold(t: Seq<char>, st: ReadState) -> ReadState
    decreases t.len(),
{
    if t.len() == 0 {
        st
    } else {
        read_fold(t.drop_first(), read_step(st, t.first()))
    }
}

/// The reading of a whole decimal numeral: a leading minus sign makes it
/// negative, and the rest reads to a mantissa `m` with a scale `q`, the
/// numeral denoting `m * 10^q` (`q` combines the exponent part with the
/// count of digits after the point).
pub open spec fn spec_read_decimal(t: Seq<char>) -> (bool, int, int) {
    let neg = t.len() > 0 && t.first() == '-';
    let body = if neg {
        t.drop_first()
    } else {
        t
    };
    let st = read_fold(body, ReadState { m: 0, frac: 0, seen_point: false, in_exp: false, exp_neg: false, x: 0 });
    let ex = if st.in_exp {
        if st.exp_neg {
            -st.x
        } else {
            st.x
        }
    } else {
        0
    };
    (neg, st.m, ex - st.frac)
}

/// Reading a concatenation is reading the first part and then the second.
proof fn lemma_read_fold_concat(t1: Seq<char>, t2: Seq<char>, st: ReadState)
    ensures
        read_fold(t1 + t2, st) == read_fold(t2, read_fold(t1, st)),
    decreases t1.len(),
{
    if t1.len() == 0 {
        assert(t1 + t2 =~= t2);
    } else {
        assert((t1 + t2).first() == t1.first());
        assert((t1 + t2).drop_first() =~= t1.drop_first() + t2);
        lemma_read_fold_concat(t1.drop_first(), t2, read_step(st, t1.first()));
    }
}

/// Reading a single character is one step.
proof fn lemma_read_one(c: char, st: ReadState)
    ensures
        read_fold(seq![c], st) == read_step(st, c),
{
    assert(seq![c].drop_first() =~= Seq::<char>::empty());
    assert(read_fold(Seq::<char>::empty(), read_step(st, c)) == read_step(st, c));
}

/// Reading two characters is two steps.
proof fn lemma_read_two(c1: char, c2: char, st: ReadState)
    ensures
        read_fold(seq![c1, c2], st) == read_step(read_step(st, c1), c2),
{
    assert(seq![c1, c2].drop_first() =~= seq![c2]);
    lemma_read_one(c2, read_step(st, c1));
}

/// A one-digit string's value is its digit.
proof fn lemma_digit_val_single(s: Seq<u8>)
    requires
        s.len() == 1,
    ensures
        digit_seq_val(s) == s[0] - 48,
{
    assert(s.drop_last() =~= Seq::<u8>::empty());
    assert(digit_seq_val(Seq::<u8>::empty()) == 0);
}

/// The value of concatenated digit strings.
proof fn lemma_digit_val_concat(a: Seq<u8>, b: Seq<u8>)
    ensures
        digit_seq_val(a + b) == digit_seq_val(a) * pow10(b.len()) + digit_seq_val(b),
    decreases b.len(),
{
    if b.len() == 0 {
        assert(a + b =~= a);
    } else {
        assert((a + b).drop_last() =~= a + b.drop_last());
        assert((a + b).last() == b.last());
        lemma_digit_val_concat(a, b.drop_last());
        let v = digit_seq_val(a);
        let k = b.len() - 1;
        assert(v * pow10((k + 1) as nat) == (v * pow10(k as nat)) * 10) by (nonlinear_arith)
            requires
                pow10((k + 1) as nat) == 10 * pow10(k as nat),
        ;
        assert(pow10((k + 1) as nat) == 10 * pow10(k as nat));
    }
}

/// Reading a run of digit characters multiplies the mantissa by the run's
/// power of ten and adds the run's value; the fraction count grows by the
/// run's length once the point has passed.
proof fn lemma_read_digits(s: Seq<u8>, st: ReadState)
    requires
        is_digit_seq(s),
        !st.in_exp,
    ensures
        ({
            let r = read_fold(spec_chars(s), st);
            &&& r.m == st.m * pow10(s.len()) + digit_seq_val(s)
            &&& r.frac == st.frac + (if st.seen_point {
                s.len() as int
            } else {
                0int
            })
            &&& r.seen_point == st.seen_point
            &&& r.in_exp == false
            &&& r.exp_neg == st.exp_neg
            &&& r.x == st.x
        }),
    decreases s.len(),
{
    if s.len() == 0 {
        assert(spec_chars(s) =~= Seq::<char>::empty());
    } else {
        let t = s.drop_last();
        assert(is_digit_seq(t));
        lemma_read_digits(t, st);
        assert(spec_chars(s) =~= spec_chars(t) + seq![s.last() as char]);
        lemma_read_fold_concat(spec_chars(t), seq![s.last() as char], st);
        let r1 = read_fold(spec_chars(t), st);
        lemma_read_one(s.last() as char, r1);
        assert(48 <= (s.last() as char) as int <= 57);
        let k = t.len();
        assert(st.m * pow10((k + 1) as nat) == (st.m * pow10(k as nat)) * 10) by (nonlinear_arith)
            requires
                pow10((k + 1) as nat) == 10 * pow10(k as nat),
        ;
        assert(pow10((k + 1) as nat) == 10 * pow10(k as nat));
    }
}

/// Reading a run of zero characters multiplies the mantissa by the run's
/// power of ten.
proof fn lemma_read_zeros(n: int, st: ReadState)
    requires
        0 <= n,
        !st.in_exp,
    ensures
        ({
            let r = read_fold(spec_zero_chars(n), st);
            &&& r.m == st.m * pow10(n as nat)
            &&& r.frac == st.frac + (if st.seen_point {
                n
            } else {
                0int
            })
            &&& r.seen_point == st.seen_point
            &&& r.in_exp == false
            &&& r.exp_neg == st.exp_neg
            &&& r.x == st.x
        }),
    decreases n,
{
    if n == 0 {
        assert(spec_zero_chars(0) =~= Seq::<char>::empty());
        assert(st.m * pow10(0) == st.m) by (nonlinear_arith)
            requires
                pow10(0) == 1,
        ;
    } else {
        lemma_read_zeros(n - 1, st);
        assert(spec_zero_chars(n) =~= spec_zero_chars(n - 1) + seq!['0']);
        lemma_read_fold_concat(spec_zero_chars(n - 1), seq!['0'], st);
        let r1 = read_fold(spec_zero_chars(n - 1), st);
        lemma_read_one('0', r1);
        let k = n - 1;
        assert(st.m * pow10((k + 1) as nat) == (st.m * pow10(k as nat)) * 10) by (nonlinear_arith)
            requires
                pow10((k + 1) as nat) == 10 * pow10(k as nat),
        ;
        assert(pow10((k + 1) as nat) == 10 * pow10(k as nat));
    }
}

/// Reading the written digits of a nonnegative integer inside the exponent
/// part recovers the integer.
proof fn lemma_read_exp_digits(n: int, st: ReadState)
    requires
        0 <= n,
        st.in_exp,
    ensures
        ({
            let r = read_fold(spec_nat_chars(n), st);
            &&& r.x == st.x * pow10(spec_nat_chars(n).len()) + n
            &&& r.m == st.m
            &&& r.frac == st.frac
            &&& r.seen_point == st.seen_point
            &&& r.in_exp == true
            &&& r.exp_neg == st.exp_neg
        }),
    decreases n,
{
    if n <= 9 {
        assert(spec_nat_chars(n) =~= seq![spec_digit_char(n)]);
        lemma_read_one(spec_digit_char(n), st);
        assert(spec_digit_char(n) as int == 48 + n);
        assert(pow10(0) == 1);
        assert(pow10(1) == 10);
        assert(st.x * pow10(1) == st.x * 10) by (nonlinear_arith)
            requires
                pow10(1) == 10,
        ;
    } else {
        lemma_read_exp_digits(n / 10, st);
        assert(spec_nat_chars(n) =~= spec_nat_chars(n / 10) + seq![spec_digit_char(n % 10)]);
        lemma_read_fold_concat(spec_nat_chars(n / 10), seq![spec_digit_char(n % 10)], st);
        let r1 = read_fold(spec_nat_chars(n / 10), st);
        lemma_read_one(spec_digit_char(n % 10), r1);
        assert(spec_digit_char(n % 10) as int == 48 + n % 10);
        let k = spec_nat_chars(n / 10).len();
        assert(st.x * pow10((k + 1) as nat) == (st.x * pow10(k as nat)) * 10) by (nonlinear_arith)
            requires
                pow10((k + 1) as nat) == 10 * pow10(k as nat),
        ;
        assert(pow10((k + 1) as nat) == 10 * pow10(k as nat));
        assert(spec_nat_chars(n).len() == k + 1);
    }
}

/// Reading the written exponent (the integer, with its sign) recovers it.
proof fn lemma_read_int_chars(n: int, st: ReadState)
    requires
        st.in_exp,
        !st.exp_neg,
        st.x == 0,
    ensures
        ({
            let r = read_fold(spec_int_chars(n), st);
            &&& (if r.exp_neg {
                -r.x
            } else {
                r.x
            }) == n
            &&& r.m == st.m
            &&& r.frac == st.frac
            &&& r.in_exp == true
        }),
{
    if n < 0 {
        assert(spec_int_chars(n) =~= seq!['-'] + spec_nat_chars(-n));
        lemma_read_fold_concat(seq!['-'], spec_nat_chars(-n), st);
        let st1 = read_step(st, '-');
        lemma_read_one('-', st);
        lemma_read_exp_digits(-n, st1);
        assert(0 * pow10(spec_nat_chars(-n).len()) == 0) by (nonlinear_arith);
    } else {
        lemma_read_exp_digits(n, st);
        assert(0 * pow10(spec_nat_chars(n).len()) == 0) by (nonlinear_arith);
    }
}

/// Reading back a plain rendering recovers the sign and denotes the value
/// the digits and exponent stand for.
#[verifier::rlimit(100)]
proof fn lemma_read_plain(sign: bool, s: Seq<u8>, e: int, config: FmtFloatConfig)
    requires
        is_digit_seq(s),
        1 <= s.len(),
        config.radix_point == '.',
    ensures
        ({
            let r = spec_read_decimal(spec_assemble_plain(sign, s, e, config));
            &&& r.0 == sign
            &&& r.2 <= e - s.len()
            &&& r.1 == digit_seq_val(s) * pow10((e - s.len() - r.2) as nat)
        }),
{
    let head: Seq<char> = if sign {
        seq!['-']
    } else {
        Seq::empty()
    };
    let lead: Seq<char> = if e <= 0 {
        seq!['0', '.'] + spec_zero_chars(-e)
    } else {
        Seq::empty()
    };
    let body: Seq<char> = if 0 < e < s.len() {
        spec_chars(s.take(e)) + seq!['.'] + spec_chars(s.skip(e))
    } else {
        spec_chars(s)
    };
    let tzs: Seq<char> = if e > s.len() {
        spec_zero_chars(e - s.len())
    } else {
        Seq::empty()
    };
    let suffix: Seq<char> = if s.len() <= e && config.add_point_zero {
        seq!['.', '0']
    } else {
        Seq::empty()
    };
    let out = spec_assemble_plain(sign, s, e, config);
    assert(out == head + lead + body + tzs + suffix);
    let rest = lead + body + tzs + suffix;
    assert(out =~= head + rest);
    let st0 = ReadState { m: 0, frac: 0, seen_point: false, in_exp: false, exp_neg: false, x: 0 };
    // the sign is the leading minus, and nothing else can look like one
    if sign {
        assert(out.first() == '-');
        assert(out.drop_first() =~= rest);
    } else {
        assert(out =~= rest);
        if e <= 0 {
            assert(out.first() == '0');
        } else {
            assert(out.first() == (s[0] as char));
            assert(48 <= (s[0] as char) as int <= 57);
        }
        assert(out.first() != '-');
    }
    let r = spec_read_decimal(out);
    assert(r.0 == sign);
    // read the pieces in order
    lemma_read_fold_concat(lead, body + tzs + suffix, st0);
    assert(rest =~= lead + (body + tzs + suffix));
    let st_lead = read_fold(lead, st0);
    if e <= 0 {
        assert(lead =~= seq!['0', '.'] + spec_zero_chars(-e));
        lemma_read_fold_concat(seq!['0', '.'], spec_zero_chars(-e), st0);
        lemma_read_two('0', '.', st0);
        let st_a = read_fold(seq!['0', '.'], st0);
        assert(st_a == read_step(read_step(st0, '0'), '.'));
        lemma_read_zeros(-e, st_a);
        assert(st_lead.m == 0 && st_lead.frac == -e && st_lead.seen_point && !st_lead.in_exp);
        assert(0 * pow10((-e) as nat) == 0) by (nonlinear_arith);
    } else {
        assert(lead =~= Seq::<char>::empty());
        assert(st_lead == st0);
    }
    lemma_read_fold_concat(body, tzs + suffix, st_lead);
    assert(body + tzs + suffix =~= body + (tzs + suffix));
    let st_body = read_fold(body, st_lead);
    if 0 < e < s.len() {
        lemma_read_fold_concat(spec_chars(s.take(e)), seq!['.'] + spec_chars(s.skip(e)), st_lead);
        assert(body =~= spec_chars(s.take(e)) + (seq!['.'] + spec_chars(s.skip(e))));
        assert(is_digit_seq(s.take(e)));
        assert(is_digit_seq(s.skip(e)));
        lemma_read_digits(s.take(e), st_lead);
        let st_i = read_fold(spec_chars(s.take(e)), st_lead);
        lemma_read_fold_concat(seq!['.'], spec_chars(s.skip(e)), st_i);
        let st_p = read_step(st_i, '.');
        lemma_read_one('.', st_i);
        lemma_read_digits(s.skip(e), st_p);
        assert(s.take(e) + s.skip(e) =~= s);
        lemma_digit_val_concat(s.take(e), s.skip(e));
        assert(st_body.m == digit_seq_val(s.take(e)) * pow10((s.len() - e) as nat) + digit_seq_val(
            s.skip(e),
        ));
        assert(st_body.frac == s.len() - e);
        assert(st_body.seen_point && !st_body.in_exp);
        assert(0 * pow10(e as nat) == 0) by (nonlinear_arith);
    } else {
        assert(is_digit_seq(s));
        lemma_read_digits(s, st_lead);
        if e <= 0 {
            assert(0 * pow10(s.len()) == 0) by (nonlinear_arith);
            assert(st_body.m == digit_seq_val(s));
            assert(st_body.frac == -e + s.len());
        } else {
            assert(0 * pow10(s.len()) == 0) by (nonlinear_arith);
            assert(st_body.m == digit_seq_val(s));
            assert(st_body.frac == 0);
            assert(!st_body.seen_point);
        }
    }
    lemma_read_fold_concat(tzs, suffix, st_body);
    let st_tzs = read_fold(tzs, st_body);
    if e > s.len() {
        lemma_read_zeros(e - s.len(), st_body);
        assert(st_tzs.m == st_body.m * pow10((e - s.len()) as nat));
        assert(st_tzs.frac == st_body.frac);
    } else {
        assert(tzs =~= Seq::<char>::empty());
        assert(st_tzs == st_body);
    }
    let st_end = read_fold(suffix, st_tzs);
    if s.len() <= e && config.add_point_zero {
        assert(suffix =~= seq!['.', '0']);
        lemma_read_two('.', '0', st_tzs);
        assert(st_end == read_step(read_step(st_tzs, '.'), '0'));
        assert(st_end.m == st_tzs.m * 10 && st_end.frac == st_tzs.frac + 1);
    } else {
        assert(suffix =~= Seq::<char>::empty());
        assert(st_end == st_tzs);
    }
    assert(read_fold(rest, st0) == st_end);
    assert(!st_end.in_exp);
    // pull the accumulated powers of ten together, case by case
    let v = digit_seq_val(s);
    if e <= 0 {
        assert(r.2 == e - s.len());
        assert(r.1 == v * pow10(0));
    } else if e < s.len() {
        assert(r.2 == e - s.len());
        assert(r.1 == v * pow10(0));
    } else {
        let k: int = e - s.len();
        assert(pow10(0) == 1);
        if e == s.len() {
            assert(st_tzs == st_body);
            assert(st_tzs.m == v * pow10(k as nat));
        } else {
            assert(st_tzs.m == v * pow10(k as nat));
        }
        if config.add_point_zero {
            assert(st_end.m == (v * pow10(k as nat)) * 10);
            assert((v * pow10(k as nat)) * 10 == v * pow10((k + 1) as nat)) by (nonlinear_arith)
                requires
                    pow10((k + 1) as nat) == 10 * pow10(k as nat),
            ;
            assert(pow10((k + 1) as nat) == 10 * pow10(k as nat));
            assert(r.2 == -1);
        } else {
            assert(r.2 == 0);
        }
    }
}

/// Reading back an e-notation rendering (with no width budget) recovers
/// the sign and denotes the value the digits and exponent stand for.
proof fn lemma_read_e_notation(sign: bool, s: Seq<u8>, e: int, config: FmtFloatConfig)
    requires
        is_digit_seq(s),
        1 <= s.len(),
        config.radix_point == '.',
        config.max_width is None,
    ensures
        ({
            let r = spec_read_decimal(spec_assemble_e(sign, s, e, config));
            &&& r.0 == sign
            &&& r.2 <= e - s.len()
            &&& r.1 == digit_seq_val(s) * pow10((e - s.len() - r.2) as nat)
        }),
{
    let head: Seq<char> = if sign {
        seq!['-']
    } else {
        Seq::empty()
    };
    let marker: char = if config.capitalize_e {
        'E'
    } else {
        'e'
    };
    let mid: Seq<char> = if s.len() == 1 {
        seq!['0']
    } else {
        spec_chars(s.skip(1))
    };
    let out = spec_assemble_e(sign, s, e, config);
    assert(out == head + seq![s[0] as char, '.'] + mid + seq![marker] + spec_int_chars(e - 1));
    let rest = seq![s[0] as char, '.'] + mid + seq![marker] + spec_int_chars(e - 1);
    assert(out =~= head + rest);
    let st0 = ReadState { m: 0, frac: 0, seen_point: false, in_exp: false, exp_neg: false, x: 0 };
    if sign {
        assert(out.first() == '-');
        assert(out.drop_first() =~= rest);
    } else {
        assert(out =~= rest);
        assert(out.first() == (s[0] as char));
        assert(48 <= (s[0] as char) as int <= 57);
        assert(out.first() != '-');
    }
    let r = spec_read_decimal(out);
    assert(r.0 == sign);
    assert(rest =~= seq![s[0] as char, '.'] + (mid + (seq![marker] + spec_int_chars(e - 1))));
    lemma_read_fold_concat(seq![s[0] as char, '.'], mid + (seq![marker] + spec_int_chars(e - 1)), st0);
    lemma_read_two(s[0] as char, '.', st0);
    let st_a = read_step(read_step(st0, s[0] as char), '.');
    assert(st_a.m == s[0] - 48 && st_a.frac == 0 && st_a.seen_point && !st_a.in_exp);
    lemma_read_fold_concat(mid, seq![marker] + spec_int_chars(e - 1), st_a);
    let st_mid = read_fold(mid, st_a);
    // the mantissa read so far is the digit string's value, scaled by one
    // extra place in the lone-digit shape
    if s.len() == 1 {
        lemma_read_one('0', st_a);
        assert(st_mid == read_step(st_a, '0'));
        lemma_digit_val_single(s);
        assert(st_mid.m == digit_seq_val(s) * 10 && st_mid.frac == 1);
    } else {
        assert(is_digit_seq(s.skip(1)));
        lemma_read_digits(s.skip(1), st_a);
        assert(s.take(1) + s.skip(1) =~= s);
        lemma_digit_val_concat(s.take(1), s.skip(1));
        lemma_digit_val_single(s.take(1));
        assert(digit_seq_val(s.take(1)) == s[0] - 48);
        assert(st_mid.m == (s[0] - 48) * pow10((s.len() - 1) as nat) + digit_seq_val(s.skip(1)));
        assert(st_mid.m == digit_seq_val(s));
        assert(st_mid.frac == s.len() - 1);
    }
    assert(st_mid.seen_point && !st_mid.in_exp);
    lemma_read_fold_concat(seq![marker], spec_int_chars(e - 1), st_mid);
    let st_mk = read_step(st_mid, marker);
    lemma_read_one(marker, st_mid);
    assert(st_mk.in_exp && !st_mk.exp_neg && st_mk.x == 0);
    assert(st_mk.m == st_mid.m && st_mk.frac == st_mid.frac);
    lemma_read_int_chars(e - 1, st_mk);
    let st_end = read_fold(spec_int_chars(e - 1), st_mk);
    assert(read_fold(rest, st0) == st_end);
    assert(r.2 == (e - 1) - st_mid.frac);
    if s.len() == 1 {
        assert(r.2 == e - 2);
        assert(r.1 == digit_seq_val(s) * 10);
        assert(pow10(0) == 1);
        assert(pow10(1) == 10);
        assert(digit_seq_val(s) * pow10(1) == digit_seq_val(s) * 10) by (nonlinear_arith)
            requires
                pow10(1) == 10,
        ;
    } else {
        assert(r.2 == e - s.len());
        assert(r.1 == digit_seq_val(s));
        assert(digit_seq_val(s) * pow10(0) == digit_seq_val(s)) by (nonlinear_arith)
            requires
                pow10(0) == 1,
        ;
    }
}

/// Read-back law completing the round-trip story on the renderer's side:
/// with no digit limit, no extreme-run suppression, no width budget, and
/// the ordinary point character — as in the default configuration — the
/// output string, read as a decimal numeral, denotes exactly the value
/// `0.d1d2... * 10^e` that the digit sequence and exponent stand for: the
/// reading gives the sign back, and its mantissa and scale satisfy
/// `m * 10^q == digits * 10^(e - len)`. A correctly rounding parser
/// therefore returns the very float the digit generator started from.
pub proof fn lemma_default_read_back(sign: bool, s: Seq<u8>, e: int, config: FmtFloatConfig)
    requires
        is_digit_seq(s),
        1 <= s.len(),
        config.max_sig_digits is None,
        config.min_sig_digits is None,
        config.max_decimal_digits is None,
        config.min_decimal_digits is None,
        config.ignore_extremes is None,
        config.max_width is None,
        config.radix_point == '.',
    ensures
        ({
            let r = spec_read_decimal(spec_digits_to_a(sign, s, e, config));
            &&& r.0 == sign
            &&& r.2 <= e - s.len()
            &&& r.1 == digit_seq_val(s) * pow10((e - s.len() - r.2) as nat)
        }),
{
    crate::laws::lemma_default_faithful(sign, s, e, config);
    if spec_use_e_notation(e, config) {
        lemma_read_e_notation(sign, s, e, config);
    } else {
        lemma_read_plain(sign, s, e, config);
    }
}

} // verus!
