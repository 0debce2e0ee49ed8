//! Exact decimal numbers. A corner coordinate such as `-1.20` is kept as the
//! value it denotes — sign, integer mantissa and count of fraction digits —
//! so that parsing, comparison and the coordinate mapping are exact.

use crate::numeral::{
    all_digits, check_digits, digit_val, digits_only, digits_to_value, digits_val, is_digit,
    lemma_digits_val_nonneg,
};
use crate::parse::{lemma_sep_position_characterizes, sep_position, FromText};
use vstd::prelude::*;

verus! {

/// Most fraction digits a `Dec` may carry.
pub const MAX_FRAC: u32 = 18;

/// The value `(-1)^neg * mant / 10^frac`, exactly.
#[derive(Clone, Copy, Debug, PartialEq, Eq, Structural)]
pub struct Dec {
    pub neg: bool,
    pub mant: u64,
    pub frac: u32,
}

pub open spec fn pow10(e: nat) -> nat
    decreases e,
{
    if e == 0 {
        1
    } else {
        10 * pow10((e - 1) as nat)
    }
}

pub proof fn lemma_pow10_monotone(e1: nat, e2: nat)
    requires
        e1 <= e2,
    ensures
        0 < pow10(e1) <= pow10(e2),
    decreases e2,
{
    if e2 > 0 {
        if e1 == e2 {
            lemma_pow10_monotone((e2 - 1) as nat, (e2 - 1) as nat);
        } else {
            lemma_pow10_monotone(e1, (e2 - 1) as nat);
        }
    }
}

impl Dec {
    /// Signed mantissa: the numerator of the denoted value.
    pub open spec fn num(self) -> int {
        if self.neg {
            -(self.mant as int)
        } else {
            self.mant as int
        }
    }

    /// Denominator of the denoted value, a power of ten.
    pub open spec fn den(self) -> int {
        pow10(self.frac as nat) as int
    }

    /// Well-formed: a bounded fraction count, and no negative zero.
    pub open spec fn wf(self) -> bool {
        self.frac <= MAX_FRAC && (self.mant == 0 ==> !self.neg)
    }

    pub fn check_wf(&self) -> (r: bool)
        ensures
            r == self.wf(),
    {
        self.frac <= MAX_FRAC && !(self.mant == 0 && self.neg)
    }
}

/// `10^e` as a machine word.
pub fn pow10_u64(e: u32) -> (r: u64)
    requires
        e <= MAX_FRAC,
    ensures
        r == pow10(e as nat),
        1 <= r <= 1000000000000000000u64,
{
    proof {
        lemma_pow10_monotone(e as nat, 18);
        reveal_with_fuel(pow10, 19);
        assert(pow10(18) == 1000000000000000000);
    }
    let mut r: u64 = 1;
    let mut i: u32 = 0;
    while i < e
        invariant
            i <= e <= MAX_FRAC,
            r == pow10(i as nat),
            pow10(e as nat) <= 1000000000000000000,
        decreases e - i,
    {
        proof {
            lemma_pow10_monotone((i + 1) as nat, e as nat);
        }
        r = r * 10;
        i = i + 1;
    }
    proof {
        lemma_pow10_monotone(e as nat, e as nat);
    }
    r
}

/// Value comparison of two decimals, by cross-multiplying the two exact
/// fractions: `a < b` as rational numbers.
pub open spec fn dec_lt_spec(a: Dec, b: Dec) -> bool {
    a.num() * b.den() < b.num() * a.den()
}

pub fn dec_lt(a: &Dec, b: &Dec) -> (r: bool)
    requires
        a.wf(),
        b.wf(),
    ensures
        r == dec_lt_spec(*a, *b),
{
    let pa: u64 = pow10_u64(b.frac);
    let pb: u64 = pow10_u64(a.frac);
    proof {
        assert((a.mant as i128) * (pa as i128) <= 0xFFFF_FFFF_FFFF_FFFFi128
            * 1000000000000000000i128) by (nonlinear_arith)
            requires
                a.mant <= 0xFFFF_FFFF_FFFF_FFFFu64,
                pa <= 1000000000000000000u64,
        ;
        assert((b.mant as i128) * (pb as i128) <= 0xFFFF_FFFF_FFFF_FFFFi128
            * 1000000000000000000i128) by (nonlinear_arith)
            requires
                b.mant <= 0xFFFF_FFFF_FFFF_FFFFu64,
                pb <= 1000000000000000000u64,
        ;
        assert((a.mant as i128) * (pa as i128) >= 0) by (nonlinear_arith);
        assert((b.mant as i128) * (pb as i128) >= 0) by (nonlinear_arith);
    }
    let scaled_a: i128 = (a.mant as i128) * (pa as i128);
    let scaled_b: i128 = (b.mant as i128) * (pb as i128);
    let left: i128 = if a.neg {
        -scaled_a
    } else {
        scaled_a
    };
    let right: i128 = if b.neg {
        -scaled_b
    } else {
        scaled_b
    };
    proof {
        assert((-(a.mant as int)) * (pa as int) == -((a.mant as int) * (pa as int)))
            by (nonlinear_arith);
        assert((-(b.mant as int)) * (pb as int) == -((b.mant as int) * (pb as int)))
            by (nonlinear_arith);
    }
    left < right
}

/// Concatenating two digit runs multiplies the left value by `10^|right|`.
pub proof fn lemma_digits_val_concat(a: Seq<char>, b: Seq<char>)
    ensures
        digits_val(a + b) == digits_val(a) * pow10(b.len()) + digits_val(b),
    decreases b.len(),
{
    if b.len() == 0 {
        assert(a + b =~= a);
        assert(digits_val(a) * 1 == digits_val(a)) by (nonlinear_arith);
    } else {
        let shorter = b.drop_last();
        assert((a + b).drop_last() =~= a + shorter);
        assert((a + b).last() == b.last());
        lemma_digits_val_concat(a, shorter);
        assert(10 * (digits_val(a) * pow10(shorter.len()) + digits_val(shorter)) + digit_val(
            b.last(),
        ) == digits_val(a) * (10 * pow10(shorter.len())) + (10 * digits_val(shorter) + digit_val(
            b.last(),
        ))) by (nonlinear_arith);
    }
}

/// Grammar of a decimal number: an optional `+` or `-` sign, a significand
/// of digits with an optional dot (digits on at least one side of it), and
/// optionally an exponent — `e` or `E`, an optional sign, and digits whose
/// value is at most `EXP_LIMIT`. The denoted value must be representable as
/// an exact decimal: after scaling by the exponent, an integer mantissa that
/// fits a 64-bit word and at most `MAX_FRAC` net fraction digits; a zero
/// mantissa denotes plain zero, never negative zero.
pub open spec fn parse_dec_spec(s: Seq<char>) -> Option<Dec> {
    if s.len() > 0 && (s[0] == '+' || s[0] == '-') {
        parse_dec_body(s[0] == '-', s.drop_first())
    } else {
        parse_dec_body(false, s)
    }
}

/// Largest exponent magnitude the grammar admits.
pub const EXP_LIMIT: u64 = 1000;

pub open spec fn is_exp_marker(c: char) -> bool {
    c == 'e' || c == 'E'
}

/// Index of the first exponent marker, if any.
pub open spec fn exp_position(s: Seq<char>) -> Option<int>
    decreases s.len(),
{
    if s.len() == 0 {
        None
    } else if is_exp_marker(s[0]) {
        Some(0int)
    } else {
        match exp_position(s.drop_first()) {
            None => None,
            Some(i) => Some(i + 1),
        }
    }
}

/// `exp_position` finds exactly the least index holding a marker.
pub proof fn lemma_exp_position_characterizes(s: Seq<char>)
    ensures
        match exp_position(s) {
            Some(i) => 0 <= i < s.len() && is_exp_marker(s[i]) && (forall|j: int|
                0 <= j < i ==> !is_exp_marker(s[j])),
            None => forall|j: int| 0 <= j < s.len() ==> !is_exp_marker(s[j]),
        },
    decreases s.len(),
{
    if s.len() > 0 && !is_exp_marker(s[0]) {
        let tail = s.drop_first();
        lemma_exp_position_characterizes(tail);
        assert(forall|j: int| 0 <= j < tail.len() ==> tail[j] == s[j + 1]);
        match exp_position(tail) {
            Some(i) => {
                assert forall|j: int| 0 <= j < i + 1 implies !is_exp_marker(s[j]) by {
                    if j > 0 {
                        assert(s[j] == tail[j - 1]);
                    }
                }
            },
            None => {
                assert forall|j: int| 0 <= j < s.len() implies !is_exp_marker(s[j]) by {
                    if j > 0 {
                        assert(s[j] == tail[j - 1]);
                    }
                }
            },
        }
    }
}

/// The exponent after its marker: an optional sign and a bounded digit run.
pub open spec fn parse_exp_spec(t: Seq<char>) -> Option<int> {
    if t.len() > 0 && (t[0] == '+' || t[0] == '-') {
        parse_exp_body(t[0] == '-', t.drop_first())
    } else {
        parse_exp_body(false, t)
    }
}

pub open spec fn parse_exp_body(neg: bool, t: Seq<char>) -> Option<int> {
    if t.len() > 0 && all_digits(t) && digits_val(t) <= EXP_LIMIT {
        Some(
            if neg {
                -digits_val(t)
            } else {
                digits_val(t)
            },
        )
    } else {
        None
    }
}

pub open spec fn parse_dec_body(neg: bool, body: Seq<char>) -> Option<Dec> {
    match exp_position(body) {
        None => parse_sig(neg, body, 0),
        Some(i) => match parse_exp_spec(body.skip(i + 1)) {
            None => None,
            Some(e) => parse_sig(neg, body.take(i), e),
        },
    }
}

/// The significand: digits with an optional dot, at least one digit in all.
pub open spec fn parse_sig(neg: bool, m: Seq<char>, e: int) -> Option<Dec> {
    match sep_position(m, '.') {
        None => {
            if m.len() > 0 && all_digits(m) {
                dec_from_parts(neg, digits_val(m), 0, e)
            } else {
                None
            }
        },
        Some(i) => {
            let int_part = m.take(i);
            let frac_part = m.skip(i + 1);
            if int_part.len() + frac_part.len() > 0 && all_digits(int_part) && all_digits(
                frac_part,
            ) {
                dec_from_parts(neg, digits_val(int_part + frac_part), frac_part.len() as int, e)
            } else {
                None
            }
        },
    }
}

/// The value `(-1)^neg * v * 10^(e - f)` as a `Dec`, when it is exactly
/// representable: a mantissa that fits a 64-bit word and at most `MAX_FRAC`
/// net fraction digits.
pub open spec fn dec_from_parts(neg: bool, v: int, f: int, e: int) -> Option<Dec> {
    let net = e - f;
    if net >= 0 {
        if v * pow10(net as nat) <= u64::MAX {
            Some(dec_of(neg, (v * pow10(net as nat)) as u64, 0))
        } else {
            None
        }
    } else {
        if v <= u64::MAX && -net <= MAX_FRAC {
            Some(dec_of(neg, v as u64, (-net) as u32))
        } else {
            None
        }
    }
}

/// Assemble a parsed decimal, normalising away a negative zero.
pub open spec fn dec_of(neg: bool, mant: u64, frac: u32) -> Dec {
    Dec { neg: neg && mant != 0, mant, frac }
}

pub proof fn lemma_parse_dec_wf(s: Seq<char>)
    requires
        parse_dec_spec(s).is_some(),
    ensures
        parse_dec_spec(s).unwrap().wf(),
{
}

/// A mantissa beyond the 64-bit range is never representable, whatever the
/// exponent direction.
proof fn lemma_from_parts_none_when_huge(neg: bool, v: int, f: int, e: int)
    requires
        v > u64::MAX,
        f >= 0,
    ensures
        dec_from_parts(neg, v, f, e) is None,
{
    let net = e - f;
    if net >= 0 {
        lemma_pow10_monotone(0, net as nat);
        assert(v * pow10(net as nat) >= v) by (nonlinear_arith)
            requires
                v >= 0,
                pow10(net as nat) >= 1,
        ;
    }
}

/// Scaling a positive mantissa by twenty or more decimal places leaves the
/// 64-bit range.
proof fn lemma_scaled_exceeds(v: int, net: nat)
    requires
        v >= 1,
        net >= 20,
    ensures
        v * pow10(net) > u64::MAX,
{
    lemma_pow10_monotone(20, net);
    reveal_with_fuel(pow10, 21);
    assert(pow10(20) == 100000000000000000000);
    assert(v * pow10(net) >= pow10(net)) by (nonlinear_arith)
        requires
            v >= 1,
            pow10(net) >= 0,
    ;
}

/// Value of the significand digits `s[start..ip_end)` and `s[fstart..m_end)`
/// read as one digit run, or `None` when it exceeds the 64-bit range.
fn sig_value(s: &str, start: usize, ip_end: usize, fstart: usize, m_end: usize) -> (r: Option<u64>)
    requires
        start <= ip_end <= fstart <= m_end <= s@.len(),
        forall|j: int| start <= j < ip_end ==> is_digit(#[trigger] s@[j]),
        forall|j: int| fstart <= j < m_end ==> is_digit(#[trigger] s@[j]),
    ensures
        ({
            let v = digits_val(
                s@.subrange(start as int, ip_end as int) + s@.subrange(fstart as int, m_end as int),
            );
            match r {
                Some(x) => x == v,
                None => v > u64::MAX,
            }
        }),
{
    let ghost int_part = s@.subrange(start as int, ip_end as int);
    let ghost frac_part = s@.subrange(fstart as int, m_end as int);
    let vi_opt = digits_to_value(s, start, ip_end, u64::MAX as u128);
    let vf_opt = digits_to_value(s, fstart, m_end, u64::MAX as u128);
    proof {
        lemma_digits_val_concat(int_part, frac_part);
        lemma_digits_val_nonneg(int_part);
        lemma_digits_val_nonneg(frac_part);
        lemma_pow10_monotone(0, frac_part.len());
        assert(digits_val(int_part) * pow10(frac_part.len()) >= digits_val(int_part))
            by (nonlinear_arith)
            requires
                digits_val(int_part) >= 0,
                pow10(frac_part.len()) >= 1,
        ;
    }
    match (vi_opt, vf_opt) {
        (Some(vi), Some(vf)) => {
            let f_len: usize = m_end - fstart;
            if vi == 0 {
                proof {
                    assert(0 * pow10(frac_part.len()) == 0) by (nonlinear_arith);
                }
                Some(vf as u64)
            } else if f_len >= 20 {
                proof {
                    lemma_scaled_exceeds(vi as int, frac_part.len());
                }
                None
            } else {
                let scale: u64;
                if f_len <= 18 {
                    scale = pow10_u64(f_len as u32);
                } else {
                    proof {
                        reveal_with_fuel(pow10, 20);
                        assert(pow10(19) == 10000000000000000000);
                    }
                    scale = 10000000000000000000;
                }
                proof {
                    assert((vi as u128) * (scale as u128) <= 18446744073709551615u128
                        * 10000000000000000000u128) by (nonlinear_arith)
                        requires
                            0 <= vi <= 18446744073709551615u128,
                            0 <= scale as u128 <= 10000000000000000000u128,
                    ;
                    assert((vi as u128) * (scale as u128) >= 0) by (nonlinear_arith);
                }
                let combined: u128 = (vi as u128) * (scale as u128) + (vf as u128);
                if combined <= u64::MAX as u128 {
                    Some(combined as u64)
                } else {
                    None
                }
            }
        },
        (None, _) => {
            None
        },
        (_, None) => {
            proof {
                assert(digits_val(int_part) * pow10(frac_part.len()) >= 0) by (nonlinear_arith)
                    requires
                        digits_val(int_part) >= 0,
                        pow10(frac_part.len()) >= 1,
                ;
            }
            None
        },
    }
}

/// Assemble `(-1)^neg * v * 10^(e - f)` as a `Dec`, exactly as the grammar
/// defines representability.
fn from_parts(neg: bool, v: u64, f: usize, e: i64) -> (r: Option<Dec>)
    requires
        -1000 <= e <= 1000,
    ensures
        r == dec_from_parts(neg, v as int, f as int, e as int),
{
    let net: i128 = (e as i128) - (f as i128);
    if net >= 0 {
        if v == 0 {
            proof {
                assert(0 * pow10(net as nat) == 0) by (nonlinear_arith);
            }
            Some(Dec { neg: false, mant: 0, frac: 0 })
        } else if net > 19 {
            proof {
                lemma_scaled_exceeds(v as int, net as nat);
            }
            None
        } else {
            let scale: u64;
            if net <= 18 {
                scale = pow10_u64(net as u32);
            } else {
                proof {
                    reveal_with_fuel(pow10, 20);
                    assert(pow10(19) == 10000000000000000000);
                }
                scale = 10000000000000000000;
            }
            proof {
                assert((v as u128) * (scale as u128) <= 18446744073709551615u128
                    * 10000000000000000000u128) by (nonlinear_arith)
                    requires
                        0 <= v as u128 <= 18446744073709551615u128,
                        0 <= scale as u128 <= 10000000000000000000u128,
                ;
                assert((v as u128) * (scale as u128) >= 1) by (nonlinear_arith)
                    requires
                        v as u128 >= 1,
                        scale as u128 >= 1,
                ;
            }
            let prod: u128 = (v as u128) * (scale as u128);
            if prod <= u64::MAX as u128 {
                Some(Dec { neg: neg && prod != 0, mant: prod as u64, frac: 0 })
            } else {
                None
            }
        }
    } else {
        let negnet: i128 = -net;
        if negnet <= 18 {
            Some(Dec { neg: neg && v != 0, mant: v, frac: negnet as u32 })
        } else {
            None
        }
    }
}

/// Position of the first exponent marker at or after `start`.
fn find_exp_marker(s: &str, start: usize) -> (m: Option<usize>)
    requires
        start <= s@.len(),
    ensures
        match m {
            Some(p) => start <= p < s@.len() && exp_position(s@.skip(start as int)) == Some(
                p - start,
            ),
            None => exp_position(s@.skip(start as int)) is None,
        },
{
    let ghost body = s@.skip(start as int);
    proof {
        lemma_exp_position_characterizes(body);
        assert(forall|j: int| 0 <= j < body.len() ==> body[j] == s@[j + start]);
    }
    let n = s.unicode_len();
    let mut i: usize = start;
    while i < n
        invariant
            start <= i <= n == s@.len(),
            body == s@.skip(start as int),
            forall|j: int| start <= j < i ==> !is_exp_marker(s@[j]),
        decreases n - i,
    {
        let c = s.get_char(i);
        if c == 'e' || c == 'E' {
            proof {
                lemma_exp_position_characterizes(body);
                assert(body[i - start] == s@[i as int]);
                assert(exp_position(body) == Some(i - start));
            }
            return Some(i);
        }
        i = i + 1;
    }
    proof {
        lemma_exp_position_characterizes(body);
    }
    None
}

/// The exponent text `s[from..)`: an optional sign and a bounded digit run.
fn parse_exponent(s: &str, from: usize) -> (r: Option<i64>)
    requires
        from <= s@.len(),
    ensures
        match r {
            Some(e) => parse_exp_spec(s@.skip(from as int)) == Some(e as int) && -1000 <= e
                <= 1000,
            None => parse_exp_spec(s@.skip(from as int)) is None,
        },
{
    let ghost exp_txt = s@.skip(from as int);
    let n = s.unicode_len();
    let mut estart: usize = from;
    let mut eneg: bool = false;
    if estart < n {
        let c = s.get_char(estart);
        if c == '-' {
            eneg = true;
            estart = estart + 1;
        } else if c == '+' {
            estart = estart + 1;
        }
    }
    let ghost erest = s@.skip(estart as int);
    proof {
        if estart == from + 1 {
            assert(erest =~= exp_txt.drop_first());
        } else {
            assert(erest =~= exp_txt);
        }
        assert(parse_exp_spec(exp_txt) == parse_exp_body(eneg, erest));
    }
    if !check_digits(s, estart) {
        proof {
            if estart < s@.len() {
                assert(exists|k: int| estart <= k < s@.len() && !is_digit(#[trigger] s@[k]));
                let k = choose|k: int| estart <= k < s@.len() && !is_digit(#[trigger] s@[k]);
                assert(erest[k - estart] == s@[k]);
                assert(!all_digits(erest));
            } else {
                assert(erest.len() == 0);
            }
        }
        return None;
    }
    proof {
        assert(erest =~= s@.subrange(estart as int, n as int));
    }
    match digits_to_value(s, estart, n, 1000) {
        None => None,
        Some(ev) => Some(
            if eneg {
                -(ev as i64)
            } else {
                ev as i64
            },
        ),
    }
}

/// Position of the first dot of the significand `s[start..m_end)`.
fn find_dot(s: &str, start: usize, m_end: usize) -> (d: Option<usize>)
    requires
        start <= m_end <= s@.len(),
    ensures
        match d {
            Some(dp) => start <= dp < m_end && sep_position(
                s@.subrange(start as int, m_end as int),
                '.',
            ) == Some(dp - start),
            None => sep_position(s@.subrange(start as int, m_end as int), '.') is None,
        },
{
    let ghost sig_txt = s@.subrange(start as int, m_end as int);
    proof {
        lemma_sep_position_characterizes(sig_txt, '.');
        assert(forall|j: int| 0 <= j < sig_txt.len() ==> sig_txt[j] == s@[j + start]);
    }
    let mut k: usize = start;
    while k < m_end
        invariant
            start <= k <= m_end <= s@.len(),
            sig_txt == s@.subrange(start as int, m_end as int),
            forall|j: int| start <= j < k ==> s@[j] != '.',
        decreases m_end - k,
    {
        if s.get_char(k) == '.' {
            proof {
                lemma_sep_position_characterizes(sig_txt, '.');
                assert(sig_txt[k - start] == s@[k as int]);
                assert(sep_position(sig_txt, '.') == Some(k - start));
            }
            return Some(k);
        }
        k = k + 1;
    }
    proof {
        lemma_sep_position_characterizes(sig_txt, '.');
    }
    None
}

/// The significand `s[start..m_end)` scaled by `10^e`, per the grammar.
fn parse_sig_exec(s: &str, start: usize, m_end: usize, neg: bool, e: i64) -> (r: Option<Dec>)
    requires
        start <= m_end <= s@.len(),
        -1000 <= e <= 1000,
    ensures
        r == parse_sig(neg, s@.subrange(start as int, m_end as int), e as int),
{
    let ghost sig_txt = s@.subrange(start as int, m_end as int);
    let dot = find_dot(s, start, m_end);
    let ip_end: usize = match dot {
        Some(d) => d,
        None => m_end,
    };
    let fstart: usize = match dot {
        Some(d) => d + 1,
        None => m_end,
    };
    let ghost int_part = s@.subrange(start as int, ip_end as int);
    let ghost frac_part = s@.subrange(fstart as int, m_end as int);
    proof {
        match dot {
            Some(d) => {
                assert(sig_txt.take(d - start) =~= int_part);
                assert(sig_txt.skip(d - start + 1) =~= frac_part);
            },
            None => {
                assert(sig_txt =~= int_part);
                assert(frac_part.len() == 0);
            },
        }
    }
    if !digits_only(s, start, ip_end) {
        proof {
            let j = choose|j: int| start <= j < ip_end && !is_digit(#[trigger] s@[j]);
            assert(int_part[j - start] == s@[j]);
            assert(!all_digits(int_part));
        }
        return None;
    }
    if !digits_only(s, fstart, m_end) {
        proof {
            let j = choose|j: int| fstart <= j < m_end && !is_digit(#[trigger] s@[j]);
            assert(frac_part[j - fstart] == s@[j]);
            assert(!all_digits(frac_part));
        }
        return None;
    }
    if ip_end == start && fstart == m_end {
        return None;
    }
    let ghost all_parts = int_part + frac_part;
    proof {
        if dot is None {
            assert(all_parts =~= int_part);
        }
    }
    match sig_value(s, start, ip_end, fstart, m_end) {
        None => {
            proof {
                lemma_digits_val_nonneg(all_parts);
                lemma_from_parts_none_when_huge(
                    neg,
                    digits_val(all_parts),
                    m_end - fstart,
                    e as int,
                );
            }
            None
        },
        Some(v) => from_parts(neg, v, m_end - fstart, e),
    }
}

impl FromText for Dec {
    open spec fn from_text_spec(s: Seq<char>) -> Option<Dec> {
        parse_dec_spec(s)
    }

    fn from_text(s: &str) -> (r: Option<Dec>) {
        let n = s.unicode_len();
        let mut start: usize = 0;
        let mut neg: bool = false;
        if n > 0 {
            let c0 = s.get_char(0);
            if c0 == '-' {
                neg = true;
                start = 1;
            } else if c0 == '+' {
                start = 1;
            }
        }
        let ghost body = s@.skip(start as int);
        proof {
            if start == 1 {
                assert(body =~= s@.drop_first());
            } else {
                assert(body =~= s@);
            }
            assert(parse_dec_spec(s@) == parse_dec_body(neg, body));
        }
        match find_exp_marker(s, start) {
            None => {
                proof {
                    assert(body =~= s@.subrange(start as int, n as int));
                }
                parse_sig_exec(s, start, n, neg, 0)
            },
            Some(p) => {
                proof {
                    assert(body.skip(p - start + 1) =~= s@.skip(p + 1));
                    assert(body.take(p - start) =~= s@.subrange(start as int, p as int));
                }
                match parse_exponent(s, p + 1) {
                    None => None,
                    Some(e) => parse_sig_exec(s, start, p, neg, e),
                }
            },
        }
    }
}

} // verus!
