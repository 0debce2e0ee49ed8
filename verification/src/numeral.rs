//! Decimal numerals: what a run of digit characters denotes, and a verified
//! accumulator that evaluates such a run with an explicit overflow bound.

use crate::parse::FromText;
use vstd::prelude::*;

verus! {

pub open spec fn is_digit(c: char) -> bool {
    '0' <= c && c <= '9'
}

/// Numeric value of one digit character.
pub open spec fn digit_val(c: char) -> int {
    (c as u32) - ('0' as u32)
}

pub open spec fn all_digits(s: Seq<char>) -> bool {
    forall|j: int| 0 <= j < s.len() ==> is_digit(#[trigger] s[j])
}

/// Value denoted by a run of digits, most significant first.
pub open spec fn digits_val(s: Seq<char>) -> int
    decreases s.len(),
{
    if s.len() == 0 {
        0
    } else {
        10 * digits_val(s.drop_last()) + digit_val(s.last())
    }
}

pub proof fn lemma_digits_val_nonneg(s: Seq<char>)
    requires
        all_digits(s),
    ensures
        digits_val(s) >= 0,
    decreases s.len(),
{
    if s.len() > 0 {
        assert(all_digits(s.drop_last()));
        lemma_digits_val_nonneg(s.drop_last());
    }
}

/// Extending a digit run to the right can only increase its value.
pub proof fn lemma_digits_val_prefix(s: Seq<char>, i: int)
    requires
        all_digits(s),
        0 <= i <= s.len(),
    ensures
        digits_val(s.take(i)) <= digits_val(s),
    decreases s.len(),
{
    if i < s.len() {
        assert(all_digits(s.drop_last()));
        assert(s.take(i) =~= s.drop_last().take(i));
        lemma_digits_val_prefix(s.drop_last(), i);
        lemma_digits_val_nonneg(s.drop_last());
    } else {
        assert(s.take(i) =~= s);
    }
}

/// Value of the digit run `s[from..to]`, or `None` when it exceeds `max`.
pub fn digits_to_value(s: &str, from: usize, to: usize, max: u128) -> (r: Option<u128>)
    requires
        from <= to <= s@.len(),
        9 <= max,
        forall|j: int| from <= j < to ==> is_digit(#[trigger] s@[j]),
    ensures
        match r {
            Some(v) => v == digits_val(s@.subrange(from as int, to as int)) && v <= max,
            None => digits_val(s@.subrange(from as int, to as int)) > max,
        },
{
    let ghost whole = s@.subrange(from as int, to as int);
    proof {
        assert(all_digits(whole));
    }
    let mut acc: u128 = 0;
    let mut i: usize = from;
    while i < to
        invariant
            from <= i <= to <= s@.len(),
            9 <= max,
            forall|j: int| from <= j < to ==> is_digit(#[trigger] s@[j]),
            whole == s@.subrange(from as int, to as int),
            acc == digits_val(s@.subrange(from as int, i as int)),
            acc <= max,
        decreases to - i,
    {
        let c = s.get_char(i);
        let code: u32 = c as u32;
        let d: u128 = (code - 48) as u128;
        let ghost part = s@.subrange(from as int, i as int);
        let ghost extended = s@.subrange(from as int, i + 1);
        proof {
            assert(extended.drop_last() =~= part);
            assert(digits_val(extended) == 10 * acc + d);
        }
        let next = match acc.checked_mul(10) {
            Some(p) => p.checked_add(d),
            None => None,
        };
        match next {
            Some(v) if v <= max => {
                acc = v;
            },
            _ => {
                proof {
                    assert(digits_val(extended) > max);
                    assert(whole.take(i + 1 - from) =~= extended);
                    lemma_digits_val_prefix(whole, i + 1 - from);
                }
                return None;
            },
        }
        i = i + 1;
    }
    Some(acc)
}

/// Scan `s[from..to)`: `true` exactly when every character there is a digit
/// (vacuously for an empty range).
pub fn digits_only(s: &str, from: usize, to: usize) -> (r: bool)
    requires
        from <= to <= s@.len(),
    ensures
        r == forall|j: int| from <= j < to ==> is_digit(#[trigger] s@[j]),
{
    let mut i: usize = from;
    while i < to
        invariant
            from <= i <= to <= s@.len(),
            forall|j: int| from <= j < i ==> is_digit(#[trigger] s@[j]),
        decreases to - i,
    {
        let code: u32 = s.get_char(i) as u32;
        if code < 48 || code > 57 {
            return false;
        }
        i = i + 1;
    }
    true
}

/// Scan `s[from..)`: `true` exactly when it is a nonempty run of digits.
pub fn check_digits(s: &str, from: usize) -> (r: bool)
    requires
        from <= s@.len(),
    ensures
        r == (from < s@.len() && forall|j: int| from <= j < s@.len() ==> is_digit(#[trigger] s@[j])),
{
    let n = s.unicode_len();
    if from >= n {
        return false;
    }
    let mut i: usize = from;
    while i < n
        invariant
            from <= i <= n == s@.len(),
            forall|j: int| from <= j < i ==> is_digit(#[trigger] s@[j]),
        decreases n - i,
    {
        let code: u32 = s.get_char(i) as u32;
        if code < 48 || code > 57 {
            return false;
        }
        i = i + 1;
    }
    true
}

/// Grammar of a signed decimal integer: an optional `+` or `-` sign, then at
/// least one digit, with the denoted value in range for `i32`.
pub open spec fn parse_i32_spec(s: Seq<char>) -> Option<i32> {
    if s.len() > 0 && (s[0] == '+' || s[0] == '-') {
        parse_i32_body(s[0] == '-', s.drop_first())
    } else {
        parse_i32_body(false, s)
    }
}

pub open spec fn parse_i32_body(neg: bool, body: Seq<char>) -> Option<i32> {
    if body.len() > 0 && all_digits(body) {
        let v = if neg {
            -digits_val(body)
        } else {
            digits_val(body)
        };
        if i32::MIN <= v <= i32::MAX {
            Some(v as i32)
        } else {
            None
        }
    } else {
        None
    }
}

impl FromText for i32 {
    open spec fn from_text_spec(s: Seq<char>) -> Option<i32> {
        parse_i32_spec(s)
    }

    fn from_text(s: &str) -> (r: Option<i32>) {
        let n = s.unicode_len();
        let mut start: usize = 0;
        let mut neg: bool = false;
        if n > 0 {
            let c0 = s.get_char(0);
            if c0 == '-' {
                neg = true;
                start = 1;
            } else if c0 == '+' {
                start = 1;
            }
        }
        let ghost body = s@.skip(start as int);
        proof {
            if start == 1 {
                assert(body =~= s@.drop_first());
            } else {
                assert(body =~= s@);
            }
        }
        if !check_digits(s, start) {
            proof {
                if start < s@.len() {
                    assert(exists|k: int|
                        start <= k < s@.len() && !is_digit(#[trigger] s@[k]));
                    let k = choose|k: int| start <= k < s@.len() && !is_digit(#[trigger] s@[k]);
                    assert(body[k - start] == s@[k]);
                    assert(!all_digits(body));
                } else {
                    assert(body.len() == 0);
                }
            }
            return None;
        }
        proof {
            assert(body =~= s@.subrange(start as int, n as int));
        }
        match digits_to_value(s, start, n, 0x8000_0000) {
            None => None,
            Some(v) => {
                if neg {
                    let magnitude: i64 = v as i64;
                    Some((-magnitude) as i32)
                } else {
                    if v <= 0x7FFF_FFFF {
                        Some(v as i32)
                    } else {
                        None
                    }
                }
            },
        }
    }
}

/// Grammar of an unsigned decimal integer: an optional `+` sign, then at
/// least one digit, with the denoted value in range for `usize`.
pub open spec fn parse_usize_spec(s: Seq<char>) -> Option<usize> {
    if s.len() > 0 && s[0] == '+' {
        parse_usize_body(s.drop_first())
    } else {
        parse_usize_body(s)
    }
}

pub open spec fn parse_usize_body(body: Seq<char>) -> Option<usize> {
    if body.len() > 0 && all_digits(body) && digits_val(body) <= usize::MAX {
        Some(digits_val(body) as usize)
    } else {
        None
    }
}

impl FromText for usize {
    open spec fn from_text_spec(s: Seq<char>) -> Option<usize> {
        parse_usize_spec(s)
    }

    fn from_text(s: &str) -> (r: Option<usize>) {
        let n = s.unicode_len();
        let mut start: usize = 0;
        if n > 0 && s.get_char(0) == '+' {
            start = 1;
        }
        let ghost body = s@.skip(start as int);
        proof {
            if start == 1 {
                assert(body =~= s@.drop_first());
            } else {
                assert(body =~= s@);
            }
        }
        if !check_digits(s, start) {
            proof {
                if start < s@.len() {
                    assert(exists|k: int|
                        start <= k < s@.len() && !is_digit(#[trigger] s@[k]));
                    let k = choose|k: int| start <= k < s@.len() && !is_digit(#[trigger] s@[k]);
                    assert(body[k - start] == s@[k]);
                    assert(!all_digits(body));
                } else {
                    assert(body.len() == 0);
                }
            }
            return None;
        }
        proof {
            assert(body =~= s@.subrange(start as int, n as int));
        }
        match digits_to_value(s, start, n, usize::MAX as u128) {
            None => None,
            Some(v) => Some(v as usize),
        }
    }
}

} // verus!
