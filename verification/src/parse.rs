//! The two-value pair parser: split a string at the first occurrence of a
//! one-character separator and parse the two sides independently.

use vstd::prelude::*;

verus! {

/// A value type with a textual form. `from_text_spec` is the type's grammar
/// and value in one — `None` on malformed text — and `from_text` is the
/// executable parser held exactly to it.
pub trait FromText: Sized {
    spec fn from_text_spec(s: Seq<char>) -> Option<Self>;

    fn from_text(s: &str) -> (r: Option<Self>)
        ensures
            r == Self::from_text_spec(s@),
    ;
}

/// Index of the first occurrence of `sep` in `s`, if any.
pub open spec fn sep_position(s: Seq<char>, sep: char) -> Option<int>
    decreases s.len(),
{
    if s.len() == 0 {
        None
    } else if s[0] == sep {
        Some(0int)
    } else {
        match sep_position(s.drop_first(), sep) {
            None => None,
            Some(i) => Some(i + 1),
        }
    }
}

/// `sep_position` finds exactly the least index holding `sep`.
pub proof fn lemma_sep_position_characterizes(s: Seq<char>, sep: char)
    ensures
        match sep_position(s, sep) {
            Some(i) => 0 <= i < s.len() && s[i] == sep && (forall|j: int|
                0 <= j < i ==> s[j] != sep),
            None => forall|j: int| 0 <= j < s.len() ==> s[j] != sep,
        },
    decreases s.len(),
{
    if s.len() > 0 && s[0] != sep {
        let tail = s.drop_first();
        lemma_sep_position_characterizes(tail, sep);
        assert(forall|j: int| 0 <= j < tail.len() ==> tail[j] == s[j + 1]);
        match sep_position(tail, sep) {
            Some(i) => {
                assert forall|j: int| 0 <= j < i + 1 implies s[j] != sep by {
                    if j > 0 {
                        assert(s[j] == tail[j - 1]);
                    }
                }
            },
            None => {
                assert forall|j: int| 0 <= j < s.len() implies s[j] != sep by {
                    if j > 0 {
                        assert(s[j] == tail[j - 1]);
                    }
                }
            },
        }
    }
}

/// What the pair parser returns: nothing when the separator is absent or
/// either side is malformed, otherwise the two parsed values.
pub open spec fn parse_pair_spec<T: FromText>(s: Seq<char>, sep: char) -> Option<(T, T)> {
    match sep_position(s, sep) {
        None => None,
        Some(i) => match (T::from_text_spec(s.take(i)), T::from_text_spec(s.skip(i + 1))) {
            (Some(left), Some(right)) => Some((left, right)),
            _ => None,
        },
    }
}

/// Split `s` at the first occurrence of `sep` and parse both sides as `T`.
/// Absence of a value is the sole failure signal: a missing separator and a
/// malformed side are not told apart.
pub fn parse_pair<T: FromText>(s: &str, sep: char) -> (r: Option<(T, T)>)
    ensures
        r == parse_pair_spec::<T>(s@, sep),
{
    proof {
        lemma_sep_position_characterizes(s@, sep);
    }
    let n = s.unicode_len();
    let mut i: usize = 0;
    while i < n
        invariant
            i <= n == s@.len(),
            forall|j: int| 0 <= j < i ==> s@[j] != sep,
        decreases n - i,
    {
        if s.get_char(i) == sep {
            proof {
                lemma_sep_position_characterizes(s@, sep);
                assert(sep_position(s@, sep) == Some(i as int));
            }
            let left = s.substring_char(0, i);
            let right = s.substring_char(i + 1, n);
            let left_value = T::from_text(left);
            let right_value = T::from_text(right);
            proof {
                assert(left@ =~= s@.take(i as int));
                assert(right@ =~= s@.skip(i as int + 1));
            }
            return match (left_value, right_value) {
                (Some(a), Some(b)) => Some((a, b)),
                _ => None,
            };
        }
        i = i + 1;
    }
    None
}

/// The round trip law: when `a` and `b` each denote a value of `T` and `a`
/// does not contain the separator, joining them as `a`, separator, `b` and
/// parsing the result gives back exactly the pair of their two values.
pub proof fn lemma_parse_pair_round_trip<T: FromText>(a: Seq<char>, b: Seq<char>, sep: char)
    requires
        T::from_text_spec(a).is_some(),
        T::from_text_spec(b).is_some(),
        forall|j: int| 0 <= j < a.len() ==> a[j] != sep,
    ensures
        parse_pair_spec::<T>(a.push(sep) + b, sep) == Some(
            (T::from_text_spec(a).unwrap(), T::from_text_spec(b).unwrap()),
        ),
{
    let s = a.push(sep) + b;
    lemma_sep_position_characterizes(s, sep);
    assert(s[a.len() as int] == sep);
    assert(forall|j: int| 0 <= j < a.len() ==> s[j] == a[j]);
    match sep_position(s, sep) {
        None => {
            assert(false);
        },
        Some(i) => {
            assert(i == a.len());
        },
    }
    assert(s.take(a.len() as int) =~= a);
    assert(s.skip(a.len() as int + 1) =~= b);
}

} // verus!
