//! Splitting a textual pair such as `1000x750` or `-1.5,0.25`.

use std::str::FromStr;
use vstd::prelude::*;

verus! {

/// The pair built from two parsed halves: present only when both are.
pub open spec fn pair_of<T>(left: Option<T>, right: Option<T>) -> Option<(T, T)> {
    match (left, right) {
        (Some(a), Some(b)) => Some((a, b)),
        _ => None,
    }
}

/// Splits `s` at the first occurrence of `separator`, which belongs to
/// neither half.
pub fn split_pair<'a>(s: &'a str, separator: char) -> (r: Option<(&'a str, &'a str)>)
    ensures
        r is None <==> !s@.contains(separator),
        r matches Some(p) ==> {
            &&& s@ =~= p.0@ + seq![separator] + p.1@
            &&& !p.0@.contains(separator)
        },
{
    let n = s.unicode_len();
    let mut i: usize = 0;
    while i < n
        invariant
            n == s@.len(),
            i <= n,
            forall|j: int| 0 <= j < i ==> s@[j] != separator,
        decreases n - i,
    {
        if s.get_char(i) == separator {
            let left = s.substring_char(0, i);
            let right = s.substring_char(i + 1, n);
            assert(s@ =~= left@ + seq![separator] + right@);
            assert(!left@.contains(separator)) by {
                assert forall|j: int| 0 <= j < left@.len() implies left@[j] != separator by {
                    assert(left@[j] == s@[j]);
                }
            }
            return Some((left, right));
        }
        i = i + 1;
    }
    None
}

/// Combines the two parsed halves of a pair.
pub fn join_parsed<T>(left: Option<T>, right: Option<T>) -> (r: Option<(T, T)>)
    ensures
        r == pair_of(left, right),
{
    match (left, right) {
        (Some(a), Some(b)) => Some((a, b)),
        _ => None,
    }
}

/// Relies on `FromStr::from_str` for `T`: what it accepts is up to `T`.
#[verifier::external_body]
fn parse_value<T: FromStr>(s: &str) -> (r: Option<T>) {
    T::from_str(s).ok()
}

/// Parses `s` as two values of `T` around the first `separator`, as in
/// `"400x600"` or `"1.0,0.5"`. Without the separator there is no pair; with
/// it, both halves must parse.
pub fn parse_pair<T: FromStr>(s: &str, separator: char) -> (r: Option<(T, T)>)
    ensures
        !s@.contains(separator) ==> r is None,
{
    match split_pair(s, separator) {
        None => None,
        Some((left, right)) => join_parsed(parse_value::<T>(left), parse_value::<T>(right)),
    }
}

/// An ASCII decimal digit.
pub open spec fn is_digit(c: char) -> bool {
    '0' <= c && c <= '9'
}

/// The number that a string of decimal digits spells.
pub open spec fn digits_value(d: Seq<char>) -> nat
    decreases d.len(),
{
    if d.len() == 0 {
        0
    } else {
        digits_value(d.drop_last()) * 10 + (d.last() as u32 - '0' as u32) as nat
    }
}

/// `s` without one leading `+`, if it has one.
pub open spec fn unsigned_digits(s: Seq<char>) -> Seq<char> {
    if s.len() > 0 && s[0] == '+' {
        s.drop_first()
    } else {
        s
    }
}

/// The value of `s` read as an unsigned decimal: an optional `+` and then
/// one or more digits, nothing else.
pub open spec fn decimal_of(s: Seq<char>) -> Option<nat> {
    let d = unsigned_digits(s);
    if d.len() > 0 && forall|i: int| 0 <= i < d.len() ==> is_digit(#[trigger] d[i]) {
        Some(digits_value(d))
    } else {
        None
    }
}

/// The image dimension that `s` spells: its decimal value, when that fits
/// in a `usize`.
pub open spec fn dimension_of(s: Seq<char>) -> Option<usize> {
    match decimal_of(s) {
        Some(v) => if v <= usize::MAX {
            Some(v as usize)
        } else {
            None
        },
        None => None,
    }
}

/// A longer run of digits never spells a smaller number.
proof fn lemma_digits_value_grows(d: Seq<char>, j: int)
    requires
        0 <= j <= d.len(),
        forall|i: int| 0 <= i < d.len() ==> is_digit(#[trigger] d[i]),
    ensures
        digits_value(d.subrange(0, j)) <= digits_value(d),
    decreases d.len() - j,
{
    if j < d.len() {
        lemma_digits_value_grows(d, j + 1);
        assert(d.subrange(0, j + 1).drop_last() =~= d.subrange(0, j));
    } else {
        assert(d.subrange(0, j) =~= d);
    }
}

/// Reads an image dimension written in decimal, as `usize::from_str` does:
/// an optional `+` and at least one digit, with a value that fits.
pub fn parse_dimension(s: &str) -> (r: Option<usize>)
    ensures
        r == dimension_of(s@),
{
    let n = s.unicode_len();
    let start: usize = if n > 0 && s.get_char(0) == '+' {
        1
    } else {
        0
    };
    let ghost d = unsigned_digits(s@);
    assert(d =~= s@.subrange(start as int, n as int));
    if start == n {
        return None;
    }
    let mut value: usize = 0;
    let mut i: usize = start;
    while i < n
        invariant
            n == s@.len(),
            start <= i <= n,
            start < n,
            d == s@.subrange(start as int, n as int),
            d == unsigned_digits(s@),
            forall|k: int| 0 <= k < i - start ==> is_digit(#[trigger] d[k]),
            value == digits_value(d.subrange(0, i - start)),
        decreases n - i,
    {
        let c = s.get_char(i);
        assert(c == d[i - start]);
        if c < '0' || c > '9' {
            assert(!is_digit(d[i - start]));
            return None;
        }
        assert(d.subrange(0, i + 1 - start).drop_last() =~= d.subrange(0, i - start));
        let digit = (c as u32 - '0' as u32) as usize;
        let next = match value.checked_mul(10) {
            Some(v) => v.checked_add(digit),
            None => None,
        };
        match next {
            Some(v) => {
                value = v;
            },
            None => {
                proof {
                    assert(digits_value(d.subrange(0, i + 1 - start)) > usize::MAX);
                    if forall|k: int| 0 <= k < d.len() ==> is_digit(#[trigger] d[k]) {
                        lemma_digits_value_grows(d, i + 1 - start);
                    }
                }
                return None;
            },
        }
        i = i + 1;
    }
    assert(d.subrange(0, n - start) =~= d);
    Some(value)
}

/// Parses image bounds such as `"1000x750"`: two decimal dimensions around
/// the first `separator`.
pub fn parse_bounds(s: &str, separator: char) -> (r: Option<(usize, usize)>)
    ensures
        !s@.contains(separator) ==> r is None,
        forall|left: Seq<char>, right: Seq<char>|
            s@ == left + seq![separator] + right && !left.contains(separator) ==> r == pair_of(
                dimension_of(left),
                dimension_of(right),
            ),
{
    match split_pair(s, separator) {
        None => {
            assert forall|a: Seq<char>, b: Seq<char>|
                s@ == a + seq![separator] + b implies false by {
                assert(s@[a.len() as int] == separator);
            }
            None
        },
        Some((left, right)) => {
            let r = join_parsed(parse_dimension(left), parse_dimension(right));
            assert forall|a: Seq<char>, b: Seq<char>|
                s@ == a + seq![separator] + b && !a.contains(separator) implies a == left@ && b
                == right@ by {
                lemma_first_split_unique(s@, separator, a, b, left@, right@);
            }
            r
        },
    }
}

/// A string splits at its first separator in one way only.
proof fn lemma_first_split_unique(
    s: Seq<char>,
    separator: char,
    a: Seq<char>,
    b: Seq<char>,
    x: Seq<char>,
    y: Seq<char>,
)
    requires
        s == a + seq![separator] + b,
        !a.contains(separator),
        s == x + seq![separator] + y,
        !x.contains(separator),
    ensures
        a == x,
        b == y,
{
    if a.len() < x.len() {
        assert(x[a.len() as int] == s[a.len() as int]);
    } else if x.len() < a.len() {
        assert(a[x.len() as int] == s[x.len() as int]);
    }
    assert(a =~= s.subrange(0, a.len() as int));
    assert(x =~= s.subrange(0, x.len() as int));
    assert(b =~= s.subrange(a.len() as int + 1, s.len() as int));
    assert(y =~= s.subrange(x.len() as int + 1, s.len() as int));
}

} // verus!
