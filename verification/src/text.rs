//! Character-level helpers and the few standard-library calls that the
//! format parser relies on.

use vstd::prelude::*;
use std::num::IntErrorKind;

verus! {

/// The error of integer parsing in `std`, carried opaquely.
#[verifier::external_type_specification]
#[verifier::external_body]
pub struct ExParseIntError(std::num::ParseIntError);

/// An ASCII decimal digit, `'0'` to `'9'`.
pub open spec fn is_digit(c: char) -> bool {
    '0' <= c <= '9'
}

/// A character of the 7-bit ASCII range.
pub open spec fn is_ascii_char(c: char) -> bool {
    c <= '\u{7f}'
}

/// Every character of `s` is a decimal digit.
pub open spec fn all_digits(s: Seq<char>) -> bool {
    forall|i: int| 0 <= i < s.len() ==> is_digit(#[trigger] s[i])
}

/// The number that a string of decimal digits denotes.
pub open spec fn digits_value(s: Seq<char>) -> nat
    decreases s.len(),
{
    if s.len() == 0 {
        0
    } else {
        10 * digits_value(s.drop_last()) + ((s.last() as int) - ('0' as int)) as nat
    }
}

/// The digits of an unsigned decimal literal: a leading `+` is dropped.
pub open spec fn unsigned_digits(s: Seq<char>) -> Seq<char> {
    if s.len() > 0 && s[0] == '+' {
        s.drop_first()
    } else {
        s
    }
}

/// What an unsigned integer type's `FromStr` gives for `s` when the type's
/// largest value is `max`: an optional `+` followed by at least one decimal
/// digit, with a value of at most `max`.
pub open spec fn decimal_value(s: Seq<char>, max: nat) -> Option<nat> {
    let d = unsigned_digits(s);
    if d.len() > 0 && all_digits(d) && digits_value(d) <= max {
        Some(digits_value(d))
    } else {
        None
    }
}

/// The kind of a failed integer parse, as `ParseIntError::kind` reports it.
#[derive(Debug, Clone, Copy, PartialEq, Eq, Structural)]
pub enum ParseFailure {
    /// The text is empty.
    Empty,
    /// The text holds a character that is no digit in its place.
    InvalidDigit,
    /// The value is too big for the type.
    PosOverflow,
    /// The value is too small for the type.
    NegOverflow,
    /// The value is zero where the type excludes zero.
    Zero,
    /// A kind that `std` added after these.
    Other,
}

/// The kind of failure that the documentation of `IntErrorKind` fixes for a
/// text that does not parse, where it fixes one: an empty text is `Empty`, a
/// lone sign is `InvalidDigit`, and digits only (after an optional `+`) are
/// too big, `PosOverflow`. Other texts get no kind here.
pub open spec fn expected_failure(s: Seq<char>) -> Option<ParseFailure> {
    if s.len() == 0 {
        Some(ParseFailure::Empty)
    } else if s == seq!['+'] || s == seq!['-'] {
        Some(ParseFailure::InvalidDigit)
    } else if all_digits(unsigned_digits(s)) {
        Some(ParseFailure::PosOverflow)
    } else {
        None
    }
}

/// Calls `str::parse::<usize>` and, on failure, `ParseIntError::kind`, whose
/// variants are copied one for one. The documentation of `parse` states that
/// the text must be an optional `+` sign followed by decimal digits only and
/// that the value must fit in the type; that of `IntErrorKind` fixes the kind
/// for an empty text, a lone sign and a number that is too big. The contract
/// states exactly that; the kind for other texts is left unsaid.
#[verifier::external_body]
pub(crate) fn parse_usize(s: &str) -> (r: Result<usize, (std::num::ParseIntError, ParseFailure)>)
    ensures
        r is Ok <==> decimal_value(s@, usize::MAX as nat) is Some,
        r matches Ok(n) ==> decimal_value(s@, usize::MAX as nat) == Some(n as nat),
        r matches Err((_, k)) ==> (expected_failure(s@) matches Some(x) ==> k == x),
{
    match s.parse::<usize>() {
        Ok(n) => Ok(n),
        Err(e) => {
            let k = match e.kind() {
                IntErrorKind::Empty => ParseFailure::Empty,
                IntErrorKind::InvalidDigit => ParseFailure::InvalidDigit,
                IntErrorKind::PosOverflow => ParseFailure::PosOverflow,
                IntErrorKind::NegOverflow => ParseFailure::NegOverflow,
                IntErrorKind::Zero => ParseFailure::Zero,
                _ => ParseFailure::Other,
            };
            Err((e, k))
        },
    }
}

/// Calls `str::parse::<u8>` and, on failure, `ParseIntError::kind`, with the
/// same contract as [`parse_usize`] for the range of `u8`.
#[verifier::external_body]
pub(crate) fn parse_u8(s: &str) -> (r: Result<u8, (std::num::ParseIntError, ParseFailure)>)
    ensures
        r is Ok <==> decimal_value(s@, u8::MAX as nat) is Some,
        r matches Ok(n) ==> decimal_value(s@, u8::MAX as nat) == Some(n as nat),
        r matches Err((_, k)) ==> (expected_failure(s@) matches Some(x) ==> k == x),
{
    match s.parse::<u8>() {
        Ok(n) => Ok(n),
        Err(e) => {
            let k = match e.kind() {
                IntErrorKind::Empty => ParseFailure::Empty,
                IntErrorKind::InvalidDigit => ParseFailure::InvalidDigit,
                IntErrorKind::PosOverflow => ParseFailure::PosOverflow,
                IntErrorKind::NegOverflow => ParseFailure::NegOverflow,
                IntErrorKind::Zero => ParseFailure::Zero,
                _ => ParseFailure::Other,
            };
            Err((e, k))
        },
    }
}

/// Decides whether `c` is an ASCII decimal digit.
pub fn is_digit_char(c: char) -> (b: bool)
    ensures
        b == is_digit(c),
{
    '0' <= c && c <= '9'
}

/// The characters of `s`, in order.
pub fn chars_of(s: &str) -> (v: Vec<char>)
    ensures
        v@ == s@,
{
    broadcast use vstd::string::group_string_axioms;
    let mut v: Vec<char> = Vec::new();
    for c in it: s.chars()
        invariant
            v@ == it.seq().take(it.index() as int),
            it.seq() == s@,
    {
        v.push(c);
    }
    v
}

/// Calls `String::push`, which appends one character.
#[verifier::external_body]
pub(crate) fn push_char(s: &mut String, c: char)
    ensures
        final(s)@ == old(s)@.push(c),
{
    s.push(c);
}

/// A character with the Unicode property White_Space: U+0009 to U+000D,
/// U+0020, U+0085, U+00A0, U+1680, U+2000 to U+200A, U+2028, U+2029, U+202F,
/// U+205F and U+3000.
pub open spec fn is_white_space(c: char) -> bool {
    ||| '\u{9}' <= c <= '\u{d}'
    ||| c == ' '
    ||| c == '\u{85}'
    ||| c == '\u{a0}'
    ||| c == '\u{1680}'
    ||| '\u{2000}' <= c <= '\u{200a}'
    ||| c == '\u{2028}'
    ||| c == '\u{2029}'
    ||| c == '\u{202f}'
    ||| c == '\u{205f}'
    ||| c == '\u{3000}'
}

/// `s` without its leading white space.
pub open spec fn trim_start(s: Seq<char>) -> Seq<char>
    decreases s.len(),
{
    if s.len() > 0 && is_white_space(s[0]) {
        trim_start(s.drop_first())
    } else {
        s
    }
}

/// `s` without its trailing white space.
pub open spec fn trim_end(s: Seq<char>) -> Seq<char>
    decreases s.len(),
{
    if s.len() > 0 && is_white_space(s.last()) {
        trim_end(s.drop_last())
    } else {
        s
    }
}

/// `s` without its leading and trailing white space.
pub open spec fn trimmed(s: Seq<char>) -> Seq<char> {
    trim_end(trim_start(s))
}

#[verifier::external_body]
pub(crate) fn trim(s: &str) -> (r: &str)
    ensures
        r@ == trimmed(s@),
{
    s.trim()
}

} // verus!
