//! The compact password format and the configuration built from it.
//!
//! A format such as `W4s2w3d5` is a run of elements; each element is one
//! type letter followed by an optional decimal length (1 when omitted):
//! `w` a readable word, `W` one starting with an upper-case letter, `p` a
//! pronounceable word, `P` one starting with an upper-case letter, `d`
//! digits and `s` special symbols.

use vstd::prelude::*;
use vstd::utf8::is_ascii_chars;
use crate::text::{
    all_digits, chars_of, decimal_value, digits_value, expected_failure, is_ascii_char, is_digit,
    is_digit_char, parse_usize, trim, trimmed, unsigned_digits, ParseFailure,
};

verus! {

/// The longest element that a format may ask for.
pub const MAX_ELEMENT_LENGTH: usize = 255;

/// Parts of the password to be constructed.
#[derive(Debug)]
pub enum PassElements {
    /// Readable word.
    Word(usize),
    /// Readable word starting with an upper-case letter.
    UWord(usize),
    /// Pronounceable word.
    PWord(usize),
    /// Pronounceable word starting with an upper-case letter.
    UPWord(usize),
    /// Digits.
    Digits(usize),
    /// Special symbols.
    Special(usize),
}

impl PassElements {
    /// The number of characters that the element stands for.
    pub open spec fn length(self) -> nat {
        match self {
            PassElements::Word(d) => d as nat,
            PassElements::UWord(d) => d as nat,
            PassElements::PWord(d) => d as nat,
            PassElements::UPWord(d) => d as nat,
            PassElements::Digits(d) => d as nat,
            PassElements::Special(d) => d as nat,
        }
    }
}

impl PartialEq for PassElements {
    fn eq(&self, other: &Self) -> (r: bool) {
        match (self, other) {
            (PassElements::Word(a), PassElements::Word(b)) => *a == *b,
            (PassElements::UWord(a), PassElements::UWord(b)) => *a == *b,
            (PassElements::PWord(a), PassElements::PWord(b)) => *a == *b,
            (PassElements::UPWord(a), PassElements::UPWord(b)) => *a == *b,
            (PassElements::Digits(a), PassElements::Digits(b)) => *a == *b,
            (PassElements::Special(a), PassElements::Special(b)) => *a == *b,
            _ => false,
        }
    }
}

impl vstd::std_specs::cmp::PartialEqSpecImpl for PassElements {
    open spec fn obeys_eq_spec() -> bool {
        true
    }

    open spec fn eq_spec(&self, other: &Self) -> bool {
        *self == *other
    }
}

impl Eq for PassElements {}

/// Why one element of a format was refused.
#[derive(Debug)]
pub enum ConfigError {
    /// The format is empty.
    MissingFormat,
    /// The element starts with a letter that names no element type.
    InvalidElementType(char),
    /// The length after the type letter is not a decimal number: the
    /// parser's error, and its kind.
    ParseElementLengthError(std::num::ParseIntError, ParseFailure),
    /// The length is zero.
    ZeroElementLength,
    /// The length exceeds [`MAX_ELEMENT_LENGTH`].
    MaxElementLengthError,
}

/// A [`ConfigError`] without the parser's error value: what contracts compare.
#[derive(Debug, Clone, Copy, PartialEq, Eq, Structural)]
pub enum ConfigErrorKind {
    MissingFormat,
    InvalidElementType(char),
    ParseElementLengthError,
    ZeroElementLength,
    MaxElementLengthError,
}

impl View for ConfigError {
    type V = ConfigErrorKind;

    open spec fn view(&self) -> ConfigErrorKind {
        match self {
            ConfigError::MissingFormat => ConfigErrorKind::MissingFormat,
            ConfigError::InvalidElementType(c) => ConfigErrorKind::InvalidElementType(*c),
            ConfigError::ParseElementLengthError(..) => ConfigErrorKind::ParseElementLengthError,
            ConfigError::ZeroElementLength => ConfigErrorKind::ZeroElementLength,
            ConfigError::MaxElementLengthError => ConfigErrorKind::MaxElementLengthError,
        }
    }
}

/// The outcome of parsing one element, with the error taken by its view.
pub open spec fn outcome(r: Result<PassElements, ConfigError>) -> Result<PassElements, ConfigErrorKind> {
    match r {
        Ok(e) => Ok(e),
        Err(e) => Err(e@),
    }
}

/// The kind of the parse failure that an outcome carries, if it is a refused
/// length.
pub open spec fn length_failure(r: Result<PassElements, ConfigError>) -> Option<ParseFailure> {
    match r {
        Err(ConfigError::ParseElementLengthError(_, k)) => Some(k),
        _ => None,
    }
}

/// The element that one segment of a format denotes, or why it is refused.
pub open spec fn spec_element(s: Seq<char>) -> Result<PassElements, ConfigErrorKind> {
    if s.len() == 0 {
        Err(ConfigErrorKind::MissingFormat)
    } else {
        let len = if s.len() == 1 {
            Some(1nat)
        } else {
            decimal_value(s.drop_first(), usize::MAX as nat)
        };
        match len {
            None => Err(ConfigErrorKind::ParseElementLengthError),
            Some(n) => if n == 0 {
                Err(ConfigErrorKind::ZeroElementLength)
            } else if n > MAX_ELEMENT_LENGTH {
                Err(ConfigErrorKind::MaxElementLengthError)
            } else if s[0] == 'W' {
                Ok(PassElements::UWord(n as usize))
            } else if s[0] == 'w' {
                Ok(PassElements::Word(n as usize))
            } else if s[0] == 'P' {
                Ok(PassElements::UPWord(n as usize))
            } else if s[0] == 'p' {
                Ok(PassElements::PWord(n as usize))
            } else if s[0] == 'd' {
                Ok(PassElements::Digits(n as usize))
            } else if s[0] == 's' {
                Ok(PassElements::Special(n as usize))
            } else {
                Err(ConfigErrorKind::InvalidElementType(s[0]))
            },
        }
    }
}

impl PassElements {
    /// Parses one element: a type letter and an optional decimal length.
    pub fn try_from(value: &str) -> (r: Result<PassElements, ConfigError>)
        requires
            value@.len() > 0 ==> is_ascii_char(value@[0]),
        ensures
            outcome(r) == spec_element(value@),
            length_failure(r) matches Some(k) ==> (expected_failure(value@.drop_first()) matches Some(
                x,
            ) ==> k == x),
    {
        let n = value.unicode_len();
        if n == 0 {
            return Err(ConfigError::MissingFormat);
        }
        let element_type = value.get_char(0);
        let len: usize = if n == 1 {
            1
        } else {
            let rest = value.substring_char(1, n);
            assert(rest@ =~= value@.drop_first());
            match parse_usize(rest) {
                Ok(d) => d,
                Err((e, k)) => {
                    return Err(ConfigError::ParseElementLengthError(e, k));
                },
            }
        };
        if len == 0 {
            return Err(ConfigError::ZeroElementLength);
        }
        if len > MAX_ELEMENT_LENGTH {
            return Err(ConfigError::MaxElementLengthError);
        }
        match element_type {
            'W' => Ok(PassElements::UWord(len)),
            'w' => Ok(PassElements::Word(len)),
            'P' => Ok(PassElements::UPWord(len)),
            'p' => Ok(PassElements::PWord(len)),
            'd' => Ok(PassElements::Digits(len)),
            's' => Ok(PassElements::Special(len)),
            c => Err(ConfigError::InvalidElementType(c)),
        }
    }
}

/// How many decimal digits `s` starts with.
pub open spec fn leading_digits(s: Seq<char>) -> nat
    decreases s.len(),
{
    if s.len() > 0 && is_digit(s[0]) {
        1 + leading_digits(s.drop_first())
    } else {
        0
    }
}

/// A run of leading digits is never longer than the text.
pub proof fn lemma_leading_digits_bound(s: Seq<char>)
    ensures
        leading_digits(s) <= s.len(),
    decreases s.len(),
{
    if s.len() > 0 && is_digit(s[0]) {
        lemma_leading_digits_bound(s.drop_first());
    }
}

/// The length of the segment that starts `s`: its first character and the
/// digits that follow it.
pub open spec fn first_segment_len(s: Seq<char>) -> nat {
    1 + leading_digits(s.drop_first())
}

/// The segments of a format: each starts at a character and runs over the
/// decimal digits that follow it.
pub open spec fn segments(s: Seq<char>) -> Seq<Seq<char>>
    decreases s.len(),
{
    if s.len() == 0 {
        seq![]
    } else {
        proof {
            lemma_leading_digits_bound(s.drop_first());
        }
        let k = first_segment_len(s) as int;
        seq![s.take(k)] + segments(s.skip(k))
    }
}

/// What parsing a whole format gives: one outcome per segment, or a single
/// `MissingFormat` for an empty format.
pub open spec fn spec_parse_elements(s: Seq<char>) -> Seq<Result<PassElements, ConfigErrorKind>> {
    if s.len() == 0 {
        seq![Err(ConfigErrorKind::MissingFormat)]
    } else {
        segments(s).map_values(|seg: Seq<char>| spec_element(seg))
    }
}


/// The segments of a format, put back together, give the format: splitting
/// loses and adds nothing.
pub proof fn lemma_segments_partition(s: Seq<char>)
    ensures
        segments(s).flatten() == s,
    decreases s.len(),
{
    if s.len() > 0 {
        lemma_leading_digits_bound(s.drop_first());
        let k = first_segment_len(s) as int;
        lemma_segments_partition(s.skip(k));
        assert((seq![s.take(k)] + segments(s.skip(k))).drop_first() =~= segments(s.skip(k)));
        assert(s.take(k) + s.skip(k) =~= s);
    }
}

/// Every segment is a single character followed by decimal digits only, and
/// every segment after the first starts with a non-digit: together with
/// [`lemma_segments_partition`] this fixes the split, since a segment starts
/// exactly at the first character and at every non-digit.
pub proof fn lemma_segment_shape(s: Seq<char>)
    ensures
        forall|i: int|
            0 <= i < segments(s).len() ==> #[trigger] segments(s)[i].len() >= 1 && all_digits(
                segments(s)[i].drop_first(),
            ),
        forall|i: int| 0 < i < segments(s).len() ==> !is_digit(#[trigger] segments(s)[i][0]),
    decreases s.len(),
{
    if s.len() > 0 {
        lemma_leading_digits_bound(s.drop_first());
        let k = first_segment_len(s) as int;
        let rest = s.skip(k);
        lemma_segment_shape(rest);
        lemma_leading_digits_are_digits(s.drop_first());
        lemma_leading_digits_stop(s.drop_first());
        let segs = segments(s);
        assert forall|i: int| 0 <= i < segs.len() implies #[trigger] segs[i].len() >= 1 && all_digits(
            segs[i].drop_first(),
        ) by {
            if i == 0 {
                assert forall|j: int| 0 <= j < segs[0].drop_first().len() implies is_digit(
                    #[trigger] segs[0].drop_first()[j],
                ) by {
                    assert(segs[0].drop_first()[j] == s.drop_first()[j]);
                }
            } else {
                assert(segs[i] == segments(rest)[i - 1]);
            }
        }
        assert forall|i: int| 0 < i < segs.len() implies !is_digit(#[trigger] segs[i][0]) by {
            assert(segs[i] == segments(rest)[i - 1]);
            if i == 1 {
                assert(rest.len() > 0);
                lemma_leading_digits_bound(rest.drop_first());
                assert(segments(rest)[0] == rest.take(first_segment_len(rest) as int));
                assert(segments(rest)[0][0] == rest[0]);
                assert(rest[0] == s.drop_first()[k - 1]);
            }
        }
    }
}

/// The run of leading digits ends at the end of the text or at a non-digit.
proof fn lemma_leading_digits_stop(s: Seq<char>)
    ensures
        leading_digits(s) < s.len() ==> !is_digit(s[leading_digits(s) as int]),
    decreases s.len(),
{
    if s.len() > 0 && is_digit(s[0]) {
        lemma_leading_digits_stop(s.drop_first());
        lemma_leading_digits_bound(s.drop_first());
    }
}

/// The leading run of digits consists of digits.
proof fn lemma_leading_digits_are_digits(s: Seq<char>)
    ensures
        forall|j: int| 0 <= j < leading_digits(s) ==> is_digit(#[trigger] s[j]),
    decreases s.len(),
{
    if s.len() > 0 && is_digit(s[0]) {
        lemma_leading_digits_bound(s);
        lemma_leading_digits_are_digits(s.drop_first());
        assert forall|j: int| 0 <= j < leading_digits(s) implies is_digit(#[trigger] s[j]) by {
            if j > 0 {
                assert(s[j] == s.drop_first()[j - 1]);
            }
        }
    }
}

/// Appending text that does not start with a digit leaves the leading run of
/// digits as it was.
proof fn lemma_leading_digits_append(x: Seq<char>, y: Seq<char>)
    requires
        y.len() == 0 || !is_digit(y[0]),
    ensures
        leading_digits(x + y) == leading_digits(x),
    decreases x.len(),
{
    if x.len() == 0 {
        assert(x + y =~= y);
    } else {
        assert((x + y).drop_first() =~= x.drop_first() + y);
        lemma_leading_digits_append(x.drop_first(), y);
    }
}

/// Splitting a concatenation of two formats, the second starting with a
/// non-digit, is splitting each of them.
pub proof fn lemma_segments_append(a: Seq<char>, b: Seq<char>)
    requires
        b.len() == 0 || !is_digit(b[0]),
    ensures
        segments(a + b) == segments(a) + segments(b),
    decreases a.len(),
{
    if a.len() == 0 {
        assert(a + b =~= b);
        assert(segments(a) + segments(b) =~= segments(b));
    } else {
        lemma_leading_digits_bound(a.drop_first());
        assert((a + b).drop_first() =~= a.drop_first() + b);
        lemma_leading_digits_append(a.drop_first(), b);
        let k = first_segment_len(a) as int;
        assert(first_segment_len(a + b) == k);
        assert((a + b).take(k) =~= a.take(k));
        assert((a + b).skip(k) =~= a.skip(k) + b);
        lemma_segments_append(a.skip(k), b);
        assert(seq![a.take(k)] + (segments(a.skip(k)) + segments(b)) =~= (seq![a.take(k)]
            + segments(a.skip(k))) + segments(b));
    }
}

/// Parsing a concatenation of two non-empty formats, the second starting with
/// a non-digit, gives the elements of the first followed by those of the
/// second.
pub proof fn lemma_parse_elements_append(a: Seq<char>, b: Seq<char>)
    requires
        a.len() > 0,
        b.len() > 0,
        !is_digit(b[0]),
    ensures
        spec_parse_elements(a + b) == spec_parse_elements(a) + spec_parse_elements(b),
{
    lemma_segments_append(a, b);
    assert(segments(a + b).map_values(|seg: Seq<char>| spec_element(seg)) =~= segments(a).map_values(
        |seg: Seq<char>| spec_element(seg),
    ) + segments(b).map_values(|seg: Seq<char>| spec_element(seg)));
}

/// An element written without a length has length 1.
pub proof fn lemma_default_length(c: char)
    ensures
        spec_element(seq![c]) == if c == 'W' {
            Ok(PassElements::UWord(1))
        } else if c == 'w' {
            Ok(PassElements::Word(1))
        } else if c == 'P' {
            Ok(PassElements::UPWord(1))
        } else if c == 'p' {
            Ok(PassElements::PWord(1))
        } else if c == 'd' {
            Ok(PassElements::Digits(1))
        } else if c == 's' {
            Ok(PassElements::Special(1))
        } else {
            Err::<PassElements, ConfigErrorKind>(ConfigErrorKind::InvalidElementType(c))
        },
{
}

/// Every element that parses has a length between 1 and
/// [`MAX_ELEMENT_LENGTH`].
pub proof fn lemma_element_length_bounds(s: Seq<char>)
    ensures
        spec_element(s) matches Ok(e) ==> 1 <= e.length() <= MAX_ELEMENT_LENGTH,
{
}

/// The digit character of `d`, for `d` below 10.
pub open spec fn digit_char(d: nat) -> char {
    if d == 0 {
        '0'
    } else if d == 1 {
        '1'
    } else if d == 2 {
        '2'
    } else if d == 3 {
        '3'
    } else if d == 4 {
        '4'
    } else if d == 5 {
        '5'
    } else if d == 6 {
        '6'
    } else if d == 7 {
        '7'
    } else if d == 8 {
        '8'
    } else {
        '9'
    }
}

/// The decimal text of `n` without leading zeros, as `to_string` writes it.
pub open spec fn decimal_text(n: nat) -> Seq<char>
    decreases n,
{
    if n < 10 {
        seq![digit_char(n)]
    } else {
        decimal_text(n / 10).push(digit_char(n % 10))
    }
}

/// The digit character of `d` is a digit worth `d`.
proof fn lemma_digit_char(d: nat)
    requires
        d < 10,
    ensures
        is_digit(digit_char(d)),
        (digit_char(d) as int) - ('0' as int) == d,
{
    assert(('0' as int) == 48 && ('1' as int) == 49 && ('2' as int) == 50 && ('3' as int) == 51
        && ('4' as int) == 52 && ('5' as int) == 53 && ('6' as int) == 54 && ('7' as int) == 55
        && ('8' as int) == 56 && ('9' as int) == 57);
}

/// The decimal text of `n` is a non-empty run of digits whose value is `n`.
pub proof fn lemma_decimal_text(n: nat)
    ensures
        decimal_text(n).len() > 0,
        all_digits(decimal_text(n)),
        digits_value(decimal_text(n)) == n,
    decreases n,
{
    let t = decimal_text(n);
    if n < 10 {
        lemma_digit_char(n);
        assert(t.drop_last() =~= Seq::<char>::empty());
        assert(digits_value(Seq::<char>::empty()) == 0);
    } else {
        lemma_digit_char(n % 10);
        lemma_decimal_text(n / 10);
        let p = decimal_text(n / 10);
        assert(t.drop_last() =~= p);
        assert forall|i: int| 0 <= i < t.len() implies is_digit(#[trigger] t[i]) by {
            if i < p.len() {
                assert(t[i] == p[i]);
            }
        }
    }
}

/// One of the six type letters of the compact format.
pub open spec fn is_type_letter(c: char) -> bool {
    c == 'W' || c == 'w' || c == 'P' || c == 'p' || c == 'd' || c == 's'
}

/// The element that type letter `c` and length `n` denote.
pub open spec fn element_of(c: char, n: usize) -> PassElements {
    if c == 'W' {
        PassElements::UWord(n)
    } else if c == 'w' {
        PassElements::Word(n)
    } else if c == 'P' {
        PassElements::UPWord(n)
    } else if c == 'p' {
        PassElements::PWord(n)
    } else if c == 'd' {
        PassElements::Digits(n)
    } else {
        PassElements::Special(n)
    }
}

/// How an element is written: its type letter, then its length in decimal,
/// which is left out when it is 1.
pub open spec fn element_text(c: char, n: usize) -> Seq<char> {
    if n == 1 {
        seq![c]
    } else {
        seq![c] + decimal_text(n as nat)
    }
}

/// How a list of elements is written: their texts one after the other.
pub open spec fn format_text(es: Seq<(char, usize)>) -> Seq<char>
    decreases es.len(),
{
    if es.len() == 0 {
        seq![]
    } else {
        format_text(es.drop_last()) + element_text(es.last().0, es.last().1)
    }
}

/// Every entry is a type letter with a length from 1 to [`MAX_ELEMENT_LENGTH`].
pub open spec fn valid_elements(es: Seq<(char, usize)>) -> bool {
    forall|i: int|
        0 <= i < es.len() ==> is_type_letter(#[trigger] es[i].0) && 1 <= es[i].1
            <= MAX_ELEMENT_LENGTH
}

/// An element whose length is written out in decimal — 1 included — parses
/// to the element of its type letter with that length: writing the length
/// or leaving it out when it is 1 makes no difference.
pub proof fn lemma_written_length(c: char, n: usize)
    requires
        is_type_letter(c),
        1 <= n <= MAX_ELEMENT_LENGTH,
    ensures
        spec_element(seq![c] + decimal_text(n as nat)) == Ok::<PassElements, ConfigErrorKind>(
            element_of(c, n),
        ),
{
    let t = seq![c] + decimal_text(n as nat);
    lemma_decimal_text(n as nat);
    let tail = t.drop_first();
    assert(tail =~= decimal_text(n as nat));
    assert(is_digit(tail[0]));
    assert(unsigned_digits(tail) == tail);
    assert(t.len() > 1);
    assert(t[0] == c);
}

/// A written element parses back to itself, alone.
proof fn lemma_element_text_parses(c: char, n: usize)
    requires
        is_type_letter(c),
        1 <= n <= MAX_ELEMENT_LENGTH,
    ensures
        spec_parse_elements(element_text(c, n)) == seq![
            Ok::<PassElements, ConfigErrorKind>(element_of(c, n)),
        ],
{
    let t = element_text(c, n);
    let tail = t.drop_first();
    if n == 1 {
        assert(tail =~= Seq::<char>::empty());
    } else {
        lemma_decimal_text(n as nat);
        assert(tail =~= decimal_text(n as nat));
        assert(unsigned_digits(tail) == tail);
    }
    assert forall|j: int| 0 <= j < tail.len() implies is_digit(#[trigger] tail[j]) by {}
    lemma_leading_digits_exact(tail, tail.len() as int);
    lemma_leading_digits_bound(tail);
    assert(first_segment_len(t) == t.len());
    assert(t.take(t.len() as int) =~= t);
    assert(t.skip(t.len() as int) =~= Seq::<char>::empty());
    assert(segments(t.skip(t.len() as int)) =~= Seq::<Seq<char>>::empty());
    assert(segments(t) =~= seq![t]);
    assert(spec_element(t) == Ok::<PassElements, ConfigErrorKind>(element_of(c, n)));
    assert(spec_parse_elements(t) =~= seq![Ok::<PassElements, ConfigErrorKind>(element_of(c, n))]);
}

/// Writing elements in the compact format and parsing the text gives the
/// elements back, in order, for any non-empty list of valid type letters and
/// lengths from 1 to [`MAX_ELEMENT_LENGTH`].
pub proof fn lemma_format_round_trip(es: Seq<(char, usize)>)
    requires
        es.len() > 0,
        valid_elements(es),
    ensures
        spec_parse_elements(format_text(es)) == es.map_values(
            |e: (char, usize)| Ok::<PassElements, ConfigErrorKind>(element_of(e.0, e.1)),
        ),
    decreases es.len(),
{
    let last = es.last();
    assert(is_type_letter(es[es.len() - 1].0));
    lemma_element_text_parses(last.0, last.1);
    let prev = es.drop_last();
    if es.len() == 1 {
        assert(prev =~= Seq::<(char, usize)>::empty());
        assert(format_text(es) =~= element_text(last.0, last.1));
        assert(es.map_values(
            |e: (char, usize)| Ok::<PassElements, ConfigErrorKind>(element_of(e.0, e.1)),
        ) =~= seq![Ok::<PassElements, ConfigErrorKind>(element_of(last.0, last.1))]);
    } else {
        assert forall|i: int| 0 <= i < prev.len() implies is_type_letter(#[trigger] prev[i].0) && 1
            <= prev[i].1 <= MAX_ELEMENT_LENGTH by {
            assert(prev[i] == es[i]);
            assert(is_type_letter(es[i].0));
        }
        lemma_format_round_trip(prev);
        lemma_format_text_nonempty(prev);
        let a = format_text(prev);
        let b = element_text(last.0, last.1);
        assert(b[0] == last.0);
        lemma_parse_elements_append(a, b);
        assert(es.map_values(
            |e: (char, usize)| Ok::<PassElements, ConfigErrorKind>(element_of(e.0, e.1)),
        ) =~= prev.map_values(
            |e: (char, usize)| Ok::<PassElements, ConfigErrorKind>(element_of(e.0, e.1)),
        ) + seq![Ok::<PassElements, ConfigErrorKind>(element_of(last.0, last.1))]);
    }
}

/// The text of a non-empty list of elements is not empty.
proof fn lemma_format_text_nonempty(es: Seq<(char, usize)>)
    requires
        es.len() > 0,
    ensures
        format_text(es).len() > 0,
{
}

/// A run of `m` digits, followed by the end or by a non-digit, is the run of
/// leading digits.
proof fn lemma_leading_digits_exact(s: Seq<char>, m: int)
    requires
        0 <= m <= s.len(),
        forall|j: int| 0 <= j < m ==> is_digit(#[trigger] s[j]),
        m == s.len() || !is_digit(s[m]),
    ensures
        leading_digits(s) == m,
    decreases m,
{
    if m > 0 {
        lemma_leading_digits_exact(s.drop_first(), m - 1);
    }
}

/// Splits a compact format such as `W4s2w3d5` into its elements and parses
/// each of them. An empty format gives the single error `MissingFormat`.
pub fn parse_elements(value: &str) -> (r: Vec<Result<PassElements, ConfigError>>)
    requires
        is_ascii_chars(value@),
    ensures
        r@.map_values(|x: Result<PassElements, ConfigError>| outcome(x)) == spec_parse_elements(value@),
        forall|i: int|
            0 <= i < r@.len() ==> (length_failure(#[trigger] r@[i]) matches Some(k) ==> k
                == ParseFailure::PosOverflow),
{
    if value.is_empty() {
        let r = vec![Err(ConfigError::MissingFormat)];
        assert(r@.map_values(|x: Result<PassElements, ConfigError>| outcome(x))
            =~= spec_parse_elements(value@));
        return r;
    }
    let chars = chars_of(value);
    let ghost v = value@;
    let ghost mut done: Seq<Seq<char>> = seq![];
    let mut idx: usize = 0;
    let mut result: Vec<Result<PassElements, ConfigError>> = Vec::new();
    assert(v.skip(0) =~= v);
    assert(done + segments(v) =~= segments(v));

    while idx < chars.len()
        invariant
            chars@ == v,
            v == value@,
            is_ascii_chars(v),
            idx <= v.len(),
            segments(v) == done + segments(v.skip(idx as int)),
            result@.len() == done.len(),
            forall|j: int| 0 <= j < done.len() ==> outcome(#[trigger] result@[j]) == spec_element(done[j]),
            forall|j: int|
                0 <= j < result@.len() ==> (length_failure(#[trigger] result@[j]) matches Some(k) ==> k
                    == ParseFailure::PosOverflow),
        decreases v.len() - idx,
    {
        let start = idx;
        idx = idx + 1;
        while idx < chars.len() && is_digit_char(chars[idx])
            invariant
                chars@ == v,
                start < idx <= v.len(),
                forall|j: int| start < j < idx ==> is_digit(#[trigger] v[j]),
            decreases v.len() - idx,
        {
            idx = idx + 1;
        }
        let ghost rest = v.skip(start as int);
        proof {
            let m = idx - start - 1;
            assert forall|j: int| 0 <= j < m implies is_digit(#[trigger] rest.drop_first()[j]) by {
                assert(rest.drop_first()[j] == v[start + 1 + j]);
            }
            lemma_leading_digits_exact(rest.drop_first(), m);
            assert(first_segment_len(rest) == idx - start);
            assert(rest.take(idx - start) =~= v.subrange(start as int, idx as int));
            assert(rest.skip(idx - start) =~= v.skip(idx as int));
            assert(segments(rest) == seq![v.subrange(start as int, idx as int)] + segments(
                v.skip(idx as int),
            ));
        }
        let part = value.substring_char(start, idx);
        proof {
            assert(part@[0] == v[start as int]);
            let tail = part@.drop_first();
            if tail.len() > 0 {
                assert forall|j: int| 0 <= j < tail.len() implies is_digit(#[trigger] tail[j]) by {
                    assert(tail[j] == v[start + 1 + j]);
                }
                assert(unsigned_digits(tail) == tail);
                assert(expected_failure(tail) == Some(ParseFailure::PosOverflow));
            }
        }
        result.push(PassElements::try_from(part));
        proof {
            let seg = v.subrange(start as int, idx as int);
            assert(done + (seq![seg] + segments(v.skip(idx as int))) =~= done.push(seg) + segments(
                v.skip(idx as int),
            ));
            done = done.push(seg);
        }
    }
    proof {
        assert(v.skip(idx as int) =~= Seq::<char>::empty());
        assert(segments(v) =~= done);
        assert(result@.map_values(|x: Result<PassElements, ConfigError>| outcome(x))
            =~= segments(v).map_values(|seg: Seq<char>| spec_element(seg)));
    }
    result
}

/// A parsed command line: the elements of the password format, how many
/// passwords to make, and the format text as it was given.
#[derive(Debug)]
pub struct Config {
    pub format: Vec<Result<PassElements, ConfigError>>,
    pub quantity: u32,
    pub raw_format: String,
}

/// The positions, counted from 1, of the refused elements of `format`, in
/// increasing order.
pub open spec fn error_positions<T, E>(format: Seq<Result<T, E>>) -> Seq<int>
    decreases format.len(),
{
    if format.len() == 0 {
        seq![]
    } else {
        error_positions(format.drop_last()) + if format.last() is Err {
            seq![format.len() as int]
        } else {
            seq![]
        }
    }
}

/// A format has no refused element exactly when its list of refused
/// positions is empty.
pub proof fn lemma_error_positions_empty<T, E>(format: Seq<Result<T, E>>)
    ensures
        (error_positions(format).len() == 0) == (forall|i: int|
            0 <= i < format.len() ==> #[trigger] format[i] is Ok),
    decreases format.len(),
{
    if format.len() > 0 {
        let prev = format.drop_last();
        lemma_error_positions_empty(prev);
        if error_positions(format).len() == 0 {
            assert forall|i: int| 0 <= i < format.len() implies #[trigger] format[i] is Ok by {
                if i < prev.len() {
                    assert(prev[i] == format[i]);
                }
            }
        } else if error_positions(prev).len() > 0 {
            let k = choose|k: int| 0 <= k < prev.len() && !(#[trigger] prev[k] is Ok);
            assert(prev[k] == format[k]);
        }
    }
}

/// The positions, counted from 1, of the `Err` entries of `format`, in
/// increasing order; empty exactly when every entry is `Ok`.
pub fn error_positions_of<T, E>(format: &Vec<Result<T, E>>) -> (r: Vec<usize>)
    ensures
        r@.map_values(|p: usize| p as int) == error_positions(format@),
        (r@.len() == 0) == (forall|i: int| 0 <= i < format@.len() ==> #[trigger] format@[i] is Ok),
{
    let mut r: Vec<usize> = Vec::new();
    let mut pos: usize = 0;
    while pos < format.len()
        invariant
            pos <= format@.len(),
            r@.map_values(|p: usize| p as int) == error_positions(format@.take(pos as int)),
        decreases format@.len() - pos,
    {
        proof {
            assert(format@.take(pos + 1).drop_last() =~= format@.take(pos as int));
        }
        if format[pos].is_err() {
            r.push(pos + 1);
        }
        pos = pos + 1;
        assert(r@.map_values(|p: usize| p as int) =~= error_positions(format@.take(pos as int)));
    }
    proof {
        assert(format@.take(pos as int) =~= format@);
        lemma_error_positions_empty(format@);
    }
    r
}

/// The command-line values that the configuration is built from.
pub struct ArgValues {
    /// The format argument, if one was given.
    pub format: Option<String>,
    /// Whether the remembered format was asked for.
    pub last: bool,
    /// The number of passwords, if one was given.
    pub number: Option<u32>,
}

/// The format text given on the command line; none reads as empty.
pub open spec fn given_format(args: ArgValues) -> Seq<char> {
    match args.format {
        Some(f) => f@,
        None => seq![],
    }
}

/// The format text in use: the one given, or the remembered one when none was
/// given and it was asked for (none remembered reads as empty).
pub open spec fn chosen_format(args: ArgValues, remembered: Option<String>) -> Seq<char> {
    if given_format(args).len() == 0 && args.last {
        match remembered {
            Some(r) => r@,
            None => seq![],
        }
    } else {
        given_format(args)
    }
}

/// The format in use: a non-empty given format always, whatever `--last`
/// and the remembered format are; otherwise the remembered format when it
/// was asked for (empty when none is remembered), and empty when it was not.
pub proof fn lemma_chosen_format(args: ArgValues, remembered: Option<String>)
    ensures
        given_format(args).len() > 0 ==> chosen_format(args, remembered) == given_format(args),
        given_format(args).len() == 0 && !args.last ==> chosen_format(args, remembered).len() == 0,
        given_format(args).len() == 0 && args.last ==> chosen_format(args, remembered) == match remembered {
            Some(r) => r@,
            None => Seq::<char>::empty(),
        },
{
}

/// The number of passwords made when the command line names none.
pub const DEFAULT_QUANTITY: u32 = 3;

impl ArgValues {
    /// The format text in use for these values and the remembered format.
    pub fn chosen_format_text<'a>(&'a self, remembered: &'a Option<String>) -> (s: &'a str)
        ensures
            s@ == chosen_format(*self, *remembered),
            given_format(*self).len() > 0 ==> s@ == given_format(*self),
            given_format(*self).len() == 0 && !self.last ==> s@.len() == 0,
    {
        proof {
            reveal_strlit("");
        }
        if self.wants_remembered() {
            match remembered {
                Some(r) => r.as_str(),
                None => "",
            }
        } else {
            match &self.format {
                Some(f) => f.as_str(),
                None => "",
            }
        }
    }

    /// Whether building the configuration needs the remembered format: no
    /// format was given and the remembered one was asked for.
    pub fn wants_remembered(&self) -> (b: bool)
        ensures
            b == (given_format(*self).len() == 0 && self.last),
    {
        let empty = match &self.format {
            Some(f) => f.as_str().is_empty(),
            None => true,
        };
        empty && self.last
    }
}

/// The text that remains of a remembered format once trimmed, if any remains.
pub fn nonempty_format(trimmed_text: &str) -> (r: Option<String>)
    ensures
        r is None <==> trimmed_text@.len() == 0,
        r matches Some(s) ==> s@ == trimmed_text@,
{
    if trimmed_text.is_empty() {
        None
    } else {
        Some(trimmed_text.to_owned())
    }
}

/// The format stored in a memory file: its content without surrounding
/// whitespace, or nothing when only whitespace is left.
pub fn remembered_format(content: &str) -> (r: Option<String>)
    ensures
        r is None <==> trimmed(content@).len() == 0,
        r matches Some(s) ==> s@ == trimmed(content@),
{
    nonempty_format(trim(content))
}

impl Config {
    /// Builds the configuration from the command-line values and, when it is
    /// wanted, the remembered format.
    pub fn from_matches(args: ArgValues, remembered: Option<String>) -> (c: Config)
        requires
            is_ascii_chars(chosen_format(args, remembered)),
        ensures
            c.raw_format@ == chosen_format(args, remembered),
            given_format(args).len() > 0 ==> c.raw_format@ == given_format(args),
            given_format(args).len() == 0 && !args.last ==> c.raw_format@.len() == 0,
            given_format(args).len() == 0 && args.last ==> c.raw_format@ == match remembered {
                Some(r) => r@,
                None => Seq::<char>::empty(),
            },
            c.format@.map_values(|x: Result<PassElements, ConfigError>| outcome(x))
                == spec_parse_elements(c.raw_format@),
            c.quantity == match args.number {
                Some(n) => n,
                None => DEFAULT_QUANTITY,
            },
    {
        let use_last = args.wants_remembered();
        let given = match args.format {
            Some(f) => f,
            None => String::new(),
        };
        let raw_format = if use_last {
            match remembered {
                Some(r) => r,
                None => String::new(),
            }
        } else {
            given
        };
        let format = parse_elements(raw_format.as_str());
        let quantity = match args.number {
            Some(d) => d,
            None => DEFAULT_QUANTITY,
        };
        Config { format, quantity, raw_format }
    }

    /// The positions, counted from 1, of the elements that could not be
    /// parsed, in increasing order. It is empty exactly when every element
    /// was parsed.
    pub fn bad_element_positions(&self) -> (r: Vec<usize>)
        ensures
            r@.map_values(|p: usize| p as int) == error_positions(self.format@),
            (r@.len() == 0) == (forall|i: int| 0 <= i < self.format@.len() ==> #[trigger] self.format@[i] is Ok),
    {
        error_positions_of(&self.format)
    }
}

} // verus!
