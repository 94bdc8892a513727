//! Password formats given as a list of separate element words, such as
//! `w4 s1 d4`. Each word is a type letter — `w` a readable word, `d` digits,
//! `s` special symbols, `a` any character — followed by a length of one or
//! two digits, at most [`MAX_WORD_LENGTH`]. An element of type `a` stands
//! for characters each of which is a letter, a digit or a special symbol.

use vstd::prelude::*;
use vstd::utf8::{encode_utf8, is_ascii_chars, is_ascii_chars_encode_utf8};
use crate::config::{decimal_text, digit_char, error_positions, error_positions_of, lemma_decimal_text};
use crate::config::PassElements as Element;
use crate::generator::{
    is_consonant, is_digit_symbol, is_special, is_vowel, segment_fits, Generator as WordGenerator,
    CONSONANTS, DIGITS, SPECIAL, VOWELS,
};
use crate::text::{
    decimal_value, expected_failure, is_digit, parse_u8, unsigned_digits, ParseFailure,
};

verus! {

/// The longest element that a list format may ask for.
pub const MAX_WORD_LENGTH: u8 = 10;

/// Parts of the password to be constructed.
#[derive(Debug, PartialEq, Eq, Structural)]
pub enum PassElements {
    /// Readable word.
    Word(u8),
    /// Digits.
    Digits(u8),
    /// Special symbols.
    Special(u8),
    /// Any character, digit or special symbol.
    Any(u8),
}

/// Why one element word was refused.
#[derive(Debug)]
pub enum ConfigError {
    /// The first character names no element type.
    InvalidElementType(char),
    /// The word is not 2 or 3 bytes long.
    InvalidTotalLength,
    /// The length after the type letter is not a decimal number below 256:
    /// the parser's error, and its kind.
    ParseElementLengthError(std::num::ParseIntError, ParseFailure),
    /// The length is zero.
    ZeroElementLength,
    /// The length exceeds [`MAX_WORD_LENGTH`].
    MaxElementLengthError,
}

/// A [`ConfigError`] without the parser's error value: what contracts compare.
#[derive(Debug, Clone, Copy, PartialEq, Eq, Structural)]
pub enum ConfigErrorKind {
    InvalidElementType(char),
    InvalidTotalLength,
    ParseElementLengthError,
    ZeroElementLength,
    MaxElementLengthError,
}

impl View for ConfigError {
    type V = ConfigErrorKind;

    open spec fn view(&self) -> ConfigErrorKind {
        match self {
            ConfigError::InvalidElementType(c) => ConfigErrorKind::InvalidElementType(*c),
            ConfigError::InvalidTotalLength => ConfigErrorKind::InvalidTotalLength,
            ConfigError::ParseElementLengthError(..) => ConfigErrorKind::ParseElementLengthError,
            ConfigError::ZeroElementLength => ConfigErrorKind::ZeroElementLength,
            ConfigError::MaxElementLengthError => ConfigErrorKind::MaxElementLengthError,
        }
    }
}

/// The outcome of parsing one element word, with the error taken by its view.
pub open spec fn outcome(r: Result<PassElements, ConfigError>) -> Result<PassElements, ConfigErrorKind> {
    match r {
        Ok(e) => Ok(e),
        Err(e) => Err(e@),
    }
}

/// The kind of the parse failure that an outcome carries, if it is a refused
/// length.
pub open spec fn length_failure(r: Result<PassElements, ConfigError>) -> Option<ParseFailure> {
    match r {
        Err(ConfigError::ParseElementLengthError(_, k)) => Some(k),
        _ => None,
    }
}

/// One of the four type letters.
pub open spec fn is_type_letter(c: char) -> bool {
    c == 'w' || c == 'd' || c == 's' || c == 'a'
}

/// The element that one element word denotes, or why it is refused. The
/// word's length is counted in UTF-8 bytes.
pub open spec fn spec_element(s: Seq<char>) -> Result<PassElements, ConfigErrorKind> {
    let bytes = encode_utf8(s).len();
    if bytes < 2 || bytes > 3 {
        Err(ConfigErrorKind::InvalidTotalLength)
    } else if !is_type_letter(s[0]) {
        Err(ConfigErrorKind::InvalidElementType(s[0]))
    } else {
        match decimal_value(s.drop_first(), u8::MAX as nat) {
            None => Err(ConfigErrorKind::ParseElementLengthError),
            Some(d) => if d == 0 {
                Err(ConfigErrorKind::ZeroElementLength)
            } else if d > MAX_WORD_LENGTH {
                Err(ConfigErrorKind::MaxElementLengthError)
            } else if s[0] == 'w' {
                Ok(PassElements::Word(d as u8))
            } else if s[0] == 'd' {
                Ok(PassElements::Digits(d as u8))
            } else if s[0] == 's' {
                Ok(PassElements::Special(d as u8))
            } else {
                Ok(PassElements::Any(d as u8))
            },
        }
    }
}

/// The element that type letter `c` and length `n` denote: `w` a word, `d`
/// digits, `s` special symbols, `a` any characters.
pub open spec fn list_element_of(c: char, n: u8) -> PassElements {
    if c == 'w' {
        PassElements::Word(n)
    } else if c == 'd' {
        PassElements::Digits(n)
    } else if c == 's' {
        PassElements::Special(n)
    } else {
        PassElements::Any(n)
    }
}

/// Every type letter followed by the decimal text of a length from 1 to
/// [`MAX_WORD_LENGTH`] parses to the element of that kind with that length.
pub proof fn lemma_list_written_element(c: char, n: u8)
    requires
        is_type_letter(c),
        1 <= n <= MAX_WORD_LENGTH,
    ensures
        spec_element(seq![c] + decimal_text(n as nat)) == Ok::<PassElements, ConfigErrorKind>(
            list_element_of(c, n),
        ),
{
    let t = seq![c] + decimal_text(n as nat);
    lemma_decimal_text(n as nat);
    let tail = t.drop_first();
    assert(tail =~= decimal_text(n as nat));
    if n < 10 {
        assert(tail.len() == 1);
    } else {
        assert(decimal_text(n as nat) == decimal_text(1).push(digit_char(0)));
        assert(tail.len() == 2);
    }
    assert(is_ascii_chars(t)) by {
        assert forall|i: int| 0 <= i < t.len() implies '\0' <= #[trigger] t[i] <= '\u{7f}' by {
            if i > 0 {
                assert(t[i] == tail[i - 1]);
                assert(is_digit(tail[i - 1]));
            }
        }
    }
    is_ascii_chars_encode_utf8(t);
    assert(is_digit(tail[0]));
    assert(unsigned_digits(tail) == tail);
    assert(t[0] == c);
}

impl PassElements {
    /// Parses one element word such as `w4`.
    pub fn try_from(value: &str) -> (r: Result<PassElements, ConfigError>)
        ensures
            outcome(r) == spec_element(value@),
            length_failure(r) matches Some(k) ==> (expected_failure(value@.drop_first()) matches Some(
                x,
            ) ==> k == x),
    {
        let bytes = value.as_bytes().len();
        if bytes < 2 || bytes > 3 {
            return Err(ConfigError::InvalidTotalLength);
        }
        assert(value@.len() > 0) by {
            if value@.len() == 0 {
                assert(encode_utf8(value@).len() == 0);
            }
        }
        let n = value.unicode_len();
        let first = value.get_char(0);
        if !(first == 'w' || first == 'd' || first == 's' || first == 'a') {
            return Err(ConfigError::InvalidElementType(first));
        }
        let rest = value.substring_char(1, n);
        assert(rest@ =~= value@.drop_first());
        let d = match parse_u8(rest) {
            Ok(d) => d,
            Err((e, k)) => {
                return Err(ConfigError::ParseElementLengthError(e, k));
            },
        };
        if d == 0 {
            return Err(ConfigError::ZeroElementLength);
        }
        if d > MAX_WORD_LENGTH {
            return Err(ConfigError::MaxElementLengthError);
        }
        match first {
            'w' => Ok(PassElements::Word(d)),
            'd' => Ok(PassElements::Digits(d)),
            's' => Ok(PassElements::Special(d)),
            _ => Ok(PassElements::Any(d)),
        }
    }
}

/// A configuration given as a list of element words.
#[derive(Debug)]
pub struct Config {
    pub format: Vec<Result<PassElements, ConfigError>>,
}

impl Config {
    /// Parses each element word, in order.
    pub fn from_values(values: &Vec<String>) -> (c: Config)
        ensures
            c.format@.len() == values@.len(),
            forall|i: int| 0 <= i < values@.len() ==> outcome(#[trigger] c.format@[i]) == spec_element(values@[i]@),
    {
        let mut format: Vec<Result<PassElements, ConfigError>> = Vec::new();
        let mut i: usize = 0;
        while i < values.len()
            invariant
                i <= values@.len(),
                format@.len() == i,
                forall|j: int| 0 <= j < i ==> outcome(#[trigger] format@[j]) == spec_element(values@[j]@),
            decreases values@.len() - i,
        {
            format.push(PassElements::try_from(values[i].as_str()));
            i = i + 1;
        }
        Config { format }
    }

    /// The positions, counted from 1, of the element words that could not be
    /// parsed, in increasing order. It is empty exactly when every word was
    /// parsed.
    pub fn bad_element_positions(&self) -> (r: Vec<usize>)
        ensures
            r@.map_values(|p: usize| p as int) == error_positions(self.format@),
            (r@.len() == 0) == (forall|i: int| 0 <= i < self.format@.len() ==> #[trigger] self.format@[i] is Ok),
    {
        error_positions_of(&self.format)
    }
}

impl PassElements {
    /// The number of characters that the element stands for.
    pub open spec fn length(self) -> nat {
        match self {
            PassElements::Word(d) => d as nat,
            PassElements::Digits(d) => d as nat,
            PassElements::Special(d) => d as nat,
            PassElements::Any(d) => d as nat,
        }
    }
}

/// The characters an element of type `a` draws from: the letters, then the
/// digits, then the special symbols.
pub open spec fn any_chars() -> Seq<char> {
    CONSONANTS@ + VOWELS@ + DIGITS@ + SPECIAL@
}

/// A letter, a digit or a special symbol.
pub open spec fn is_any_char(c: char) -> bool {
    is_consonant(c) || is_vowel(c) || is_digit_symbol(c) || is_special(c)
}

/// Every character of [`any_chars`] is a letter, a digit or a special symbol.
proof fn lemma_any_chars(c: char)
    requires
        any_chars().contains(c),
    ensures
        is_any_char(c),
{
    let k = choose|k: int| 0 <= k < any_chars().len() && any_chars()[k] == c;
    if k < 20 {
        assert(CONSONANTS@[k] == c);
    } else if k < 26 {
        assert(VOWELS@[k - 20] == c);
    } else if k < 36 {
        assert(DIGITS@[k - 26] == c);
    } else {
        assert(SPECIAL@[k - 36] == c);
    }
}

/// What one element of a list format allows in its place in a password: a
/// text of the element's length and kind.
pub open spec fn list_segment_fits(e: PassElements, s: Seq<char>) -> bool {
    match e {
        PassElements::Word(d) => segment_fits(Element::Word(d as usize), s),
        PassElements::Digits(d) => segment_fits(Element::Digits(d as usize), s),
        PassElements::Special(d) => segment_fits(Element::Special(d as usize), s),
        PassElements::Any(d) => s.len() == d && forall|i: int|
            0 <= i < s.len() ==> is_any_char(#[trigger] s[i]),
    }
}

/// `pw` is the concatenation of one fitting segment for each parsed element
/// of `format`, in order; refused elements contribute nothing.
pub open spec fn list_fits(format: Seq<Result<PassElements, ConfigError>>, pw: Seq<char>) -> bool
    decreases format.len(),
{
    if format.len() == 0 {
        pw.len() == 0
    } else {
        match format.last() {
            Ok(e) => {
                let cut = pw.len() - e.length();
                &&& cut >= 0
                &&& list_segment_fits(e, pw.skip(cut))
                &&& list_fits(format.drop_last(), pw.take(cut))
            },
            Err(_) => list_fits(format.drop_last(), pw),
        }
    }
}

/// The number of characters that a list format generates: the sum of the
/// lengths of its parsed elements.
pub open spec fn list_total_length(format: Seq<Result<PassElements, ConfigError>>) -> nat
    decreases format.len(),
{
    if format.len() == 0 {
        0
    } else {
        list_total_length(format.drop_last()) + match format.last() {
            Ok(e) => e.length(),
            Err(_) => 0,
        }
    }
}

/// A password that fits a list format is as long as the format's parsed
/// elements together.
pub proof fn lemma_list_fits_length(format: Seq<Result<PassElements, ConfigError>>, pw: Seq<char>)
    requires
        list_fits(format, pw),
    ensures
        pw.len() == list_total_length(format),
    decreases format.len(),
{
    if format.len() > 0 {
        match format.last() {
            Ok(e) => lemma_list_fits_length(format.drop_last(), pw.take(pw.len() - e.length())),
            Err(_) => lemma_list_fits_length(format.drop_last(), pw),
        }
    }
}

/// Appends the characters of `items` to `v`.
fn append_chars(v: &mut Vec<char>, items: &[char])
    ensures
        final(v)@ == old(v)@ + items@,
{
    let mut i: usize = 0;
    while i < items.len()
        invariant
            i <= items@.len(),
            v@ == old(v)@ + items@.take(i as int),
        decreases items@.len() - i,
    {
        v.push(items[i]);
        i = i + 1;
        assert(v@ =~= old(v)@ + items@.take(i as int));
    }
    assert(items@.take(i as int) =~= items@);
}

/// The characters of [`any_chars`], in its order.
pub fn any_alphabet() -> (v: Vec<char>)
    ensures
        v@ == any_chars(),
{
    let mut v: Vec<char> = Vec::new();
    append_chars(&mut v, &CONSONANTS);
    append_chars(&mut v, &VOWELS);
    append_chars(&mut v, &DIGITS);
    append_chars(&mut v, &SPECIAL);
    assert(v@ =~= any_chars());
    v
}

/// Generates passwords for list formats.
pub struct Generator {
    words: WordGenerator,
}

impl Generator {
    /// A generator that draws from the thread-local random number generator.
    pub fn new() -> Generator {
        Generator { words: WordGenerator::new() }
    }

    /// A random segment for one element: its kind of text, of its length.
    /// `alphabet` holds the characters that elements of type `a` draw from.
    fn gen_list_segment(&mut self, e: &PassElements, alphabet: &Vec<char>) -> (s: String)
        requires
            alphabet@ == any_chars(),
        ensures
            list_segment_fits(*e, s@),
    {
        match e {
            PassElements::Word(d) => self.words.gen_segment(&Element::Word(*d as usize)),
            PassElements::Digits(d) => self.words.gen_segment(&Element::Digits(*d as usize)),
            PassElements::Special(d) => self.words.gen_segment(&Element::Special(*d as usize)),
            PassElements::Any(d) => {
                let s = self.words.gen_from(*d as usize, alphabet.as_slice(), 'a');
                proof {
                    assert forall|i: int| 0 <= i < s@.len() implies is_any_char(#[trigger] s@[i]) by {
                        lemma_any_chars(s@[i]);
                    }
                }
                s
            },
        }
    }

    /// One password: a random segment for each parsed element of the format,
    /// in order. Refused elements are skipped.
    pub fn run(&mut self, elements: Config) -> (password: String)
        ensures
            list_fits(elements.format@, password@),
            password@.len() == list_total_length(elements.format@),
    {
        let alphabet = any_alphabet();
        let mut password = String::new();
        let mut j: usize = 0;
        while j < elements.format.len()
            invariant
                alphabet@ == any_chars(),
                j <= elements.format@.len(),
                list_fits(elements.format@.take(j as int), password@),
            decreases elements.format@.len() - j,
        {
            let ghost before = password@;
            proof {
                let fmt = elements.format@.take(j as int + 1);
                assert(fmt.drop_last() =~= elements.format@.take(j as int));
                assert(fmt.last() == elements.format@[j as int]);
            }
            match &elements.format[j] {
                Ok(e) => {
                    let piece = self.gen_list_segment(e, &alphabet);
                    password.append(piece.as_str());
                    proof {
                        let cut = password@.len() - e.length();
                        assert(password@.take(cut) =~= before);
                        assert(password@.skip(cut) =~= piece@);
                    }
                },
                Err(_) => {},
            }
            j = j + 1;
        }
        proof {
            assert(elements.format@.take(j as int) =~= elements.format@);
            lemma_list_fits_length(elements.format@, password@);
        }
        password
    }
}

impl Default for Generator {
    fn default() -> Self {
        Generator::new()
    }
}

} // verus!
