//! Filling the elements of a password format with random characters.

use vstd::prelude::*;
use rand::rngs::ThreadRng;
use rand::Rng;
use rand::seq::IndexedRandom;
use crate::config::{Config, ConfigError, PassElements};
use crate::text::push_char;

verus! {

/// `rand`'s handle to the thread-local random number generator, carried opaquely.
#[verifier::external_type_specification]
#[verifier::external_body]
pub struct ExThreadRng(ThreadRng);

/// Calls `rand::rng`, the handle to the thread-local generator. Nothing is
/// stated of the handle.
#[verifier::external_body]
fn thread_rng() -> ThreadRng {
    rand::rng()
}

/// Calls `IndexedRandom::choose` on a slice and copies the element out. The
/// crate's source returns `None` exactly for an empty slice and otherwise one
/// of the slice's elements, picked at random; which one is left unsaid.
#[verifier::external_body]
fn pick<T: Copy>(rng: &mut ThreadRng, items: &[T]) -> (r: Option<T>)
    ensures
        (r is None) == (items@.len() == 0),
        r matches Some(x) ==> items@.contains(x),
{
    items.choose(rng).copied()
}

/// Calls `Rng::random_ratio`, which panics unless
/// `0 < denominator` and `numerator <= denominator`. Its documentation
/// guarantees `false` for a zero numerator and `true` when numerator and
/// denominator are equal; any other outcome is random and left unsaid.
#[verifier::external_body]
fn random_ratio(rng: &mut ThreadRng, numerator: u32, denominator: u32) -> (r: bool)
    requires
        0 < denominator,
        numerator <= denominator,
    ensures
        numerator == 0 ==> !r,
        numerator == denominator ==> r,
{
    rng.random_ratio(numerator, denominator)
}

/// The vowels that words are made of.
pub const VOWELS: [char; 6] = ['a', 'e', 'i', 'o', 'u', 'y'];

/// The consonants that words are made of.
pub const CONSONANTS: [char; 20] = [
    'b', 'c', 'd', 'f', 'g', 'h', 'j', 'k', 'l', 'm', 'n', 'p', 'q', 'r', 's', 't', 'v', 'w', 'x',
    'z',
];

/// Consonant pairs that pronounceable words may use in place of one consonant.
pub const CONSONANT_DIGRAPHS: [[char; 2]; 8] = [
    ['t', 'h'], ['s', 'h'], ['c', 'h'], ['q', 'u'], ['w', 'h'], ['p', 'h'], ['c', 'k'], ['n', 'g'],
];

/// Vowel pairs that pronounceable words may use in place of one vowel.
pub const VOWEL_DIGRAPHS: [[char; 2]; 5] = [['o', 'o'], ['e', 'e'], ['e', 'a'], ['a', 'i'], ['o', 'a']];

/// The characters of digit elements.
pub const DIGITS: [char; 10] = ['0', '1', '2', '3', '4', '5', '6', '7', '8', '9'];

/// The characters of special-symbol elements.
pub const SPECIAL: [char; 25] = [
    '!', '@', '#', '$', '%', '^', '&', '*', '~', '>', '<', '(', ')', '\\', '/', ',', '=', ';', ':',
    '+', '-', '.', '[', ']', '_',
];

/// The ASCII upper-case counterpart of `c`; other characters stay.
pub open spec fn ascii_upper(c: char) -> char {
    if 'a' <= c <= 'z' {
        ((c as u32) - 32) as char
    } else {
        c
    }
}

/// Maps `'a'..='z'` to `'A'..='Z'` and leaves every other character alone.
pub fn to_ascii_upper(c: char) -> (u: char)
    ensures
        u == ascii_upper(c),
{
    if 'a' <= c && c <= 'z' {
        ((c as u8) - 32) as char
    } else {
        c
    }
}

/// One of [`VOWELS`].
pub open spec fn is_vowel(c: char) -> bool {
    VOWELS@.contains(c)
}

/// One of [`CONSONANTS`].
pub open spec fn is_consonant(c: char) -> bool {
    CONSONANTS@.contains(c)
}

/// One of [`DIGITS`].
pub open spec fn is_digit_symbol(c: char) -> bool {
    DIGITS@.contains(c)
}

/// One of [`SPECIAL`].
pub open spec fn is_special(c: char) -> bool {
    SPECIAL@.contains(c)
}

/// `s` with its first character made upper case when `upper` holds.
pub open spec fn capitalized(s: Seq<char>, upper: bool) -> Seq<char> {
    if upper && s.len() > 0 {
        s.update(0, ascii_upper(s[0]))
    } else {
        s
    }
}

/// Consonants at even positions, vowels at odd ones.
pub open spec fn alternating_letters(s: Seq<char>) -> bool {
    forall|i: int|
        0 <= i < s.len() ==> if i % 2 == 0 {
            is_consonant(#[trigger] s[i])
        } else {
            is_vowel(s[i])
        }
}

/// A readable word: alternating consonants and vowels, starting with a
/// consonant, with the first letter upper-cased when `upper` holds.
pub open spec fn is_word(w: Seq<char>, upper: bool) -> bool {
    exists|base: Seq<char>| #[trigger] alternating_letters(base) && w == capitalized(base, upper)
}

/// A consonant, or one of the consonant digraphs.
pub open spec fn is_consonant_unit(u: Seq<char>) -> bool {
    (u.len() == 1 && is_consonant(u[0])) || CONSONANT_DIGRAPHS@.map_values(
        |d: [char; 2]| d@,
    ).contains(u)
}

/// A vowel, or one of the vowel digraphs.
pub open spec fn is_vowel_unit(u: Seq<char>) -> bool {
    (u.len() == 1 && is_vowel(u[0])) || VOWEL_DIGRAPHS@.map_values(|d: [char; 2]| d@).contains(u)
}

/// Consonant units at even positions, vowel units at odd ones.
pub open spec fn alternating_units(units: Seq<Seq<char>>) -> bool {
    forall|i: int|
        0 <= i < units.len() ==> if i % 2 == 0 {
            is_consonant_unit(#[trigger] units[i])
        } else {
            is_vowel_unit(units[i])
        }
}

/// A pronounceable word: alternating consonant and vowel units, starting with
/// a consonant unit, cut to its length in the last unit, with the first letter
/// upper-cased when `upper` holds.
pub open spec fn is_pronounceable(w: Seq<char>, upper: bool) -> bool {
    exists|units: Seq<Seq<char>>|
        #[trigger] alternating_units(units) && units.flatten().len() >= w.len() && (units.len() > 0
            ==> units.drop_last().flatten().len() < w.len()) && w == capitalized(
            units.flatten().take(w.len() as int),
            upper,
        )
}


/// What one element of a format allows in its place in a password: a text of
/// the element's length and kind.
pub open spec fn segment_fits(e: PassElements, s: Seq<char>) -> bool {
    &&& s.len() == e.length()
    &&& match e {
        PassElements::Word(_) => is_word(s, false),
        PassElements::UWord(_) => is_word(s, true),
        PassElements::PWord(_) => is_pronounceable(s, false),
        PassElements::UPWord(_) => is_pronounceable(s, true),
        PassElements::Digits(_) => forall|i: int| 0 <= i < s.len() ==> is_digit_symbol(#[trigger] s[i]),
        PassElements::Special(_) => forall|i: int| 0 <= i < s.len() ==> is_special(#[trigger] s[i]),
    }
}

/// `pw` is the concatenation of one fitting segment for each parsed element
/// of `format`, in order; refused elements contribute nothing.
pub open spec fn fits(format: Seq<Result<PassElements, ConfigError>>, pw: Seq<char>) -> bool
    decreases format.len(),
{
    if format.len() == 0 {
        pw.len() == 0
    } else {
        match format.last() {
            Ok(e) => {
                let cut = pw.len() - e.length();
                &&& cut >= 0
                &&& segment_fits(e, pw.skip(cut))
                &&& fits(format.drop_last(), pw.take(cut))
            },
            Err(_) => fits(format.drop_last(), pw),
        }
    }
}

/// The sum of the lengths of the parsed elements of `format`.
pub open spec fn total_length(format: Seq<Result<PassElements, ConfigError>>) -> nat
    decreases format.len(),
{
    if format.len() == 0 {
        0
    } else {
        total_length(format.drop_last()) + match format.last() {
            Ok(e) => e.length(),
            Err(_) => 0,
        }
    }
}

/// A password that fits a format is as long as the format's elements together.
pub proof fn lemma_fits_length(format: Seq<Result<PassElements, ConfigError>>, pw: Seq<char>)
    requires
        fits(format, pw),
    ensures
        pw.len() == total_length(format),
    decreases format.len(),
{
    if format.len() > 0 {
        match format.last() {
            Ok(e) => lemma_fits_length(format.drop_last(), pw.take(pw.len() - e.length())),
            Err(_) => lemma_fits_length(format.drop_last(), pw),
        }
    }
}

/// Capitalising a text and then appending to it is appending and then
/// capitalising, except for the very first character.
proof fn lemma_capitalized_push(s: Seq<char>, c: char, upper: bool)
    ensures
        capitalized(s.push(c), upper) == if s.len() == 0 && upper {
            seq![ascii_upper(c)]
        } else {
            capitalized(s, upper).push(c)
        },
{
    assert(capitalized(s.push(c), upper) =~= if s.len() == 0 && upper {
        seq![ascii_upper(c)]
    } else {
        capitalized(s, upper).push(c)
    });
}

/// The random source of the generator.
pub struct Generator {
    rng: ThreadRng,
}

impl Generator {
    /// A generator that draws from the thread-local random number generator.
    pub fn new() -> Generator {
        Generator { rng: thread_rng() }
    }

    /// A readable word of `len` letters.
    fn gen_word(&mut self, len: usize, uppercase: bool) -> (w: String)
        ensures
            w@.len() == len,
            is_word(w@, uppercase),
    {
        let mut word = String::new();
        let ghost mut base: Seq<char> = seq![];
        let mut i: usize = 0;
        while i < len
            invariant
                i <= len,
                base.len() == i,
                alternating_letters(base),
                word@ == capitalized(base, uppercase),
            decreases len - i,
        {
            let c = if i % 2 == 0 {
                pick(&mut self.rng, &CONSONANTS).unwrap_or('b')
            } else {
                pick(&mut self.rng, &VOWELS).unwrap_or('a')
            };
            let shown = if i == 0 && uppercase {
                to_ascii_upper(c)
            } else {
                c
            };
            push_char(&mut word, shown);
            proof {
                lemma_capitalized_push(base, c, uppercase);
                base = base.push(c);
                assert(alternating_letters(base));
            }
            i = i + 1;
        }
        assert(alternating_letters(base) && word@ == capitalized(base, uppercase));
        word
    }

    /// A pronounceable word of `len` letters: consonant and vowel units in
    /// turn, where a consonant unit is a digraph with chance 7 in 20 and a
    /// vowel unit is one with chance 1 in 4, cut to `len` letters.
    fn gen_pronounceable_word(&mut self, len: usize, uppercase: bool) -> (w: String)
        ensures
            w@.len() == len,
            is_pronounceable(w@, uppercase),
    {
        let mut word = String::new();
        if len == 0 {
            proof {
                let units: Seq<Seq<char>> = seq![];
                assert(units.flatten() =~= Seq::<char>::empty());
                assert(alternating_units(units) && word@ == capitalized(
                    units.flatten().take(0),
                    uppercase,
                ));
            }
            return word;
        }
        let mut count: usize = 0;
        let mut consonant_next = true;
        let ghost mut units: Seq<Seq<char>> = seq![];
        let ghost mut base: Seq<char> = seq![];
        proof {
            assert(units.flatten() =~= Seq::<char>::empty());
            assert(base =~= units.flatten().take(0));
        }
        while count < len
            invariant
                count <= len,
                base.len() == count,
                base == units.flatten().take(count as int),
                units.flatten().len() >= count,
                count < len ==> units.flatten().len() == count,
                units.len() > 0 ==> units.drop_last().flatten().len() < count,
                alternating_units(units),
                consonant_next == (units.len() % 2 == 0),
                word@ == capitalized(base, uppercase),
            decreases len - count,
        {
            let unit: Vec<char> = if consonant_next {
                if random_ratio(&mut self.rng, 7, 20) {
                    let d = pick(&mut self.rng, &CONSONANT_DIGRAPHS).unwrap_or(['t', 'h']);
                    proof {
                        assert(CONSONANT_DIGRAPHS@.map_values(|d: [char; 2]| d@).contains(d@)) by {
                            let k = choose|k: int| 0 <= k < CONSONANT_DIGRAPHS@.len() && CONSONANT_DIGRAPHS@[k] == d;
                            assert(CONSONANT_DIGRAPHS@.map_values(|d: [char; 2]| d@)[k] == d@);
                        }
                    }
                    vec![d[0], d[1]]
                } else {
                    vec![pick(&mut self.rng, &CONSONANTS).unwrap_or('b')]
                }
            } else if random_ratio(&mut self.rng, 1, 4) {
                let d = pick(&mut self.rng, &VOWEL_DIGRAPHS).unwrap_or(['o', 'o']);
                proof {
                    assert(VOWEL_DIGRAPHS@.map_values(|d: [char; 2]| d@).contains(d@)) by {
                        let k = choose|k: int| 0 <= k < VOWEL_DIGRAPHS@.len() && VOWEL_DIGRAPHS@[k] == d;
                        assert(VOWEL_DIGRAPHS@.map_values(|d: [char; 2]| d@)[k] == d@);
                    }
                }
                vec![d[0], d[1]]
            } else {
                vec![pick(&mut self.rng, &VOWELS).unwrap_or('a')]
            };
            proof {
                if consonant_next {
                    assert(is_consonant_unit(unit@));
                } else {
                    assert(is_vowel_unit(unit@));
                }
            }
            let ghost old_count = count;
            let ghost old_base = base;
            let mut k: usize = 0;
            while k < unit.len() && count < len
                invariant
                    k <= unit@.len(),
                    count == old_count + k,
                    count <= len,
                    old_count < len,
                    old_base.len() == old_count,
                    base == old_base + unit@.take(k as int),
                    word@ == capitalized(base, uppercase),
                decreases unit@.len() - k,
            {
                let c = unit[k];
                let shown = if count == 0 && uppercase {
                    to_ascii_upper(c)
                } else {
                    c
                };
                push_char(&mut word, shown);
                proof {
                    lemma_capitalized_push(base, c, uppercase);
                    assert(old_base + unit@.take(k + 1) =~= (old_base + unit@.take(k as int)).push(c));
                    base = base.push(c);
                }
                k = k + 1;
                count = count + 1;
            }
            proof {
                let prev = units;
                units = units.push(unit@);
                prev.lemma_flatten_push(unit@);
                assert(units.drop_last() =~= prev);
                assert(units.flatten().take(count as int) =~= old_base + unit@.take(k as int));
                assert forall|i: int| 0 <= i < units.len() implies if i % 2 == 0 {
                    is_consonant_unit(#[trigger] units[i])
                } else {
                    is_vowel_unit(units[i])
                } by {
                    if i < prev.len() {
                        assert(units[i] == prev[i]);
                    }
                }
            }
            consonant_next = !consonant_next;
        }
        assert(alternating_units(units) && units.flatten().len() >= word@.len() && (units.len() > 0
            ==> units.drop_last().flatten().len() < word@.len()) && word@ == capitalized(
            units.flatten().take(word@.len() as int),
            uppercase,
        ));
        word
    }

    /// `len` random characters drawn from `alphabet`.
    pub(crate) fn gen_from(&mut self, len: usize, alphabet: &[char], fallback: char) -> (w: String)
        requires
            alphabet@.len() > 0,
        ensures
            w@.len() == len,
            forall|i: int| 0 <= i < len ==> alphabet@.contains(#[trigger] w@[i]),
    {
        let mut out = String::new();
        let mut i: usize = 0;
        while i < len
            invariant
                i <= len,
                alphabet@.len() > 0,
                out@.len() == i,
                forall|j: int| 0 <= j < i ==> alphabet@.contains(#[trigger] out@[j]),
            decreases len - i,
        {
            let c = pick(&mut self.rng, alphabet).unwrap_or(fallback);
            push_char(&mut out, c);
            i = i + 1;
        }
        out
    }

    /// `len` random digits.
    fn gen_digits(&mut self, len: usize) -> (w: String)
        ensures
            w@.len() == len,
            forall|i: int| 0 <= i < len ==> is_digit_symbol(#[trigger] w@[i]),
    {
        self.gen_from(len, &DIGITS, '0')
    }

    /// `len` random special symbols.
    fn gen_special(&mut self, len: usize) -> (w: String)
        ensures
            w@.len() == len,
            forall|i: int| 0 <= i < len ==> is_special(#[trigger] w@[i]),
    {
        self.gen_from(len, &SPECIAL, '!')
    }

    /// A random segment for one element: its kind of text, of its length.
    pub fn gen_segment(&mut self, e: &PassElements) -> (s: String)
        ensures
            segment_fits(*e, s@),
    {
        match e {
            PassElements::UWord(d) => self.gen_word(*d, true),
            PassElements::Word(d) => self.gen_word(*d, false),
            PassElements::UPWord(d) => self.gen_pronounceable_word(*d, true),
            PassElements::PWord(d) => self.gen_pronounceable_word(*d, false),
            PassElements::Digits(d) => self.gen_digits(*d),
            PassElements::Special(d) => self.gen_special(*d),
        }
    }

    /// Makes `elements.quantity` passwords; each is the concatenation of one
    /// random segment per parsed element of the format, in order. Refused
    /// elements are skipped.
    pub fn run(&mut self, elements: Config) -> (passwords: Vec<String>)
        ensures
            passwords@.len() == elements.quantity,
            forall|i: int| 0 <= i < passwords@.len() ==> fits(elements.format@, #[trigger] passwords@[i]@),
            forall|i: int| 0 <= i < passwords@.len() ==> #[trigger] passwords@[i]@.len() == total_length(elements.format@),
    {
        let mut passwords: Vec<String> = Vec::new();
        let n = elements.quantity;
        let mut made: u32 = 0;
        while made < n
            invariant
                made <= n,
                n == elements.quantity,
                passwords@.len() == made,
                forall|i: int| 0 <= i < passwords@.len() ==> fits(elements.format@, #[trigger] passwords@[i]@),
            decreases n - made,
        {
            let mut password = String::new();
            let mut j: usize = 0;
            while j < elements.format.len()
                invariant
                    j <= elements.format@.len(),
                    fits(elements.format@.take(j as int), password@),
                decreases elements.format@.len() - j,
            {
                let ghost before = password@;
                let ghost fmt = elements.format@.take(j as int + 1);
                proof {
                    assert(fmt.drop_last() =~= elements.format@.take(j as int));
                    assert(fmt.last() == elements.format@[j as int]);
                }
                match &elements.format[j] {
                    Ok(e) => {
                        let piece = self.gen_segment(e);
                        password.append(piece.as_str());
                        proof {
                            let cut = password@.len() - e.length();
                            assert(password@.take(cut) =~= before);
                            assert(password@.skip(cut) =~= piece@);
                        }
                    },
                    Err(_) => {},
                }
                j = j + 1;
            }
            proof {
                assert(elements.format@.take(j as int) =~= elements.format@);
            }
            passwords.push(password);
            made = made + 1;
        }
        proof {
            assert forall|i: int| 0 <= i < passwords@.len() implies #[trigger] passwords@[i]@.len() == total_length(elements.format@) by {
                lemma_fits_length(elements.format@, passwords@[i]@);
            }
        }
        passwords
    }
}

impl Default for Generator {
    fn default() -> Self {
        Generator::new()
    }
}

} // verus!
