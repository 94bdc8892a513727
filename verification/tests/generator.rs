use genpass::config::{parse_elements, Config, PassElements};
use genpass::generator::{Generator, CONSONANTS, DIGITS, SPECIAL, VOWELS};

#[test]
fn run_generates_requested_quantity() {
    let config = Config {
        format: vec![Ok(PassElements::Word(4)), Ok(PassElements::Digits(2))],
        quantity: 5,
        raw_format: "w4d2".to_string(),
    };

    let mut generator = Generator::new();
    let passwords = generator.run(config);

    assert_eq!(passwords.len(), 5);
}

#[test]
fn run_generates_expected_password_length() {
    let config = Config {
        format: vec![
            Ok(PassElements::UWord(4)),
            Ok(PassElements::Special(2)),
            Ok(PassElements::PWord(5)),
            Ok(PassElements::Digits(3)),
        ],
        quantity: 1,
        raw_format: "W4s2p5d3".to_string(),
    };

    let mut generator = Generator::new();
    let passwords = generator.run(config);

    assert_eq!(passwords.len(), 1);
    assert_eq!(passwords[0].len(), 14);
}

fn is_consonant(c: char) -> bool {
    CONSONANTS.contains(&c)
}

fn is_vowel(c: char) -> bool {
    VOWELS.contains(&c)
}

#[test]
fn words_alternate_consonants_and_vowels() {
    let mut generator = Generator::new();
    for _ in 0..20 {
        let w: Vec<char> = generator.gen_segment(&PassElements::Word(9)).chars().collect();
        assert_eq!(w.len(), 9);
        for (i, c) in w.iter().enumerate() {
            if i % 2 == 0 {
                assert!(is_consonant(*c), "{:?}", w);
            } else {
                assert!(is_vowel(*c), "{:?}", w);
            }
        }
    }
}

#[test]
fn upper_words_start_with_a_capital_consonant() {
    let mut generator = Generator::new();
    for _ in 0..20 {
        let w: Vec<char> = generator.gen_segment(&PassElements::UWord(5)).chars().collect();
        assert_eq!(w.len(), 5);
        assert!(w[0].is_ascii_uppercase());
        assert!(is_consonant(w[0].to_ascii_lowercase()));
        assert!(is_vowel(w[1]));
        assert!(is_consonant(w[2]));
    }
}

#[test]
fn digits_and_symbols_come_from_their_alphabets() {
    let mut generator = Generator::new();
    let d = generator.gen_segment(&PassElements::Digits(30));
    assert_eq!(d.chars().count(), 30);
    assert!(d.chars().all(|c| DIGITS.contains(&c)));
    let s = generator.gen_segment(&PassElements::Special(30));
    assert_eq!(s.chars().count(), 30);
    assert!(s.chars().all(|c| SPECIAL.contains(&c)));
}

fn is_pronounceable(w: &[char], consonant_next: bool) -> bool {
    if w.is_empty() {
        return true;
    }
    let (singles, pairs): (&[char], Vec<[char; 2]>) = if consonant_next {
        (&CONSONANTS, vec![
            ['t', 'h'], ['s', 'h'], ['c', 'h'], ['q', 'u'], ['w', 'h'], ['p', 'h'], ['c', 'k'],
            ['n', 'g'],
        ])
    } else {
        (&VOWELS, vec![['o', 'o'], ['e', 'e'], ['e', 'a'], ['a', 'i'], ['o', 'a']])
    };
    if singles.contains(&w[0]) && is_pronounceable(&w[1..], !consonant_next) {
        return true;
    }
    pairs.iter().any(|p| {
        if w.len() == 1 {
            p[0] == w[0]
        } else {
            p[0] == w[0] && p[1] == w[1] && is_pronounceable(&w[2..], !consonant_next)
        }
    })
}

#[test]
fn pronounceable_words_are_made_of_units() {
    let mut generator = Generator::new();
    for _ in 0..50 {
        let w: Vec<char> = generator.gen_segment(&PassElements::PWord(7)).chars().collect();
        assert_eq!(w.len(), 7);
        assert!(is_pronounceable(&w, true), "{:?}", w);
    }
    for _ in 0..50 {
        let w: Vec<char> = generator.gen_segment(&PassElements::UPWord(6)).chars().collect();
        assert_eq!(w.len(), 6);
        assert!(w[0].is_ascii_uppercase());
        let mut lower = w.clone();
        lower[0] = lower[0].to_ascii_lowercase();
        assert!(is_pronounceable(&lower, true), "{:?}", w);
    }
}

#[test]
fn refused_elements_add_nothing() {
    let config = Config {
        format: parse_elements("w3x2d4"),
        quantity: 3,
        raw_format: "w3x2d4".to_string(),
    };
    let mut generator = Generator::new();
    let passwords = generator.run(config);
    assert_eq!(passwords.len(), 3);
    for p in &passwords {
        let chars: Vec<char> = p.chars().collect();
        assert_eq!(chars.len(), 7);
        assert!(is_consonant(chars[0]) && is_vowel(chars[1]) && is_consonant(chars[2]));
        assert!(chars[3..].iter().all(|c| DIGITS.contains(c)));
    }
}

#[test]
fn zero_quantity_gives_no_password() {
    let config = Config {
        format: parse_elements("w3"),
        quantity: 0,
        raw_format: "w3".to_string(),
    };
    assert!(Generator::new().run(config).is_empty());
}
