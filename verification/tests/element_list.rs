use genpass::element_list::{Config, ConfigError, Generator, PassElements, MAX_WORD_LENGTH};
use genpass::text::ParseFailure;
use genpass::generator::{CONSONANTS, DIGITS, SPECIAL, VOWELS};

fn values(words: &[&str]) -> Vec<String> {
    words.iter().map(|w| w.to_string()).collect()
}

#[test]
fn list_elements_parse_in_order() {
    let config = Config::from_values(&values(&["w4", "s1", "d4", "a10"]));
    assert_eq!(config.format.len(), 4);
    assert!(matches!(config.format[0], Ok(PassElements::Word(4))));
    assert!(matches!(config.format[1], Ok(PassElements::Special(1))));
    assert!(matches!(config.format[2], Ok(PassElements::Digits(4))));
    assert!(matches!(config.format[3], Ok(PassElements::Any(10))));
    assert!(config.bad_element_positions().is_empty());
}

#[test]
fn list_element_errors() {
    assert!(matches!(PassElements::try_from("w"), Err(ConfigError::InvalidTotalLength)));
    assert!(matches!(PassElements::try_from("w100"), Err(ConfigError::InvalidTotalLength)));
    assert!(matches!(PassElements::try_from("w4 s1 d4"), Err(ConfigError::InvalidTotalLength)));
    assert!(matches!(PassElements::try_from("x4"), Err(ConfigError::InvalidElementType('x'))));
    assert!(matches!(PassElements::try_from("W4"), Err(ConfigError::InvalidElementType('W'))));
    assert!(matches!(PassElements::try_from("é"), Err(ConfigError::InvalidElementType('é'))));
    assert!(matches!(PassElements::try_from("é4"), Err(ConfigError::InvalidElementType('é'))));
    assert!(matches!(PassElements::try_from("é45"), Err(ConfigError::InvalidTotalLength)));
    assert!(matches!(
        PassElements::try_from("wx"),
        Err(ConfigError::ParseElementLengthError(_, ParseFailure::InvalidDigit))
    ));
    assert!(matches!(
        PassElements::try_from("w+"),
        Err(ConfigError::ParseElementLengthError(_, ParseFailure::InvalidDigit))
    ));
    assert!(matches!(
        PassElements::try_from("w999"),
        Err(ConfigError::InvalidTotalLength)
    ));
    assert!(matches!(PassElements::try_from("d0"), Err(ConfigError::ZeroElementLength)));
    assert!(matches!(PassElements::try_from("s11"), Err(ConfigError::MaxElementLengthError)));
    assert!(matches!(PassElements::try_from("s+9"), Ok(PassElements::Special(9))));
    assert_eq!(MAX_WORD_LENGTH, 10);
}

#[test]
fn list_bad_positions_are_counted_from_one() {
    let config = Config::from_values(&values(&["w4", "q2", "d0", "s3"]));
    assert_eq!(config.bad_element_positions(), vec![2, 3]);
}

#[test]
fn list_password_follows_the_format() {
    let config = Config::from_values(&values(&["w5", "a3", "d2", "x1", "s3"]));
    let password: Vec<char> = Generator::new().run(config).chars().collect();
    assert_eq!(password.len(), 13);
    for (i, c) in password[..5].iter().enumerate() {
        if i % 2 == 0 {
            assert!(CONSONANTS.contains(c));
        } else {
            assert!(VOWELS.contains(c));
        }
    }
    assert!(password[5..8].iter().all(|c| is_any(*c)));
    assert!(password[8..10].iter().all(|c| DIGITS.contains(c)));
    assert!(password[10..].iter().all(|c| SPECIAL.contains(c)));
}

fn is_any(c: char) -> bool {
    CONSONANTS.contains(&c) || VOWELS.contains(&c) || DIGITS.contains(&c) || SPECIAL.contains(&c)
}

#[test]
fn list_any_elements_draw_letters_digits_and_symbols() {
    let config = Config::from_values(&values(&["a3", "d2"]));
    let password: Vec<char> = Generator::new().run(config).chars().collect();
    assert_eq!(password.len(), 5);
    assert!(password[..3].iter().all(|c| is_any(*c)));
    assert!(password[3..].iter().all(|c| DIGITS.contains(c)));

    let many = Config::from_values(&values(&["a10", "a10", "a10", "a10", "a10"]));
    let password: Vec<char> = Generator::new().run(many).chars().collect();
    assert_eq!(password.len(), 50);
    assert!(password.iter().all(|c| is_any(*c)));
}
