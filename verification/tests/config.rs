use genpass::text::ParseFailure;
use genpass::config::{
    parse_elements, remembered_format, ArgValues, Config, ConfigError, PassElements,
    MAX_ELEMENT_LENGTH,
};

#[test]
fn parse_compact_format_success() {
    let parsed = parse_elements("W4s2w3d5");

    assert_eq!(parsed.len(), 4);
    assert!(matches!(parsed[0], Ok(PassElements::UWord(4))));
    assert!(matches!(parsed[1], Ok(PassElements::Special(2))));
    assert!(matches!(parsed[2], Ok(PassElements::Word(3))));
    assert!(matches!(parsed[3], Ok(PassElements::Digits(5))));
}

#[test]
fn parse_default_lengths_success() {
    let parsed = parse_elements("Wpds");

    assert_eq!(parsed.len(), 4);
    assert!(matches!(parsed[0], Ok(PassElements::UWord(1))));
    assert!(matches!(parsed[1], Ok(PassElements::PWord(1))));
    assert!(matches!(parsed[2], Ok(PassElements::Digits(1))));
    assert!(matches!(parsed[3], Ok(PassElements::Special(1))));
}

#[test]
fn parse_invalid_type_is_reported() {
    let parsed = parse_elements("x3");

    assert_eq!(parsed.len(), 1);
    assert!(matches!(
        parsed[0],
        Err(ConfigError::InvalidElementType('x'))
    ));
}

#[test]
fn parse_zero_and_max_length_validation() {
    let zero = parse_elements("w0");
    let too_big = parse_elements("d256");

    assert!(matches!(zero[0], Err(ConfigError::ZeroElementLength)));
    assert!(matches!(
        too_big[0],
        Err(ConfigError::MaxElementLengthError)
    ));
}

#[test]
fn cli_uses_last_format_when_requested() {
    let args = ArgValues {
        format: None,
        last: true,
        number: Some(2),
    };
    assert!(args.wants_remembered());
    let remembered = remembered_format("p8d2\n");
    let cfg = Config::from_matches(args, remembered);

    assert_eq!(cfg.quantity, 2);
    assert_eq!(cfg.raw_format, "p8d2");
    assert_eq!(cfg.format.len(), 2);
    assert!(matches!(cfg.format[0], Ok(PassElements::PWord(8))));
    assert!(matches!(cfg.format[1], Ok(PassElements::Digits(2))));
}

#[test]
fn empty_format_is_missing() {
    let parsed = parse_elements("");
    assert_eq!(parsed.len(), 1);
    assert!(matches!(parsed[0], Err(ConfigError::MissingFormat)));
    assert!(matches!(PassElements::try_from(""), Err(ConfigError::MissingFormat)));
}

#[test]
fn every_type_letter_maps_to_its_element() {
    let parsed = parse_elements("W2w3P4p5d6s7");
    assert_eq!(parsed.len(), 6);
    assert!(matches!(parsed[0], Ok(PassElements::UWord(2))));
    assert!(matches!(parsed[1], Ok(PassElements::Word(3))));
    assert!(matches!(parsed[2], Ok(PassElements::UPWord(4))));
    assert!(matches!(parsed[3], Ok(PassElements::PWord(5))));
    assert!(matches!(parsed[4], Ok(PassElements::Digits(6))));
    assert!(matches!(parsed[5], Ok(PassElements::Special(7))));
}

#[test]
fn length_bounds_are_inclusive() {
    let parsed = parse_elements("w255d1");
    assert!(matches!(parsed[0], Ok(PassElements::Word(255))));
    assert!(matches!(parsed[1], Ok(PassElements::Digits(1))));
    assert_eq!(MAX_ELEMENT_LENGTH, 255);
}

#[test]
fn overlong_number_is_a_parse_error() {
    let parsed = parse_elements("w99999999999999999999999999");
    assert_eq!(parsed.len(), 1);
    assert!(matches!(
        parsed[0],
        Err(ConfigError::ParseElementLengthError(_, ParseFailure::PosOverflow))
    ));
}

#[test]
fn element_text_is_parsed_like_a_number() {
    assert!(matches!(PassElements::try_from("w+5"), Ok(PassElements::Word(5))));
    assert!(matches!(PassElements::try_from("w007"), Ok(PassElements::Word(7))));
    assert!(matches!(
        PassElements::try_from("w-5"),
        Err(ConfigError::ParseElementLengthError(_, ParseFailure::InvalidDigit))
    ));
    assert!(matches!(
        PassElements::try_from("wx"),
        Err(ConfigError::ParseElementLengthError(_, ParseFailure::InvalidDigit))
    ));
    assert!(matches!(
        PassElements::try_from("w+"),
        Err(ConfigError::ParseElementLengthError(_, ParseFailure::InvalidDigit))
    ));
    assert!(matches!(
        PassElements::try_from("w+99999999999999999999999"),
        Err(ConfigError::ParseElementLengthError(_, ParseFailure::PosOverflow))
    ));
    assert!(matches!(
        PassElements::try_from("x0"),
        Err(ConfigError::ZeroElementLength)
    ));
}

#[test]
fn leading_digits_form_their_own_element() {
    let parsed = parse_elements("12w");
    assert_eq!(parsed.len(), 2);
    assert!(matches!(parsed[0], Err(ConfigError::InvalidElementType('1'))));
    assert!(matches!(parsed[1], Ok(PassElements::Word(1))));
}

#[test]
fn concatenated_formats_parse_as_their_parts() {
    let whole = parse_elements("W4s2w3d5");
    let first = parse_elements("W4s2");
    let second = parse_elements("w3d5");
    assert_eq!(whole.len(), first.len() + second.len());
    for (a, b) in whole.iter().zip(first.iter().chain(second.iter())) {
        assert_eq!(a.as_ref().ok(), b.as_ref().ok());
    }
}

#[test]
fn elements_compare_by_kind_and_length() {
    assert_eq!(PassElements::Word(3), PassElements::Word(3));
    assert_ne!(PassElements::Word(3), PassElements::Word(4));
    assert_ne!(PassElements::Word(3), PassElements::UWord(3));
}

#[test]
fn bad_positions_are_counted_from_one() {
    let args = ArgValues {
        format: Some("x1w2y3".to_string()),
        last: false,
        number: None,
    };
    let cfg = Config::from_matches(args, None);
    assert_eq!(cfg.quantity, 3);
    assert_eq!(cfg.bad_element_positions(), vec![1, 3]);

    let good = Config::from_matches(
        ArgValues {
            format: Some("w2".to_string()),
            last: false,
            number: Some(1),
        },
        None,
    );
    assert!(good.bad_element_positions().is_empty());
}

#[test]
fn given_format_wins_over_remembered_one() {
    let args = ArgValues {
        format: Some("d4".to_string()),
        last: true,
        number: Some(1),
    };
    assert!(!args.wants_remembered());
    let remembered = Some("p8".to_string());
    assert_eq!(args.chosen_format_text(&remembered), "d4");
    let cfg = Config::from_matches(args, remembered);
    assert_eq!(cfg.raw_format, "d4");
    assert!(matches!(cfg.format[0], Ok(PassElements::Digits(4))));
}

#[test]
fn missing_remembered_format_reads_as_empty() {
    let args = ArgValues {
        format: Some(String::new()),
        last: true,
        number: Some(1),
    };
    assert!(args.wants_remembered());
    let cfg = Config::from_matches(args, None);
    assert_eq!(cfg.raw_format, "");
    assert!(matches!(cfg.format[0], Err(ConfigError::MissingFormat)));
}

#[test]
fn remembered_format_is_trimmed() {
    assert_eq!(remembered_format("  p8d2 \n"), Some("p8d2".to_string()));
    assert_eq!(remembered_format(" \n\t"), None);
    assert_eq!(remembered_format(""), None);
}

#[test]
fn written_formats_parse_back() {
    let letters = ['W', 'w', 'P', 'p', 'd', 's'];
    let lengths = [1usize, 2, 9, 10, 99, 100, 255];
    let mut text = String::new();
    let mut expected = Vec::new();
    for (k, c) in letters.iter().enumerate() {
        for (m, n) in lengths.iter().enumerate() {
            if (k + m) % 2 == 0 {
                continue;
            }
            text.push(*c);
            if *n != 1 {
                text.push_str(&n.to_string());
            }
            expected.push(match c {
                'W' => PassElements::UWord(*n),
                'w' => PassElements::Word(*n),
                'P' => PassElements::UPWord(*n),
                'p' => PassElements::PWord(*n),
                'd' => PassElements::Digits(*n),
                _ => PassElements::Special(*n),
            });
        }
    }
    let parsed = parse_elements(&text);
    assert_eq!(parsed.len(), expected.len());
    for (p, e) in parsed.iter().zip(expected.iter()) {
        assert_eq!(p.as_ref().ok(), Some(e));
    }
}
