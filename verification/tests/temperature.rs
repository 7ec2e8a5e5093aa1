use tempstats::temperature::ParseError;
use tempstats::temperature::Temperature;

#[test]
fn test_temperature() {
    assert_eq!(
        Temperature::parse_strict("12.3".as_bytes()),
        Ok(Temperature { tenths: 123 })
    );
    assert_eq!(
        Temperature::parse_strict("-0.1".as_bytes()),
        Ok(Temperature { tenths: -1 })
    );
    assert_eq!(
        Temperature::parse_strict("123456789.0".as_bytes()),
        Ok(Temperature { tenths: 1234567890 })
    );
    assert!(Temperature::parse_strict("".as_bytes()).is_err());
    assert!(Temperature::parse_strict("12345.6 ".as_bytes()).is_err());
    assert!(Temperature::parse_strict("foo0.1".as_bytes()).is_err());
    assert!(Temperature::parse_strict("-123".as_bytes()).is_err());

    // values should round-trip through parse and display
    let nums = ["0.0", "1.0", "123.5", "-1.0", "-1.4", "-0.2", "-100.3"];
    for s in nums {
        let t = Temperature::parse_strict(s.as_bytes()).unwrap();
        assert_eq!(s, t.to_string().as_str());
    }

    // same tests but for the fast parser
    assert_eq!(
        Temperature::parse("12.3".as_bytes()),
        Temperature { tenths: 123 }
    );
    assert_eq!(
        Temperature::parse("-0.1".as_bytes()),
        Temperature { tenths: -1 }
    );
    assert_eq!(
        Temperature::parse("123456789.0".as_bytes()),
        Temperature { tenths: 1234567890 }
    );

    let nums = ["0.0", "1.0", "123.5", "-1.0", "-1.4", "-0.2", "-100.3"];
    for s in nums {
        let t = Temperature::parse(s.as_bytes());
        assert_eq!(s, t.to_string().as_str());
    }
}

#[test]
fn strict_parser_names_each_error() {
    let cases: [(&str, ParseError); 14] = [
        ("", ParseError::TruncatedInput),
        ("-", ParseError::TruncatedInput),
        ("12", ParseError::TruncatedInput),
        ("-123", ParseError::TruncatedInput),
        ("12.", ParseError::TruncatedInput),
        ("12.34", ParseError::TrailingCharacters),
        ("12345.6 ", ParseError::TrailingCharacters),
        ("1.2.3", ParseError::TrailingCharacters),
        ("foo0.1", ParseError::InvalidCharacter),
        ("+1.0", ParseError::InvalidCharacter),
        (".5", ParseError::InvalidCharacter),
        ("-.5", ParseError::InvalidCharacter),
        ("1..5", ParseError::InvalidCharacter),
        ("1-2.3", ParseError::InvalidCharacter),
    ];
    for (text, error) in cases {
        assert_eq!(Temperature::parse_strict(text.as_bytes()), Err(error));
    }
}

#[test]
fn strict_parser_keeps_to_the_range() {
    assert_eq!(
        Temperature::parse_strict("214748364.7".as_bytes()),
        Ok(Temperature { tenths: i32::MAX })
    );
    assert_eq!(
        Temperature::parse_strict("-214748364.7".as_bytes()),
        Ok(Temperature { tenths: -i32::MAX })
    );
    assert_eq!(
        Temperature::parse_strict("214748364.8".as_bytes()),
        Err(ParseError::OutOfRange)
    );
    assert_eq!(
        Temperature::parse_strict("-214748364.8".as_bytes()),
        Err(ParseError::OutOfRange)
    );
    assert_eq!(
        Temperature::parse_strict("99999999999999999999999999.9".as_bytes()),
        Err(ParseError::OutOfRange)
    );
    // the grammar is checked before the range
    assert_eq!(
        Temperature::parse_strict("99999999999999999999999999.9x".as_bytes()),
        Err(ParseError::TrailingCharacters)
    );
    assert_eq!(
        Temperature::parse_strict("99999999999999999999999999".as_bytes()),
        Err(ParseError::TruncatedInput)
    );
}

#[test]
fn strict_parser_accepts_leading_zeros() {
    assert_eq!(
        Temperature::parse_strict("007.5".as_bytes()),
        Ok(Temperature { tenths: 75 })
    );
    assert_eq!(
        Temperature::parse_strict("-0.0".as_bytes()),
        Ok(Temperature { tenths: 0 })
    );
    assert_eq!(Temperature { tenths: 75 }.to_string(), "7.5");
    assert_eq!(Temperature { tenths: 0 }.to_string(), "0.0");
}

#[test]
fn relaxed_parser_skips_what_is_no_digit() {
    assert_eq!(
        Temperature::parse(";12.3".as_bytes()),
        Temperature { tenths: 123 }
    );
    assert_eq!(
        Temperature::parse(";-12.3".as_bytes()),
        Temperature { tenths: -123 }
    );
    assert_eq!(
        Temperature::parse("1x2y3-".as_bytes()),
        Temperature { tenths: -123 }
    );
    assert_eq!(Temperature::parse("".as_bytes()), Temperature { tenths: 0 });
    assert_eq!(
        Temperature::parse("abc".as_bytes()),
        Temperature { tenths: 0 }
    );
}

#[test]
fn relaxed_parser_agrees_with_strict_parser() {
    let nums = [
        "0.0",
        "0.1",
        "-0.1",
        "9.9",
        "-9.9",
        "10.0",
        "99.9",
        "-99.9",
        "100.0",
        "1234.5",
        "-1234.5",
        "214748364.7",
        "-214748364.7",
        "000.0",
    ];
    for s in nums {
        assert!(Temperature::in_range(s.as_bytes()));
        assert_eq!(
            Ok(Temperature::parse(s.as_bytes())),
            Temperature::parse_strict(s.as_bytes())
        );
    }
}

#[test]
fn in_range_is_the_limit_of_the_relaxed_parser() {
    assert!(Temperature::in_range("214748364.7".as_bytes()));
    assert!(!Temperature::in_range("214748364.8".as_bytes()));
    assert!(Temperature::in_range("-214748364.7".as_bytes()));
    assert!(!Temperature::in_range("-214748364.8".as_bytes()));
    assert!(!Temperature::in_range("12345678901234567890".as_bytes()));
    assert!(Temperature::in_range("".as_bytes()));
    assert!(Temperature::in_range("no digits".as_bytes()));
}

#[test]
fn display_writes_sign_whole_and_fraction() {
    let cases: [(i32, &str); 12] = [
        (0, "0.0"),
        (1, "0.1"),
        (-1, "-0.1"),
        (9, "0.9"),
        (10, "1.0"),
        (-10, "-1.0"),
        (123, "12.3"),
        (-1003, "-100.3"),
        (1234567890, "123456789.0"),
        (i32::MAX, "214748364.7"),
        (-i32::MAX, "-214748364.7"),
        (i32::MIN, "-214748364.8"),
    ];
    for (tenths, text) in cases {
        assert_eq!(Temperature { tenths }.to_string(), text);
        let mut bytes = vec![b'>'];
        Temperature { tenths }.write_to(&mut bytes);
        assert_eq!(bytes, format!(">{text}").into_bytes());
    }
}

#[test]
fn display_and_strict_parser_round_trip() {
    let mut tenths: i32 = -2500;
    while tenths <= 2500 {
        let t = Temperature { tenths };
        let text = t.to_string();
        assert_eq!(Temperature::parse_strict(text.as_bytes()), Ok(t));
        assert_eq!(Temperature::parse(text.as_bytes()), t);
        tenths += 1;
    }
}

#[test]
fn add_assign_is_exact() {
    let mut t = Temperature { tenths: 123 };
    t.add_assign(Temperature { tenths: -200 });
    assert_eq!(t, Temperature { tenths: -77 });
    t.add_assign(Temperature { tenths: 77 });
    assert_eq!(t, Temperature { tenths: 0 });
    let mut big = Temperature { tenths: i32::MAX - 1 };
    big.add_assign(Temperature { tenths: 1 });
    assert_eq!(big, Temperature { tenths: i32::MAX });
}

#[test]
fn div_rounds_halves_away_from_zero() {
    let cases: [(i32, u32, i32); 21] = [
        (25, 2, 13),
        (-25, 2, -13),
        (24, 2, 12),
        (26, 2, 13),
        (1, 2, 1),
        (-1, 2, -1),
        (1, 3, 0),
        (2, 3, 1),
        (-2, 3, -1),
        (-1, 3, 0),
        (0, 7, 0),
        (7, 1, 7),
        (-7, 1, -7),
        (260, 2, 130),
        (105, 10, 11),
        (-105, 10, -11),
        (104, 10, 10),
        (i32::MAX, 1, i32::MAX),
        (i32::MIN, 1, i32::MIN),
        (i32::MAX, u32::MAX, 0),
        (i32::MIN, u32::MAX, -1),
    ];
    for (tenths, count, mean) in cases {
        assert_eq!(
            Temperature { tenths }.div(count),
            Temperature { tenths: mean }
        );
    }
}

#[test]
fn div_is_the_rounded_float_quotient() {
    let counts: [u32; 9] = [1, 2, 3, 4, 7, 10, 48, 1000, 4000000000];
    let mut tenths: i32 = -1500;
    while tenths <= 1500 {
        for count in counts {
            let expected = ((tenths as f64) / (count as f64)).round() as i32;
            assert_eq!(
                Temperature { tenths }.div(count),
                Temperature { tenths: expected }
            );
        }
        tenths += 1;
    }
    for tenths in [i32::MAX, i32::MIN, i32::MAX - 1, i32::MIN + 1] {
        for count in counts {
            let expected = ((tenths as f64) / (count as f64)).round() as i32;
            assert_eq!(
                Temperature { tenths }.div(count),
                Temperature { tenths: expected }
            );
        }
    }
}

#[test]
fn div_by_zero_gives_the_end_of_the_range() {
    assert_eq!(
        Temperature { tenths: 5 }.div(0),
        Temperature { tenths: i32::MAX }
    );
    assert_eq!(
        Temperature { tenths: -5 }.div(0),
        Temperature { tenths: i32::MIN }
    );
    assert_eq!(Temperature { tenths: 0 }.div(0), Temperature { tenths: 0 });
}

#[test]
fn temperatures_are_ordered_by_their_tenths() {
    assert!(Temperature { tenths: -5 } < Temperature { tenths: 3 });
    assert!(Temperature { tenths: 3 } > Temperature { tenths: 2 });
    assert!(Temperature { tenths: 7 } == Temperature { tenths: 7 });
}
