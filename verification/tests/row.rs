use tempstats::row::RecordError;
use tempstats::row::Row;
use tempstats::temperature::ParseError;
use tempstats::temperature::Temperature;
use tempstats::text::cut_line;
use tempstats::text::position;

fn relaxed(line: &str) -> Option<(Vec<u8>, i32)> {
    Row::parse(line.as_bytes()).map(|row| (row.city.to_vec(), row.temp.tenths))
}

fn strict(line: &str) -> Result<(Vec<u8>, i32), RecordError> {
    Row::parse_strict(line.as_bytes()).map(|row| (row.city.to_vec(), row.temp.tenths))
}

fn named(name: &str, tenths: i32) -> (Vec<u8>, i32) {
    (name.as_bytes().to_vec(), tenths)
}

#[test]
fn position_finds_the_first_occurrence() {
    assert_eq!(position("a;b;c".as_bytes(), b';'), Some(1));
    assert_eq!(position(";".as_bytes(), b';'), Some(0));
    assert_eq!(position("abc".as_bytes(), b';'), None);
    assert_eq!(position("".as_bytes(), b';'), None);
    assert_eq!(position("abc;".as_bytes(), b';'), Some(3));
}

#[test]
fn cut_line_cuts_at_the_first_newline() {
    assert_eq!(
        cut_line("a;1.0\nb;2.0\n".as_bytes()),
        ("a;1.0".as_bytes(), Some("b;2.0\n".as_bytes()))
    );
    assert_eq!(
        cut_line("b;2.0\n".as_bytes()),
        ("b;2.0".as_bytes(), Some("".as_bytes()))
    );
    assert_eq!(cut_line("".as_bytes()), ("".as_bytes(), None));
    assert_eq!(cut_line("last".as_bytes()), ("last".as_bytes(), None));
    assert_eq!(
        cut_line("\n\nx".as_bytes()),
        ("".as_bytes(), Some("\nx".as_bytes()))
    );
}

#[test]
fn a_buffer_has_one_line_more_than_newlines() {
    for (data, count) in [("", 1), ("a", 1), ("a\n", 2), ("\n", 2), ("a\nb", 2), ("a\n\nb\n", 4)] {
        let mut rest = data.as_bytes();
        let mut lines = 1;
        while let (_, Some(next)) = cut_line(rest) {
            rest = next;
            lines += 1;
        }
        assert_eq!(lines, count);
    }
}

#[test]
fn relaxed_row_splits_at_the_first_separator() {
    assert_eq!(relaxed("Hamburg;12.0"), Some(named("Hamburg", 120)));
    assert_eq!(relaxed("Berlin;-3.5"), Some(named("Berlin", -35)));
    assert_eq!(relaxed("X;0.0"), Some(named("X", 0)));
    assert_eq!(relaxed(";1.5"), Some(named("", 15)));
    assert_eq!(relaxed("St. John's;7.1"), Some(named("St. John's", 71)));
    assert_eq!(relaxed("a;b;1.2"), Some(named("a", 12)));
    assert_eq!(relaxed("Zürich;-0.4"), Some(named("Zürich", -4)));
}

#[test]
fn relaxed_row_reads_digits_and_sign_only_behind_the_separator() {
    assert_eq!(relaxed("Route-66;4.2"), Some(named("Route-66", 42)));
    assert_eq!(relaxed("Area51;10.0"), Some(named("Area51", 100)));
}

#[test]
fn relaxed_row_without_separator_is_none() {
    assert_eq!(relaxed(""), None);
    assert_eq!(relaxed("Hamburg"), None);
    assert_eq!(relaxed("12.0"), None);
}

#[test]
fn relaxed_row_does_not_validate() {
    assert_eq!(relaxed("Paris;abc"), Some(named("Paris", 0)));
    assert_eq!(relaxed("Paris;"), Some(named("Paris", 0)));
    assert_eq!(relaxed("Paris;1.23"), Some(named("Paris", 123)));
}

#[test]
fn row_in_range_is_the_limit_of_the_relaxed_row() {
    assert!(Row::in_range("Paris;214748364.7".as_bytes()));
    assert!(!Row::in_range("Paris;214748364.8".as_bytes()));
    // digits of the name do not count
    assert!(Row::in_range("99999999999999999999;1.0".as_bytes()));
    assert!(Row::in_range("99999999999999999999".as_bytes()));
    assert!(Row::in_range("".as_bytes()));
}

#[test]
fn strict_row_reads_well_formed_records() {
    assert_eq!(strict("Hamburg;12.0"), Ok(named("Hamburg", 120)));
    assert_eq!(strict("Berlin;-3.5"), Ok(named("Berlin", -35)));
    assert_eq!(strict(";1.5"), Ok(named("", 15)));
    assert_eq!(strict("Route-66;4.2"), Ok(named("Route-66", 42)));
}

#[test]
fn strict_row_names_each_error() {
    assert_eq!(strict(""), Err(RecordError::MissingSeparator));
    assert_eq!(strict("Hamburg"), Err(RecordError::MissingSeparator));
    assert_eq!(
        strict("Paris;abc"),
        Err(RecordError::Number(ParseError::InvalidCharacter))
    );
    assert_eq!(
        strict("Paris;"),
        Err(RecordError::Number(ParseError::TruncatedInput))
    );
    assert_eq!(
        strict("Paris;12"),
        Err(RecordError::Number(ParseError::TruncatedInput))
    );
    assert_eq!(
        strict("Paris;1.23"),
        Err(RecordError::Number(ParseError::TrailingCharacters))
    );
    assert_eq!(
        strict("a;b;1.2"),
        Err(RecordError::Number(ParseError::InvalidCharacter))
    );
    assert_eq!(
        strict("Paris;999999999999.9"),
        Err(RecordError::Number(ParseError::OutOfRange))
    );
}

#[test]
fn strict_and_relaxed_row_agree_on_records() {
    let lines = [
        "Hamburg;12.0",
        "Berlin;-3.5",
        "X;0.0",
        ";99.9",
        "Abha;-0.1",
        "Route-66;4.2",
    ];
    for line in lines {
        assert!(Row::in_range(line.as_bytes()));
        assert_eq!(Ok(relaxed(line).unwrap()), strict(line));
    }
}

#[test]
fn row_keeps_name_and_temperature() {
    let row = Row {
        city: "Oslo".as_bytes(),
        temp: Temperature { tenths: -70 },
    };
    assert_eq!(row.city, "Oslo".as_bytes());
    assert_eq!(row.temp, Temperature { tenths: -70 });
}
