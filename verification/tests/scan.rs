use one_brc::next_record;
use one_brc::IngestError;

#[test]
fn scanner_cuts_key_and_value() {
    let data = b"Hamburg;12.0\nPalermo;-1.5\n";
    let (key, numeric, next) = next_record(data, 0).unwrap();
    assert_eq!(key, b"Hamburg");
    assert_eq!(numeric, b"12.0");
    assert_eq!(next, 13);
    let (key, numeric, next) = next_record(data, next).unwrap();
    assert_eq!(key, b"Palermo");
    assert_eq!(numeric, b"-1.5");
    assert_eq!(next, data.len());
}

#[test]
fn scanner_takes_the_first_delimiter_of_each_kind() {
    let data = b"a;b;c\nd\n";
    let (key, numeric, next) = next_record(data, 0).unwrap();
    assert_eq!(key, b"a");
    assert_eq!(numeric, b"b;c");
    assert_eq!(next, 6);
    assert_eq!(next_record(data, 6), Err(IngestError::MissingFieldDelimiter));
}

#[test]
fn scanner_keeps_views_into_the_input() {
    let data = b"ab;1.0\n";
    let (key, numeric, _) = next_record(data, 0).unwrap();
    assert_eq!(key.as_ptr(), data.as_ptr());
    assert_eq!(numeric.as_ptr(), data[3..].as_ptr());
}

#[test]
fn scanner_accepts_empty_fields() {
    assert_eq!(next_record(b";\n", 0), Ok((&b""[..], &b""[..], 2)));
}

#[test]
fn scanner_lets_a_key_run_over_a_line_feed() {
    let (key, numeric, next) = next_record(b"no delimiter\nb;2.0\n", 0).unwrap();
    assert_eq!(key, b"no delimiter\nb");
    assert_eq!(numeric, b"2.0");
    assert_eq!(next, 19);
}

#[test]
fn scanner_reports_a_missing_field_delimiter() {
    assert_eq!(next_record(b"Hamburg", 0), Err(IngestError::MissingFieldDelimiter));
    assert_eq!(next_record(b"Hamburg\n", 0), Err(IngestError::MissingFieldDelimiter));
    assert_eq!(next_record(b"a;1.0\nrest", 6), Err(IngestError::MissingFieldDelimiter));
}

#[test]
fn scanner_reports_a_missing_line_delimiter() {
    assert_eq!(next_record(b"Hamburg;12.0", 0), Err(IngestError::MissingLineDelimiter));
    assert_eq!(next_record(b"Hamburg;", 0), Err(IngestError::MissingLineDelimiter));
    assert_eq!(next_record(b"a;1.0\nb;2.0", 6), Err(IngestError::MissingLineDelimiter));
}
