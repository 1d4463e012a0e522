use massive_csv_core::format::delimiter_name;
use massive_csv_core::format::format_number;
use massive_csv_core::format::parse_row_range;
use massive_csv_core::format::usize_to_string;

#[test]
fn format_number_groups_thousands() {
    assert_eq!(format_number(0), "0");
    assert_eq!(format_number(100), "100");
    assert_eq!(format_number(1000), "1,000");
    assert_eq!(format_number(1234567), "1,234,567");
    assert_eq!(format_number(10_000), "10,000");
}

#[test]
fn usize_to_string_renders_decimal() {
    assert_eq!(usize_to_string(0), "0");
    assert_eq!(usize_to_string(42), "42");
    assert_eq!(usize_to_string(90210), "90210");
}

#[test]
fn delimiter_name_covers_all_candidates() {
    assert_eq!(delimiter_name(b','), "comma");
    assert_eq!(delimiter_name(b'\t'), "tab");
    assert_eq!(delimiter_name(b';'), "semicolon");
    assert_eq!(delimiter_name(b'|'), "pipe");
    assert_eq!(delimiter_name(b'x'), "unknown");
}

#[test]
fn parse_row_range_default_is_first_twenty() {
    assert_eq!(parse_row_range(None, 100), Some((0, 20)));
    assert_eq!(parse_row_range(None, 5), Some((0, 5)));
}

#[test]
fn parse_row_range_accepts_spans_and_single_rows() {
    assert_eq!(parse_row_range(Some("100-200"), 1000), Some((100, 201)));
    assert_eq!(parse_row_range(Some("100"), 1000), Some((100, 101)));
    assert_eq!(parse_row_range(Some(" 3 - 9 "), 1000), Some((3, 10)));
    assert_eq!(parse_row_range(Some("5-7"), 6), Some((5, 6)));
    assert_eq!(parse_row_range(Some("42"), 10), Some((42, 10)));
}

#[test]
fn parse_row_range_rejects_malformed_numbers() {
    assert_eq!(parse_row_range(Some("abc"), 100), None);
    assert_eq!(parse_row_range(Some(""), 100), None);
    assert_eq!(parse_row_range(Some("3-x"), 100), None);
    assert_eq!(parse_row_range(Some("99999999999999999999999"), 100), None);
}
