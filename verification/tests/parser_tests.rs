use massive_csv_core::parser::count_fields;
use massive_csv_core::parser::detect_delimiter;
use massive_csv_core::parser::first_line;
use massive_csv_core::parser::first_n_lines;
use massive_csv_core::parser::parse_headers;
use massive_csv_core::parser::parse_row;
use massive_csv_core::parser::serialize_row;
use massive_csv_core::Delimiter;

#[test]
fn detect_comma() {
    let data = b"a,b,c\n1,2,3\n4,5,6\n";
    assert_eq!(detect_delimiter(data), Delimiter::Comma);
}

#[test]
fn detect_tab() {
    let data = b"a\tb\tc\n1\t2\t3\n4\t5\t6\n";
    assert_eq!(detect_delimiter(data), Delimiter::Tab);
}

#[test]
fn detect_semicolon() {
    let data = b"a;b;c\n1;2;3\n4;5;6\n";
    assert_eq!(detect_delimiter(data), Delimiter::Semicolon);
}

#[test]
fn detect_pipe() {
    let data = b"a|b|c\n1|2|3\n4|5|6\n";
    assert_eq!(detect_delimiter(data), Delimiter::Pipe);
}

#[test]
fn parse_and_serialize_round_trip() {
    let line = r#"hello,"world, ok",test"#;
    let fields = parse_row(line, b',').unwrap();
    assert_eq!(fields, vec!["hello", "world, ok", "test"]);

    let serialized = serialize_row(&fields, b',');
    assert_eq!(serialized, r#"hello,"world, ok",test"#);
}

#[test]
fn parse_headers_works() {
    let data = b"name,age,city\nAlice,30,NYC\n";
    let headers = parse_headers(data, b',').unwrap();
    assert_eq!(headers, vec!["name", "age", "city"]);
}

#[test]
fn empty_data_returns_comma() {
    assert_eq!(detect_delimiter(b""), Delimiter::Comma);
}

#[test]
fn count_fields_ignores_quoted_delimiters() {
    assert_eq!(count_fields(b"a,\"b,c\",d", b','), 3);
    assert_eq!(count_fields(b"a,b,c", b','), 3);
    assert_eq!(count_fields(b"", b','), 1);
}

#[test]
fn first_line_strips_carriage_return() {
    assert_eq!(first_line(b"ab\r\ncd\n"), Some(b"ab".to_vec()));
    assert_eq!(first_line(b""), None);
    assert_eq!(first_line(b"xyz"), Some(b"xyz".to_vec()));
}

#[test]
fn first_n_lines_splits_on_newlines() {
    let lines = first_n_lines(b"a\nb\nc", 2);
    assert_eq!(lines, vec![b"a".to_vec(), b"b".to_vec()]);
    let all = first_n_lines(b"a\nb\nc", 10);
    assert_eq!(all.len(), 3);
}

#[test]
fn serialize_quotes_when_needed() {
    let fields = vec![
        "plain".to_string(),
        "with,comma".to_string(),
        "with\"quote".to_string(),
    ];
    let line = serialize_row(&fields, b',');
    assert_eq!(line, r#"plain,"with,comma","with""quote""#);
    let back = parse_row(&line, b',').unwrap();
    assert_eq!(back, fields);
}

#[test]
fn parse_row_empty_line_has_no_fields() {
    assert_eq!(parse_row("", b',').unwrap(), Vec::<String>::new());
    assert_eq!(parse_row("a,", b',').unwrap(), vec!["a", ""]);
    assert_eq!(parse_row(",", b',').unwrap(), vec!["", ""]);
}

#[test]
fn detect_delimiter_is_stable_under_duplicate_rows() {
    let once = b"a,b\n1,2\n".to_vec();
    let twice = b"a,b\n1,2\n1,2\n".to_vec();
    assert_eq!(detect_delimiter(&once), detect_delimiter(&twice));

    let tab_once = b"a\tb\n1\t2\n".to_vec();
    let tab_twice = b"a\tb\n1\t2\n1\t2\n".to_vec();
    assert_eq!(detect_delimiter(&tab_once), detect_delimiter(&tab_twice));
    assert_eq!(detect_delimiter(&tab_once), Delimiter::Tab);
}
