use massive_csv_core::CsvEditor;
use massive_csv_core::MassiveCsvError;

fn open_editor(content: &str) -> CsvEditor {
    CsvEditor::open(content.as_bytes().to_vec(), String::from("edit.csv")).unwrap()
}

#[test]
fn edit_and_save() {
    let mut editor = open_editor("name,age\nAlice,30\nBob,25\n");
    assert_eq!(editor.edit_count(), 0);

    editor.set_cell(0, 1, "31".to_string()).unwrap();
    assert_eq!(editor.edit_count(), 1);
    assert!(editor.has_changes());

    editor.save().unwrap();
    assert_eq!(editor.edit_count(), 0);

    // Verify the save
    let row = editor.get_row(0).unwrap();
    assert_eq!(row, vec!["Alice", "31"]);

    // Original row should be unchanged
    let row = editor.get_row(1).unwrap();
    assert_eq!(row, vec!["Bob", "25"]);
}

#[test]
fn set_row_and_revert() {
    let mut editor = open_editor("a,b\n1,2\n3,4\n");

    editor
        .set_row(0, vec!["x".to_string(), "y".to_string()])
        .unwrap();
    assert_eq!(editor.get_row(0).unwrap(), vec!["x", "y"]);

    editor.revert_row(0);
    assert_eq!(editor.get_row(0).unwrap(), vec!["1", "2"]);
    assert!(!editor.has_changes());
}

#[test]
fn out_of_range_edit() {
    let mut editor = open_editor("h\n1\n");
    let result = editor.set_row(99, vec!["x".to_string()]);
    assert!(result.is_err());
}

#[test]
fn save_no_changes_is_noop() {
    let mut editor = open_editor("h\n1\n");
    editor.save().unwrap(); // should be a no-op
}

#[test]
fn multiple_edits_save() {
    let mut editor = open_editor("x\na\nb\nc\nd\n");

    editor.set_row(0, vec!["A".to_string()]).unwrap();
    editor.set_row(2, vec!["C".to_string()]).unwrap();
    editor.set_row(3, vec!["D".to_string()]).unwrap();

    editor.save().unwrap();

    assert_eq!(editor.get_row(0).unwrap(), vec!["A"]);
    assert_eq!(editor.get_row(1).unwrap(), vec!["b"]);
    assert_eq!(editor.get_row(2).unwrap(), vec!["C"]);
    assert_eq!(editor.get_row(3).unwrap(), vec!["D"]);
}

#[test]
fn set_cell_reports_missing_column_index() {
    let mut editor = open_editor("a,b\n1,2\n");
    match editor.set_cell(0, 3, "x".to_string()) {
        Err(MassiveCsvError::ColumnNotFound(msg)) => assert_eq!(msg, "index 3"),
        other => panic!("unexpected result: {:?}", other),
    }
    assert!(!editor.has_changes());
}

#[test]
fn render_save_writes_edits_and_copies_the_rest() {
    let mut editor = open_editor("a,b\n1,2\n3,4\n");
    editor.set_cell(0, 0, "X".to_string()).unwrap();
    let bytes = editor.render_save().unwrap();
    assert_eq!(bytes, b"a,b\nX,2\n3,4\n".to_vec());
    // Rendering alone changes nothing.
    assert!(editor.has_changes());
    assert_eq!(editor.get_row(0).unwrap(), vec!["X", "2"]);
}

#[test]
fn save_quotes_edited_fields_that_need_it() {
    let mut editor = open_editor("a,b\n1,2\n");
    editor.set_cell(0, 0, "x,y".to_string()).unwrap();
    let bytes = editor.render_save().unwrap();
    assert_eq!(bytes, b"a,b\n\"x,y\",2\n".to_vec());
    editor.save().unwrap();
    assert_eq!(editor.get_row(0).unwrap(), vec!["x,y", "2"]);
}

#[test]
fn save_preserves_row_count() {
    let mut editor = open_editor("h\na\nb\nc\n");
    editor.set_row(1, vec!["B".to_string()]).unwrap();
    editor.save().unwrap();
    assert_eq!(editor.reader().row_count(), 3);
}

#[test]
fn save_of_lone_empty_field_parses_back_empty() {
    // A row edited to a single empty field serializes to an empty line,
    // which parses back as no fields at all.
    let mut editor = open_editor("h\na\nb\n");
    editor.set_row(0, vec!["".to_string()]).unwrap();
    editor.save().unwrap();
    assert_eq!(editor.reader().row_count(), 2);
    assert_eq!(editor.get_row(0).unwrap(), Vec::<String>::new());
    assert_eq!(editor.get_row(1).unwrap(), vec!["b"]);
}

#[test]
fn save_normalizes_bare_carriage_return_tail() {
    // An unedited row whose text ends in a bare carriage return loses
    // it to the rewritten line ending.
    let mut editor = open_editor("h\nabc\r\r\nx\n");
    assert_eq!(
        editor.reader().get_row_raw(0).unwrap(),
        "abc\r"
    );
    editor.set_row(1, vec!["y".to_string()]).unwrap();
    editor.save().unwrap();
    assert_eq!(editor.reader().get_row_raw(0).unwrap(), "abc");
    assert_eq!(editor.get_row(1).unwrap(), vec!["y"]);
}

#[test]
fn save_fails_on_undecodable_row_and_keeps_edits() {
    let mut data = b"h\nok\n".to_vec();
    data.extend_from_slice(&[0xff, b'\n']);
    let mut editor = CsvEditor::open(data, String::from("bad.csv")).unwrap();
    editor.set_row(0, vec!["edited".to_string()]).unwrap();
    let result = editor.save();
    assert!(matches!(result, Err(MassiveCsvError::InvalidUtf8(_))));
    // The failed save leaves the editor untouched.
    assert!(editor.has_changes());
    assert_eq!(editor.edit_count(), 1);
    assert_eq!(editor.get_row(0).unwrap(), vec!["edited"]);
}

#[test]
fn revert_row_is_silent_when_unedited() {
    let mut editor = open_editor("h\n1\n");
    editor.revert_row(0);
    editor.revert_row(99);
    assert!(!editor.has_changes());
    assert_eq!(editor.get_row(0).unwrap(), vec!["1"]);
}
