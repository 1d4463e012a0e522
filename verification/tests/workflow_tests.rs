use massive_csv_core::search;
use massive_csv_core::CsvEditor;
use massive_csv_core::CsvReader;
use massive_csv_core::SearchOptions;

fn create_test_csv(rows: usize) -> String {
    let mut content = String::from("id,name,status,value\n");
    for i in 0..rows {
        let status = if i % 3 == 0 {
            "active"
        } else if i % 3 == 1 {
            "inactive"
        } else {
            "pending"
        };
        content.push_str(&format!("{},user_{},{},{:.2}\n", i, i, status, i as f64 * 1.5));
    }
    content
}

#[test]
fn full_workflow_open_search_edit_save_verify() {
    let content = create_test_csv(10_000);

    // 1. Open and verify basic properties
    let reader = CsvReader::open(content.as_bytes().to_vec(), String::from("big.csv")).unwrap();
    assert_eq!(reader.row_count(), 10_000);
    assert_eq!(
        reader.headers(),
        &vec![
            "id".to_string(),
            "name".to_string(),
            "status".to_string(),
            "value".to_string()
        ]
    );
    assert_eq!(reader.delimiter(), b',');

    // 2. Read specific rows
    let first_row = reader.get_row(0).unwrap();
    assert_eq!(first_row[0], "0");
    assert_eq!(first_row[1], "user_0");
    assert_eq!(first_row[2], "active");

    let last_row = reader.get_row(9999).unwrap();
    assert_eq!(last_row[0], "9999");

    // 3. Read a range of rows
    let range = reader.get_rows(100, 105).unwrap();
    assert_eq!(range.len(), 5);
    assert_eq!(range[0][0], "100");
    assert_eq!(range[4][0], "104");

    // 4. Search across all columns
    let results = search(&reader, "user_500", &SearchOptions::default()).unwrap();
    // Should match row 500, and possibly user_5000-5009 (contains "user_500")
    assert!(results.iter().any(|r| r.row_num == 500));

    // 5. Search in specific column
    let opts = SearchOptions {
        column: Some("status".to_string()),
        ..Default::default()
    };
    let active_results = search(&reader, "active", &opts).unwrap();
    // Every 3rd row is "active" (but "inactive" also contains "active")
    assert!(!active_results.is_empty());

    // 6. Case-insensitive search
    let opts = SearchOptions {
        case_insensitive: true,
        column: Some("status".to_string()),
        ..Default::default()
    };
    let results = search(&reader, "ACTIVE", &opts).unwrap();
    assert!(!results.is_empty());

    // 7. Search with max_results
    let opts = SearchOptions {
        max_results: 5,
        ..Default::default()
    };
    let results = search(&reader, "user_", &opts).unwrap();
    assert_eq!(results.len(), 5);

    // 8. Edit and save
    drop(reader);

    let mut editor =
        CsvEditor::open(content.as_bytes().to_vec(), String::from("big.csv")).unwrap();

    // Edit a single cell
    editor.set_cell(0, 2, "completed".to_string()).unwrap();

    // Edit an entire row
    editor
        .set_row(
            1,
            vec![
                "1".to_string(),
                "modified_user".to_string(),
                "archived".to_string(),
                "999.99".to_string(),
            ],
        )
        .unwrap();

    assert_eq!(editor.edit_count(), 2);
    assert!(editor.has_changes());

    // Verify in-memory edits before save
    let row0 = editor.get_row(0).unwrap();
    assert_eq!(row0[2], "completed");

    let row1 = editor.get_row(1).unwrap();
    assert_eq!(row1[1], "modified_user");

    // Unedited row should still be original
    let row2 = editor.get_row(2).unwrap();
    assert_eq!(row2[1], "user_2");

    // 9. Save
    editor.save().unwrap();
    assert_eq!(editor.edit_count(), 0);
    assert!(!editor.has_changes());

    // 10. Verify saved data by re-reading
    let row0 = editor.get_row(0).unwrap();
    assert_eq!(row0[2], "completed");

    let row1 = editor.get_row(1).unwrap();
    assert_eq!(row1[1], "modified_user");
    assert_eq!(row1[3], "999.99");

    // Unedited rows preserved
    let row2 = editor.get_row(2).unwrap();
    assert_eq!(row2[1], "user_2");

    // Row count unchanged
    assert_eq!(editor.reader().row_count(), 10_000);
}

#[test]
fn revert_workflow() {
    let content = create_test_csv(100);
    let mut editor =
        CsvEditor::open(content.as_bytes().to_vec(), String::from("r.csv")).unwrap();

    let original = editor.get_row(0).unwrap();

    editor.set_cell(0, 1, "changed".to_string()).unwrap();
    assert_eq!(editor.get_row(0).unwrap()[1], "changed");

    editor.revert_row(0);
    assert_eq!(editor.get_row(0).unwrap(), original);
    assert!(!editor.has_changes());
}

#[test]
fn revert_all_workflow() {
    let content = create_test_csv(100);
    let mut editor =
        CsvEditor::open(content.as_bytes().to_vec(), String::from("r.csv")).unwrap();

    editor.set_cell(0, 1, "a".to_string()).unwrap();
    editor.set_cell(1, 1, "b".to_string()).unwrap();
    editor.set_cell(2, 1, "c".to_string()).unwrap();
    assert_eq!(editor.edit_count(), 3);

    editor.revert_all();
    assert_eq!(editor.edit_count(), 0);
    assert!(!editor.has_changes());
}

#[test]
fn delimiter_detection() {
    // Tab-separated
    let content = "a\tb\tc\n1\t2\t3\n4\t5\t6\n";
    let reader = CsvReader::open(content.as_bytes().to_vec(), String::from("t.tsv")).unwrap();
    assert_eq!(reader.delimiter(), b'\t');
    assert_eq!(
        reader.headers(),
        &vec!["a".to_string(), "b".to_string(), "c".to_string()]
    );
    assert_eq!(reader.get_row(0).unwrap(), vec!["1", "2", "3"]);
}

#[test]
fn quoted_fields() {
    let content = "name,description,value\ntest,\"hello, world\",42\n\"quoted name\",simple,99\n";
    let reader = CsvReader::open(content.as_bytes().to_vec(), String::from("q.csv")).unwrap();
    assert_eq!(reader.row_count(), 2);

    let row0 = reader.get_row(0).unwrap();
    assert_eq!(row0[0], "test");
    assert_eq!(row0[1], "hello, world");
    assert_eq!(row0[2], "42");

    let row1 = reader.get_row(1).unwrap();
    assert_eq!(row1[0], "quoted name");
}
