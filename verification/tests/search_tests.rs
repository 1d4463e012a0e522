use massive_csv_core::search;
use massive_csv_core::CsvReader;
use massive_csv_core::MassiveCsvError;
use massive_csv_core::SearchOptions;

fn open_for_search(content: &str) -> CsvReader {
    CsvReader::open(content.as_bytes().to_vec(), String::from("search.csv")).unwrap()
}

#[test]
fn search_all_columns() {
    let reader = open_for_search("name,city\nAlice,NYC\nBob,LA\nCarol,NYC\n");

    let results = search(&reader, "NYC", &SearchOptions::default()).unwrap();
    assert_eq!(results.len(), 2);
    assert_eq!(results[0].row_num, 0);
    assert_eq!(results[1].row_num, 2);
}

#[test]
fn search_specific_column() {
    let reader = open_for_search("name,city\nAlice,NYC\nNYC,LA\n");

    let opts = SearchOptions {
        column: Some("city".to_string()),
        ..Default::default()
    };
    let results = search(&reader, "NYC", &opts).unwrap();
    assert_eq!(results.len(), 1);
    assert_eq!(results[0].row_num, 0);
}

#[test]
fn search_case_insensitive() {
    let reader = open_for_search("name\nAlice\nBOB\ncarol\n");

    let opts = SearchOptions {
        case_insensitive: true,
        ..Default::default()
    };
    let results = search(&reader, "bob", &opts).unwrap();
    assert_eq!(results.len(), 1);
    assert_eq!(results[0].fields, vec!["BOB"]);
}

#[test]
fn search_max_results() {
    let reader = open_for_search("v\na\na\na\na\na\n");

    let opts = SearchOptions {
        max_results: 2,
        ..Default::default()
    };
    let results = search(&reader, "a", &opts).unwrap();
    assert_eq!(results.len(), 2);
}

#[test]
fn search_column_not_found() {
    let reader = open_for_search("name\nAlice\n");

    let opts = SearchOptions {
        column: Some("nonexistent".to_string()),
        ..Default::default()
    };
    let result = search(&reader, "x", &opts);
    assert!(result.is_err());
    assert!(matches!(result, Err(MassiveCsvError::ColumnNotFound(_))));
}

#[test]
fn search_results_are_ordered_and_capped_from_the_front() {
    let reader = open_for_search("v\nhit\nmiss\nhit\nhit\nmiss\nhit\n");
    let opts = SearchOptions {
        max_results: 2,
        ..Default::default()
    };
    let results = search(&reader, "hit", &opts).unwrap();
    assert_eq!(results.len(), 2);
    assert_eq!(results[0].row_num, 0);
    assert_eq!(results[1].row_num, 2);
}

#[test]
fn search_empty_query_matches_every_row() {
    let reader = open_for_search("v\na\nb\n");
    let results = search(&reader, "", &SearchOptions::default()).unwrap();
    assert_eq!(results.len(), 2);
}

#[test]
fn search_column_restriction_filters_raw_hits() {
    // The raw pre-filter hits both rows; only the restricted column
    // decides membership.
    let reader = open_for_search("a,b\nkey,other\nother,key\n");
    let opts = SearchOptions {
        column: Some("a".to_string()),
        ..Default::default()
    };
    let results = search(&reader, "key", &opts).unwrap();
    assert_eq!(results.len(), 1);
    assert_eq!(results[0].row_num, 0);
    assert_eq!(results[0].fields, vec!["key", "other"]);
}

#[test]
fn search_skips_undecodable_rows() {
    let mut data = b"h\nkeep\n".to_vec();
    data.extend_from_slice(&[0xff, b'\n']);
    data.extend_from_slice(b"keep\n");
    let reader = CsvReader::open(data, String::from("bad.csv")).unwrap();
    assert_eq!(reader.row_count(), 3);
    let results = search(&reader, "keep", &SearchOptions::default()).unwrap();
    assert_eq!(results.len(), 2);
    assert_eq!(results[0].row_num, 0);
    assert_eq!(results[1].row_num, 2);
}
