use jiragen::{build_document, parse_header, Document, RowError};
use serde_json::Value;

fn to_json(document: &Document) -> Value {
    match document {
        Document::Scalar(text) => Value::String(text.clone()),
        Document::Mapping(entries) => {
            let mut map = serde_json::Map::new();
            for entry in entries {
                assert!(map.insert(entry.key.clone(), to_json(&entry.value)).is_none());
            }
            Value::Object(map)
        }
        Document::Sequence(items) => Value::Array(items.iter().map(to_json).collect()),
    }
}

fn fold(header: &[&str], row: &[&str]) -> Result<Document, RowError> {
    let header = parse_header(&header.to_vec()).expect("a header");
    let row: Vec<String> = row.iter().map(|cell| cell.to_string()).collect();
    build_document(&header, &row)
}

fn folds_to(header: &[&str], row: &[&str], expected: &str) {
    let document = fold(header, row).expect("a document");
    let expected: Value = serde_json::from_str(expected).expect("json");
    assert_eq!(to_json(&document), expected);
}

#[test]
fn a_plain_field() {
    folds_to(&["summary"], &["A Test Summary"], r#"{"summary": "A Test Summary"}"#);
}

#[test]
fn an_array_of_texts() {
    folds_to(&["labels[]"], &["a-label"], r#"{"labels": ["a-label"]}"#);
}

#[test]
fn a_nested_field() {
    folds_to(&["issuetype.id"], &["12345"], r#"{"issuetype": {"id": "12345"}}"#);
}

#[test]
fn an_array_of_objects() {
    folds_to(&["components[].id"], &["A Component"], r#"{"components": [{"id": "A Component"}]}"#);
}

#[test]
fn an_array_inside_an_object() {
    folds_to(
        &["watcher.watchers[].accountId"],
        &["abcc281-qk3j8d8fj"],
        r#"{"watcher": {"watchers": [{"accountId": "abcc281-qk3j8d8fj"}]}}"#,
    );
}

#[test]
fn two_fields_of_one_object() {
    folds_to(
        &["timetracking.originalEstimate", "timetracking.remainingEstimate"],
        &["10", "5"],
        r#"{"timetracking": {"originalEstimate": "10", "remainingEstimate": "5"}}"#,
    );
}

#[test]
fn a_repeated_path_fills_the_next_element() {
    folds_to(
        &["fixVersions[].id", "fixVersions[].id"],
        &["10000", "10001"],
        r#"{"fixVersions": [{"id": "10000"}, {"id": "10001"}]}"#,
    );
}

#[test]
fn a_repeated_path_counts_from_its_own_first_column() {
    folds_to(
        &["fixVersions[].id", "summary", "fixVersions[].id", "fixVersions[].id"],
        &["1", "s", "2", "3"],
        r#"{"fixVersions": [{"id": "1"}, {"id": "2"}, {"id": "3"}], "summary": "s"}"#,
    );
}

#[test]
fn different_paths_share_an_element() {
    folds_to(
        &["watchers[].id", "watchers[].name"],
        &["7", "Ada"],
        r#"{"watchers": [{"id": "7", "name": "Ada"}]}"#,
    );
}

#[test]
fn repeated_pairs_fill_elements_side_by_side() {
    folds_to(
        &["c[].id", "c[].name", "c[].id", "c[].name"],
        &["1", "one", "2", "two"],
        r#"{"c": [{"id": "1", "name": "one"}, {"id": "2", "name": "two"}]}"#,
    );
}

#[test]
fn repeated_labels_are_listed() {
    folds_to(&["labels[]", "labels[]"], &["a", "b"], r#"{"labels": ["a", "b"]}"#);
}

#[test]
fn a_repeated_plain_path_keeps_the_last_cell() {
    folds_to(&["summary", "summary"], &["first", "second"], r#"{"summary": "second"}"#);
}

#[test]
fn an_empty_cell_is_an_empty_text() {
    folds_to(
        &["summary", "assignee.name"],
        &["", ""],
        r#"{"summary": "", "assignee": {"name": ""}}"#,
    );
}

#[test]
fn cells_are_not_trimmed_or_read_as_numbers() {
    folds_to(&["a", "b"], &[" 007 ", "true"], r#"{"a": " 007 ", "b": "true"}"#);
}

#[test]
fn an_empty_header_folds_the_empty_row() {
    folds_to(&[], &[], r#"{}"#);
}

#[test]
fn a_template_row() {
    folds_to(
        &["project.key", "summary", "description", "issuetype.id", "labels[]", "assignee.name"],
        &["PRJ", "Fix it", "It is broken", "10001", "bug", "ada"],
        r#"{
            "project": {"key": "PRJ"},
            "summary": "Fix it",
            "description": "It is broken",
            "issuetype": {"id": "10001"},
            "labels": ["bug"],
            "assignee": {"name": "ada"}
        }"#,
    );
}

#[test]
fn a_short_row_has_no_document() {
    assert_eq!(
        fold(&["summary", "labels[]"], &["only"]),
        Err(RowError::Shape { expected: 2, found: 1 })
    );
    assert_eq!(fold(&["summary"], &[]), Err(RowError::Shape { expected: 1, found: 0 }));
}

#[test]
fn a_long_row_has_no_document() {
    assert_eq!(
        fold(&["summary"], &["one", "two"]),
        Err(RowError::Shape { expected: 1, found: 2 })
    );
}

#[test]
fn an_array_over_a_text_is_a_conflict() {
    assert_eq!(fold(&["a", "a[]"], &["x", "y"]), Err(RowError::Conflict { column: 1 }));
    assert_eq!(fold(&["a", "a[].b"], &["x", "y"]), Err(RowError::Conflict { column: 1 }));
}

#[test]
fn a_text_over_an_array_is_a_conflict() {
    assert_eq!(fold(&["a[]", "a"], &["x", "y"]), Err(RowError::Conflict { column: 1 }));
}

#[test]
fn an_object_over_a_text_is_a_conflict() {
    assert_eq!(fold(&["a", "a.b"], &["x", "y"]), Err(RowError::Conflict { column: 1 }));
    assert_eq!(fold(&["a.b", "a"], &["x", "y"]), Err(RowError::Conflict { column: 1 }));
}

#[test]
fn an_object_over_an_array_is_a_conflict() {
    assert_eq!(fold(&["a[].b", "a.b"], &["x", "y"]), Err(RowError::Conflict { column: 1 }));
    assert_eq!(fold(&["a.b", "a[].b"], &["x", "y"]), Err(RowError::Conflict { column: 1 }));
}

#[test]
fn an_element_is_of_one_kind() {
    assert_eq!(fold(&["a[]", "a[].b"], &["x", "y"]), Err(RowError::Conflict { column: 1 }));
    assert_eq!(fold(&["a[].b", "a[]"], &["x", "y"]), Err(RowError::Conflict { column: 1 }));
}

#[test]
fn the_first_conflict_is_reported() {
    assert_eq!(
        fold(&["a", "b", "a.x", "b.y"], &["1", "2", "3", "4"]),
        Err(RowError::Conflict { column: 2 })
    );
}

#[test]
fn a_nested_array_holds_the_first_occurrence_only() {
    folds_to(&["a[].b[].c"], &["x"], r#"{"a": [{"b": [{"c": "x"}]}]}"#);
    assert_eq!(
        fold(&["a[].b[].c", "a[].b[].c"], &["x", "y"]),
        Err(RowError::Conflict { column: 1 })
    );
}
