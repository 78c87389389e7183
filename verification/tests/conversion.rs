use csv::StringRecord;
use jiragen::{
    convert_rows, csv_to_json, parse_header, record_row, Conversion, Document, Entry,
    PathSyntaxError, RowError, SkippedRow,
};

fn text(value: &str) -> Document {
    Document::Scalar(value.to_string())
}

fn mapping(entries: Vec<(&str, Document)>) -> Document {
    Document::Mapping(
        entries.into_iter().map(|(key, value)| Entry { key: key.to_string(), value }).collect(),
    )
}

fn summary(value: &str) -> Document {
    mapping(vec![("summary", text(value))])
}

fn rows(rows: &[&[&str]]) -> Vec<Vec<String>> {
    rows.iter().map(|row| row.iter().map(|cell| cell.to_string()).collect()).collect()
}

#[test]
fn every_row_gives_a_document() {
    let header = parse_header(&vec!["summary"]).expect("a header");
    let conversion = convert_rows(&header, &rows(&[&["one"], &["two"], &["three"]]));
    assert_eq!(
        conversion,
        Conversion {
            documents: vec![summary("one"), summary("two"), summary("three")],
            skipped: vec![],
        }
    );
}

#[test]
fn a_short_row_is_skipped() {
    let header = parse_header(&vec!["summary", "labels[]"]).expect("a header");
    let conversion = convert_rows(&header, &rows(&[&["one", "a"], &["two"], &["three", "c"]]));
    assert_eq!(conversion.documents.len(), 2);
    assert_eq!(
        conversion.skipped,
        vec![SkippedRow { row: 1, reason: RowError::Shape { expected: 2, found: 1 } }]
    );
}

#[test]
fn the_documents_keep_the_order_of_the_rows() {
    let header = parse_header(&vec!["summary"]).expect("a header");
    let conversion = convert_rows(
        &header,
        &rows(&[&["b"], &[], &["a"], &["x", "y"], &["c"], &["a"]]),
    );
    assert_eq!(
        conversion.documents,
        vec![summary("b"), summary("a"), summary("c"), summary("a")]
    );
    assert_eq!(
        conversion.skipped,
        vec![
            SkippedRow { row: 1, reason: RowError::Shape { expected: 1, found: 0 } },
            SkippedRow { row: 3, reason: RowError::Shape { expected: 1, found: 2 } },
        ]
    );
}

#[test]
fn a_conflicting_row_is_skipped() {
    let header = parse_header(&vec!["a", "a.b"]).expect("a header");
    let conversion = convert_rows(&header, &rows(&[&["x", "y"]]));
    assert_eq!(
        conversion,
        Conversion {
            documents: vec![],
            skipped: vec![SkippedRow { row: 0, reason: RowError::Conflict { column: 1 } }],
        }
    );
}

#[test]
fn the_occurrence_count_starts_anew_in_each_row() {
    let header = parse_header(&vec!["v[].id", "v[].id"]).expect("a header");
    let conversion = convert_rows(&header, &rows(&[&["1", "2"], &["3", "4"]]));
    let versions = |first: &str, second: &str| {
        mapping(vec![(
            "v",
            Document::Sequence(vec![
                mapping(vec![("id", text(first))]),
                mapping(vec![("id", text(second))]),
            ]),
        )])
    };
    assert_eq!(conversion.documents, vec![versions("1", "2"), versions("3", "4")]);
}

#[test]
fn no_rows_give_no_documents() {
    let header = parse_header(&vec!["summary"]).expect("a header");
    assert_eq!(
        convert_rows(&header, &vec![]),
        Conversion { documents: vec![], skipped: vec![] }
    );
}

#[test]
fn records_are_read_field_by_field() {
    let converted = csv_to_json(
        vec!["summary", "issuetype.id"],
        vec![
            StringRecord::from(vec!["A Test Summary", "12345"]),
            StringRecord::from(vec!["Another", ""]),
        ],
    )
    .expect("a conversion");
    assert_eq!(
        converted.documents,
        vec![
            mapping(vec![
                ("summary", text("A Test Summary")),
                ("issuetype", mapping(vec![("id", text("12345"))])),
            ]),
            mapping(vec![
                ("summary", text("Another")),
                ("issuetype", mapping(vec![("id", text(""))])),
            ]),
        ]
    );
    assert_eq!(converted.skipped, vec![]);
}

#[test]
fn a_record_of_another_length_is_skipped() {
    let converted = csv_to_json(
        vec!["summary", "labels[]"],
        vec![
            StringRecord::from(vec!["one"]),
            StringRecord::from(vec!["two", "b"]),
            StringRecord::new(),
        ],
    )
    .expect("a conversion");
    assert_eq!(
        converted.documents,
        vec![mapping(vec![
            ("summary", text("two")),
            ("labels", Document::Sequence(vec![text("b")])),
        ])]
    );
    assert_eq!(
        converted.skipped,
        vec![
            SkippedRow { row: 0, reason: RowError::Shape { expected: 2, found: 1 } },
            SkippedRow { row: 2, reason: RowError::Shape { expected: 2, found: 0 } },
        ]
    );
}

#[test]
fn a_bad_header_fails_before_any_record() {
    assert_eq!(
        csv_to_json(vec!["summary", "a..b"], vec![StringRecord::from(vec!["one", "two"])]),
        Err(PathSyntaxError { column: 1, text: "a..b".to_string() })
    );
}

#[test]
fn a_record_is_a_row_of_its_fields() {
    assert_eq!(
        record_row(&StringRecord::from(vec!["a", "", " b ", "c,d"])),
        vec!["a".to_string(), "".to_string(), " b ".to_string(), "c,d".to_string()]
    );
    assert_eq!(record_row(&StringRecord::new()), Vec::<String>::new());
}

#[test]
fn the_rows_of_a_file_are_converted() {
    let file = "summary,labels[],labels[]\nSummary,Labels,Labels\none,a,b\ntwo,c\nthree,d,e\n";
    let mut reader = csv::ReaderBuilder::new().flexible(true).from_reader(file.as_bytes());
    let header = reader.headers().expect("a header").clone();
    let ids: Vec<&str> = header.iter().collect();
    let records: Vec<StringRecord> =
        reader.into_records().skip(1).map(|record| record.expect("a record")).collect();
    let converted = csv_to_json(ids, records).expect("a conversion");
    let issue = |summary: &str, first: &str, second: &str| {
        mapping(vec![
            ("summary", text(summary)),
            ("labels", Document::Sequence(vec![text(first), text(second)])),
        ])
    };
    assert_eq!(converted.documents, vec![issue("one", "a", "b"), issue("three", "d", "e")]);
    assert_eq!(
        converted.skipped,
        vec![SkippedRow { row: 1, reason: RowError::Shape { expected: 3, found: 2 } }]
    );
}
