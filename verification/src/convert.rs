//! From a table to the documents of its rows.
//!
//! Rows are independent of one another. A row that cannot be folded is left
//! out of the documents and reported with its index and the reason, and the
//! rows after it are folded as if it had not been there.

use vstd::prelude::*;
use crate::builder::{fold_row, occurrences, RowError};
use crate::fold::{document_of, occurrence};
use crate::document::{document_values, Document, Tree};
use crate::path::{
    header_of, header_values, is_path, parse_header, FieldPath, ParsedPath, PathSyntaxError,
};
use crate::record::{record_fields, record_row};

verus! {

/// A row that gave no document.
#[derive(Debug, Clone, Copy, PartialEq, Eq, Structural)]
pub struct SkippedRow {
    /// The index of the row among the rows that were handed in.
    pub row: usize,
    pub reason: RowError,
}

/// What a table converts to: the documents of the rows that could be
/// folded, in row order, and the rows that could not.
#[derive(Debug, PartialEq, Eq)]
pub struct Conversion {
    pub documents: Vec<Document>,
    pub skipped: Vec<SkippedRow>,
}

/// The documents of the first `n` rows, in row order. A row without a
/// document leaves no trace here.
pub open spec fn documents_of(header: Seq<FieldPath>, rows: Seq<Seq<Seq<char>>>, n: nat) -> Seq<
    Tree,
>
    decreases n,
{
    if n == 0 {
        Seq::empty()
    } else {
        let before = documents_of(header, rows, (n - 1) as nat);
        match document_of(header, rows[n - 1]) {
            Ok(document) => before.push(document),
            Err(_) => before,
        }
    }
}

/// Those of the first `n` rows that have no document, in row order.
pub open spec fn skipped_of(header: Seq<FieldPath>, rows: Seq<Seq<Seq<char>>>, n: nat) -> Seq<
    SkippedRow,
>
    decreases n,
{
    if n == 0 {
        Seq::empty()
    } else {
        let before = skipped_of(header, rows, (n - 1) as nat);
        match document_of(header, rows[n - 1]) {
            Ok(_) => before,
            Err(reason) => before.push(SkippedRow { row: (n - 1) as usize, reason }),
        }
    }
}

/// How many of the first `n` rows have a document.
pub open spec fn accepted(header: Seq<FieldPath>, rows: Seq<Seq<Seq<char>>>, n: nat) -> nat
    decreases n,
{
    if n == 0 {
        0
    } else {
        let before = accepted(header, rows, (n - 1) as nat);
        if document_of(header, rows[n - 1]) is Ok {
            before + 1
        } else {
            before
        }
    }
}

/// The fields of a run of records.
pub open spec fn record_rows(records: Seq<csv::StringRecord>) -> Seq<Seq<Seq<char>>> {
    Seq::new(records.len(), |i: int| record_fields(records[i]))
}

/// Folds every row under the header.
pub fn convert_rows(header: &Vec<ParsedPath>, rows: &Vec<Vec<String>>) -> (conversion: Conversion)
    ensures
        document_values(conversion.documents@) == documents_of(
            header_values(header@),
            rows.deep_view(),
            rows.len() as nat,
        ),
        conversion.skipped@ == skipped_of(
            header_values(header@),
            rows.deep_view(),
            rows.len() as nat,
        ),
        forall|i: int|
            0 <= i < conversion.documents.len() ==> (
            #[trigger] conversion.documents[i]).well_formed(),
{
    let counts = occurrences(header);
    let mut documents: Vec<Document> = Vec::new();
    let mut skipped: Vec<SkippedRow> = Vec::new();
    let mut i: usize = 0;
    while i < rows.len()
        invariant
            i <= rows.len(),
            counts.len() == header.len(),
            forall|column: int|
                0 <= column < header.len() ==> counts[column] == occurrence(
                    header_values(header@),
                    column,
                ),
            document_values(documents@) == documents_of(
                header_values(header@),
                rows.deep_view(),
                i as nat,
            ),
            skipped@ == skipped_of(header_values(header@), rows.deep_view(), i as nat),
            forall|k: int| 0 <= k < documents.len() ==> (#[trigger] documents[k]).well_formed(),
        decreases rows.len() - i,
    {
        match fold_row(header, &counts, &rows[i]) {
            Ok(document) => documents.push(document),
            Err(reason) => skipped.push(SkippedRow { row: i, reason }),
        }
        i += 1;
    }
    Conversion { documents, skipped }
}

/// Converts the records of a CSV file to documents for JIRA.
///
/// `ids` is the header row of the file: one field path per column.
/// `records` are its data rows. A header cell that is no field path fails
/// the whole conversion before any record is looked at.
pub fn csv_to_json(ids: Vec<&str>, records: Vec<csv::StringRecord>) -> (converted: Result<
    Conversion,
    PathSyntaxError,
>)
    ensures
        converted is Ok <==> forall|i: int| 0 <= i < ids.len() ==> is_path(#[trigger] ids[i]@),
        converted matches Ok(conversion) ==> {
            &&& document_values(conversion.documents@) == documents_of(
                header_of(ids.deep_view()),
                record_rows(records@),
                records.len() as nat,
            )
            &&& conversion.skipped@ == skipped_of(
                header_of(ids.deep_view()),
                record_rows(records@),
                records.len() as nat,
            )
            &&& forall|i: int|
                0 <= i < conversion.documents.len() ==> (
                #[trigger] conversion.documents[i]).well_formed()
        },
        converted matches Err(error) ==> {
            &&& error.column < ids.len()
            &&& !is_path(ids[error.column as int]@)
            &&& error.text@ == ids[error.column as int]@
            &&& forall|i: int| 0 <= i < error.column ==> is_path(#[trigger] ids[i]@)
        },
{
    let header = match parse_header(&ids) {
        Ok(header) => header,
        Err(error) => {
            return Err(error);
        },
    };
    let mut rows: Vec<Vec<String>> = Vec::new();
    let mut i: usize = 0;
    while i < records.len()
        invariant
            i <= records.len(),
            rows.len() == i,
            forall|k: int|
                0 <= k < i ==> (#[trigger] rows[k]).deep_view() == record_fields(records[k]),
        decreases records.len() - i,
    {
        rows.push(record_row(&records[i]));
        i += 1;
    }
    assert(rows.deep_view() =~= record_rows(records@));
    Ok(convert_rows(&header, &rows))
}

/// A conversion has one document for each row that folds and one report for
/// each row that does not: the number of documents is the number of rows
/// that fold, not the number of rows.
pub proof fn lemma_conversion_counts(header: Seq<FieldPath>, rows: Seq<Seq<Seq<char>>>, n: nat)
    ensures
        documents_of(header, rows, n).len() == accepted(header, rows, n),
        skipped_of(header, rows, n).len() == n - accepted(header, rows, n),
        accepted(header, rows, n) <= n,
    decreases n,
{
    if n > 0 {
        lemma_conversion_counts(header, rows, (n - 1) as nat);
    }
}

/// A row with fewer or more cells than the header gives no document and is
/// reported with its index and both lengths.
pub proof fn lemma_misshapen_row_is_skipped(
    header: Seq<FieldPath>,
    rows: Seq<Seq<Seq<char>>>,
    n: nat,
    row: int,
)
    requires
        0 <= row < n,
        rows[row].len() != header.len(),
    ensures
        document_of(header, rows[row]) is Err,
        skipped_of(header, rows, n).contains(
            SkippedRow {
                row: row as usize,
                reason: RowError::Shape {
                    expected: header.len() as usize,
                    found: rows[row].len() as usize,
                },
            },
        ),
    decreases n,
{
    let report = SkippedRow {
        row: row as usize,
        reason: RowError::Shape {
            expected: header.len() as usize,
            found: rows[row].len() as usize,
        },
    };
    let before = skipped_of(header, rows, (n - 1) as nat);
    let all = skipped_of(header, rows, n);
    if row == n - 1 {
        assert(all[before.len() as int] == report);
    } else {
        lemma_misshapen_row_is_skipped(header, rows, (n - 1) as nat, row);
        let at = choose|at: int| 0 <= at < before.len() && before[at] == report;
        assert(all[at] == report);
    }
}

/// As more rows are converted, the number of accepted rows does not fall,
/// and it rises with every row that folds.
pub proof fn lemma_accepted_grows(
    header: Seq<FieldPath>,
    rows: Seq<Seq<Seq<char>>>,
    earlier: nat,
    later: nat,
)
    requires
        earlier <= later,
    ensures
        accepted(header, rows, earlier) <= accepted(header, rows, later),
        earlier < later && document_of(header, rows[earlier as int]) is Ok ==> accepted(
            header,
            rows,
            earlier,
        ) < accepted(header, rows, later),
    decreases later,
{
    if earlier < later {
        lemma_accepted_grows(header, rows, earlier, (later - 1) as nat);
    }
}

/// The document of a row that folds stands in the conversion at the position
/// that is the number of rows before it that fold.
pub proof fn lemma_document_position(
    header: Seq<FieldPath>,
    rows: Seq<Seq<Seq<char>>>,
    n: nat,
    row: nat,
)
    requires
        row < n,
        document_of(header, rows[row as int]) is Ok,
    ensures
        accepted(header, rows, row) < documents_of(header, rows, n).len(),
        Ok::<Tree, RowError>(documents_of(header, rows, n)[accepted(header, rows, row) as int])
            == document_of(header, rows[row as int]),
    decreases n,
{
    lemma_conversion_counts(header, rows, (n - 1) as nat);
    if row < n - 1 {
        lemma_document_position(header, rows, (n - 1) as nat, row);
    }
}

/// A conversion keeps the order of the rows: of two rows that fold, the
/// document of the earlier row comes before the document of the later one.
pub proof fn lemma_conversion_keeps_order(
    header: Seq<FieldPath>,
    rows: Seq<Seq<Seq<char>>>,
    n: nat,
    earlier: nat,
    later: nat,
)
    requires
        earlier < later < n,
        document_of(header, rows[earlier as int]) is Ok,
        document_of(header, rows[later as int]) is Ok,
    ensures
        ({
            let documents = documents_of(header, rows, n);
            let first = accepted(header, rows, earlier) as int;
            let second = accepted(header, rows, later) as int;
            &&& 0 <= first < second < documents.len()
            &&& Ok::<Tree, RowError>(documents[first]) == document_of(header, rows[earlier as int])
            &&& Ok::<Tree, RowError>(documents[second]) == document_of(header, rows[later as int])
        }),
{
    lemma_accepted_grows(header, rows, earlier, later);
    lemma_document_position(header, rows, n, earlier);
    lemma_document_position(header, rows, n, later);
}

/// Every document of a conversion is the document of a row.
pub proof fn lemma_document_has_a_row(
    header: Seq<FieldPath>,
    rows: Seq<Seq<Seq<char>>>,
    n: nat,
    position: int,
) -> (row: nat)
    requires
        0 <= position < documents_of(header, rows, n).len(),
    ensures
        row < n,
        accepted(header, rows, row) == position,
        document_of(header, rows[row as int]) == Ok::<Tree, RowError>(
            documents_of(header, rows, n)[position],
        ),
    decreases n,
{
    lemma_conversion_counts(header, rows, (n - 1) as nat);
    let before = documents_of(header, rows, (n - 1) as nat);
    if position < before.len() {
        lemma_document_has_a_row(header, rows, (n - 1) as nat, position)
    } else {
        (n - 1) as nat
    }
}

} // verus!
