//! Building the document of a row.
//!
//! What the document of a row is, and when a row has none, is laid down in
//! [`crate::fold`]. The functions here compute it.

use vstd::prelude::*;
use crate::document::{
    lemma_mapping_entries, lemma_mapping_push, lemma_mapping_update, position, Document, Entry,
    Tree,
};
use crate::fold::{
    count_of, document_of, fresh, lemma_conflict_stays, occurrence, put, stored_cells,
};
use crate::path::{header_values, segment_values, ParsedPath, PathSegment};

verus! {

/// Why a row gave no document.
#[derive(Debug, Clone, Copy, PartialEq, Eq, Structural)]
pub enum RowError {
    /// The shape of the row is wrong: it has fewer or more cells than the
    /// header has columns.
    Shape { expected: usize, found: usize },
    /// The path of this column conflicts with the columns before it: it
    /// expects a place to be of one kind, and they have made it another.
    Conflict { column: usize },
}

/// An empty document of the kind that the segments from `from` on expect.
fn fresh_node(segments: &Vec<PathSegment>, from: usize) -> (node: Document)
    requires
        from <= segments.len(),
    ensures
        node@ == fresh(segment_values(segments@).skip(from as int)),
        node.well_formed(),
{
    if from == segments.len() {
        Document::Scalar(String::new())
    } else {
        match &segments[from] {
            PathSegment::ObjectKey(_) => Document::mapping(),
            PathSegment::ArrayStep => Document::sequence(),
        }
    }
}

/// Stores `value` below `node` at the end of the path `segments[from..]`.
/// After a conflict `node` is left as far as the path was followed.
fn store(
    node: &mut Document,
    segments: &Vec<PathSegment>,
    from: usize,
    nth: usize,
    value: &String,
) -> (stored: bool)
    requires
        from <= segments.len(),
        old(node).well_formed(),
    ensures
        stored <==> put(
            old(node)@,
            segment_values(segments@).skip(from as int),
            nth as nat,
            value@,
        ) is Some,
        stored ==> final(node).well_formed() && Some(final(node)@) == put(
            old(node)@,
            segment_values(segments@).skip(from as int),
            nth as nat,
            value@,
        ),
    decreases segments.len() - from,
{
    let ghost path = segment_values(segments@).skip(from as int);
    let ghost rest = segment_values(segments@).skip(from + 1);
    if from == segments.len() {
        return match node {
            Document::Scalar(text) => {
                *text = value.clone();
                true
            },
            _ => false,
        };
    }
    assert(path.drop_first() =~= rest);
    match &segments[from] {
        PathSegment::ObjectKey(name) => match node {
            Document::Mapping(entries) => {
                let ghost given = *entries;
                let ghost mapping = old(node)@->Mapping_0;
                let at = match position(entries, name) {
                    Some(at) => at,
                    None => {
                        let entry = Entry {
                            key: name.clone(),
                            value: fresh_node(segments, from + 1),
                        };
                        entries.push(entry);
                        proof {
                            lemma_mapping_push(given, *entries, entry);
                        }
                        entries.len() - 1
                    },
                };
                let ghost before = *entries;
                proof {
                    lemma_mapping_entries(given);
                    lemma_mapping_entries(before);
                }
                let stored = store(&mut entries[at].value, segments, from + 1, nth, value);
                proof {
                    if stored {
                        lemma_mapping_update(before, *entries, at as int);
                        let grown = Document::Mapping(before)@->Mapping_0;
                        let kept = entries@[at as int].value@;
                        assert(grown.insert(name@, kept) =~= mapping.insert(name@, kept));
                        assert(put(old(node)@, path, nth as nat, value@) == Some(
                            Tree::Mapping(mapping.insert(name@, kept)),
                        ));
                    }
                }
                stored
            },
            _ => false,
        },
        PathSegment::ArrayStep => match node {
            Document::Sequence(items) => {
                let ghost given = old(node)@->Sequence_0;
                if nth > items.len() {
                    return false;
                }
                if nth == items.len() {
                    items.push(fresh_node(segments, from + 1));
                }
                let stored = store(&mut items[nth], segments, from + 1, nth, value);
                proof {
                    if stored {
                        let kept = items@[nth as int]@;
                        let grown = if nth < given.len() {
                            given.update(nth as int, kept)
                        } else {
                            given.push(kept)
                        };
                        assert(node@->Sequence_0 =~= grown);
                        assert(put(old(node)@, path, nth as nat, value@) == Some(
                            Tree::Sequence(grown),
                        ));
                    }
                }
                stored
            },
            _ => false,
        },
    }
}

/// Whether two paths have the same segments.
fn same_path(left: &Vec<PathSegment>, right: &Vec<PathSegment>) -> (same: bool)
    ensures
        same == (segment_values(left@) == segment_values(right@)),
{
    if left.len() != right.len() {
        assert(segment_values(left@).len() != segment_values(right@).len());
        return false;
    }
    let mut i: usize = 0;
    while i < left.len()
        invariant
            left.len() == right.len(),
            i <= left.len(),
            forall|k: int| 0 <= k < i ==> left[k]@ == right[k]@,
        decreases left.len() - i,
    {
        let equal = match (&left[i], &right[i]) {
            (PathSegment::ObjectKey(one), PathSegment::ObjectKey(other)) => *one == *other,
            (PathSegment::ArrayStep, PathSegment::ArrayStep) => true,
            _ => false,
        };
        if !equal {
            assert(segment_values(left@)[i as int] != segment_values(right@)[i as int]);
            return false;
        }
        i += 1;
    }
    assert(segment_values(left@) =~= segment_values(right@));
    true
}

/// For each column, the number of earlier columns with the same path.
pub(crate) fn occurrences(header: &Vec<ParsedPath>) -> (counts: Vec<usize>)
    ensures
        counts.len() == header.len(),
        forall|column: int|
            0 <= column < header.len() ==> counts[column] == occurrence(
                header_values(header@),
                column,
            ),
{
    let mut counts: Vec<usize> = Vec::new();
    let mut column: usize = 0;
    while column < header.len()
        invariant
            column <= header.len(),
            counts.len() == column,
            forall|c: int|
                0 <= c < column ==> counts[c] == occurrence(header_values(header@), c),
        decreases header.len() - column,
    {
        let mut count: usize = 0;
        let mut earlier: usize = 0;
        while earlier < column
            invariant
                earlier <= column < header.len(),
                count <= earlier,
                count == count_of(
                    header_values(header@),
                    header_values(header@)[column as int].segments,
                    earlier as nat,
                ),
            decreases column - earlier,
        {
            if same_path(&header[earlier].segments, &header[column].segments) {
                count += 1;
            }
            earlier += 1;
        }
        counts.push(count);
        column += 1;
    }
    counts
}

/// Folds a row whose columns have the occurrence numbers `counts`.
pub(crate) fn fold_row(header: &Vec<ParsedPath>, counts: &Vec<usize>, row: &Vec<String>) -> (built:
    Result<Document, RowError>)
    requires
        counts.len() == header.len(),
        forall|column: int|
            0 <= column < header.len() ==> counts[column] == occurrence(
                header_values(header@),
                column,
            ),
    ensures
        match built {
            Ok(document) => document.well_formed() && document_of(
                header_values(header@),
                row.deep_view(),
            ) == Ok::<Tree, RowError>(document@),
            Err(error) => document_of(header_values(header@), row.deep_view()) == Err::<
                Tree,
                RowError,
            >(error),
        },
{
    if row.len() != header.len() {
        return Err(RowError::Shape { expected: header.len(), found: row.len() });
    }
    let mut document = Document::mapping();
    let mut column: usize = 0;
    while column < header.len()
        invariant
            column <= header.len(),
            row.len() == header.len(),
            counts.len() == header.len(),
            forall|c: int|
                0 <= c < header.len() ==> counts[c] == occurrence(header_values(header@), c),
            document.well_formed(),
            stored_cells(header_values(header@), row.deep_view(), column as nat) == Ok::<
                Tree,
                nat,
            >(document@),
        decreases header.len() - column,
    {
        let path = &header[column];
        assert(path@.segments.skip(0) =~= path@.segments);
        if !store(&mut document, &path.segments, 0, counts[column], &row[column]) {
            proof {
                lemma_conflict_stays(
                    header_values(header@),
                    row.deep_view(),
                    column as nat,
                    header.len() as nat,
                );
            }
            return Err(RowError::Conflict { column: path.column });
        }
        column += 1;
    }
    Ok(document)
}

/// Folds the cells of one row into a document.
///
/// The row must have one cell for each path of the header. Its cells are
/// stored in column order; the first column whose path conflicts with what
/// the columns before it have built ends the fold and is named in the
/// error.
pub fn build_document(header: &Vec<ParsedPath>, row: &Vec<String>) -> (built: Result<
    Document,
    RowError,
>)
    ensures
        match built {
            Ok(document) => document.well_formed() && document_of(
                header_values(header@),
                row.deep_view(),
            ) == Ok::<Tree, RowError>(document@),
            Err(error) => document_of(header_values(header@), row.deep_view()) == Err::<
                Tree,
                RowError,
            >(error),
        },
{
    let counts = occurrences(header);
    fold_row(header, &counts, row)
}

} // verus!
