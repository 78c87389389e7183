//! What it means to fold the cells of a row into a document.
//!
//! Every column stores its cell at the place that its path names, in column
//! order, starting from an empty mapping. Each place has the kind that the
//! path expects of it: a mapping where a key follows, a sequence where an
//! array step follows, a text at the end. A place that is missing is created
//! with that kind. A place that holds another kind is a path conflict, and
//! the document of that row is given up.
//!
//! An array step goes to the element whose index is the number of earlier
//! columns with the very same path. So the first `fixVersions[].id` fills
//! element 0 and the second one element 1, while `watchers[].id` and
//! `watchers[].name` both fill element 0. A sequence grows by one element at
//! a time: an array step that would have to skip an element is a conflict
//! too, which is what happens to the second of two columns `a[].b[].c`.
//!
//! A cell is stored as it is. An empty cell stores the empty text, and a
//! column that comes again without an array step replaces the text of the
//! column before it.
//!
//! The functions of this module are mathematics: [`document_of`] says what
//! the document of a row is, and the lemmas say what follows from that.
//! The code that builds documents is in [`crate::builder`].

use vstd::prelude::*;
use crate::builder::RowError;
use crate::document::Tree;
use crate::path::{well_formed_path, FieldPath, Segment};

verus! {

/// The value of a place that a path creates: empty, and of the kind that
/// the rest of the path expects.
pub open spec fn fresh(rest: Seq<Segment>) -> Tree {
    if rest.len() == 0 {
        Tree::Scalar(Seq::empty())
    } else {
        match rest[0] {
            Segment::ObjectKey(_) => Tree::Mapping(Map::empty()),
            Segment::ArrayStep => Tree::Sequence(Seq::empty()),
        }
    }
}

/// What `node` becomes when `value` is stored at the end of `path`, where
/// array steps go to the element `nth`. `None` is a conflict: `node`, or a
/// place below it, is not of the kind that the path expects, or the
/// sequence at an array step has fewer than `nth` elements.
pub open spec fn put(node: Tree, path: Seq<Segment>, nth: nat, value: Seq<char>) -> Option<Tree>
    decreases path.len(),
{
    if path.len() == 0 {
        match node {
            Tree::Scalar(_) => Some(Tree::Scalar(value)),
            _ => None,
        }
    } else {
        let rest = path.drop_first();
        match (path[0], node) {
            (Segment::ObjectKey(name), Tree::Mapping(entries)) => {
                let child = if entries.contains_key(name) {
                    entries[name]
                } else {
                    fresh(rest)
                };
                match put(child, rest, nth, value) {
                    Some(stored) => Some(Tree::Mapping(entries.insert(name, stored))),
                    None => None,
                }
            },
            (Segment::ArrayStep, Tree::Sequence(items)) => {
                if nth < items.len() {
                    match put(items[nth as int], rest, nth, value) {
                        Some(stored) => Some(Tree::Sequence(items.update(nth as int, stored))),
                        None => None,
                    }
                } else if nth == items.len() {
                    match put(fresh(rest), rest, nth, value) {
                        Some(stored) => Some(Tree::Sequence(items.push(stored))),
                        None => None,
                    }
                } else {
                    None
                }
            },
            _ => None,
        }
    }
}

/// The place that `path` leads to below `node`, where array steps go to the
/// element `nth`.
pub open spec fn place(node: Tree, path: Seq<Segment>, nth: nat) -> Option<Tree>
    decreases path.len(),
{
    if path.len() == 0 {
        Some(node)
    } else {
        match (path[0], node) {
            (Segment::ObjectKey(name), Tree::Mapping(entries)) => if entries.contains_key(name) {
                place(entries[name], path.drop_first(), nth)
            } else {
                None
            },
            (Segment::ArrayStep, Tree::Sequence(items)) => if nth < items.len() {
                place(items[nth as int], path.drop_first(), nth)
            } else {
                None
            },
            _ => None,
        }
    }
}

/// Whether two paths, each with its occurrence number, lead apart: they go
/// the same way up to a point where they come to two different keys, or
/// where they come to an array step and go on to different elements.
pub open spec fn lead_apart(one: Seq<Segment>, nth: nat, other: Seq<Segment>, at: nat) -> bool
    decreases one.len(),
{
    if one.len() == 0 || other.len() == 0 {
        false
    } else {
        match (one[0], other[0]) {
            (Segment::ObjectKey(name), Segment::ObjectKey(other_name)) => {
                name != other_name || lead_apart(one.drop_first(), nth, other.drop_first(), at)
            },
            (Segment::ArrayStep, Segment::ArrayStep) => {
                nth != at || lead_apart(one.drop_first(), nth, other.drop_first(), at)
            },
            _ => false,
        }
    }
}

/// Whether any two columns of the header lead apart.
pub open spec fn columns_lead_apart(header: Seq<FieldPath>) -> bool {
    forall|earlier: int, later: int|
        0 <= earlier < later < header.len() ==> lead_apart(
            #[trigger] header[later].segments,
            occurrence(header, later),
            #[trigger] header[earlier].segments,
            occurrence(header, earlier),
        )
}

/// How many of the first `n` paths of the header have the segments `path`.
pub open spec fn count_of(header: Seq<FieldPath>, path: Seq<Segment>, n: nat) -> nat
    decreases n,
{
    if n == 0 {
        0
    } else {
        let earlier = count_of(header, path, (n - 1) as nat);
        if header[n - 1].segments == path {
            earlier + 1
        } else {
            earlier
        }
    }
}

/// The number of columns before `column` that have the very same path.
pub open spec fn occurrence(header: Seq<FieldPath>, column: int) -> nat {
    count_of(header, header[column].segments, column as nat)
}

/// The document of a row after its first `n` cells are stored, or the
/// position of the first column that conflicts with the ones before it.
pub open spec fn stored_cells(header: Seq<FieldPath>, row: Seq<Seq<char>>, n: nat) -> Result<
    Tree,
    nat,
>
    decreases n,
{
    if n == 0 {
        Ok(Tree::Mapping(Map::empty()))
    } else {
        let column = (n - 1) as nat;
        match stored_cells(header, row, column) {
            Ok(document) => match put(
                document,
                header[column as int].segments,
                occurrence(header, column as int),
                row[column as int],
            ) {
                Some(stored) => Ok(stored),
                None => Err(column),
            },
            Err(at) => Err(at),
        }
    }
}

/// The document that a row folds into under a header, or the reason why it
/// has none.
pub open spec fn document_of(header: Seq<FieldPath>, row: Seq<Seq<char>>) -> Result<
    Tree,
    RowError,
> {
    if row.len() != header.len() {
        Err(RowError::Shape { expected: header.len() as usize, found: row.len() as usize })
    } else {
        match stored_cells(header, row, header.len()) {
            Ok(document) => Ok(document),
            Err(at) => Err(RowError::Conflict { column: header[at as int].column }),
        }
    }
}

/// What was stored is found again: after `value` is stored at the end of a
/// path, the path leads to `value`.
pub proof fn lemma_stored_value_is_found(
    node: Tree,
    path: Seq<Segment>,
    nth: nat,
    value: Seq<char>,
)
    requires
        put(node, path, nth, value) is Some,
    ensures
        place(put(node, path, nth, value)->0, path, nth) == Some(Tree::Scalar(value)),
    decreases path.len(),
{
    if path.len() > 0 {
        let rest = path.drop_first();
        match (path[0], node) {
            (Segment::ObjectKey(name), Tree::Mapping(entries)) => {
                let child = if entries.contains_key(name) {
                    entries[name]
                } else {
                    fresh(rest)
                };
                lemma_stored_value_is_found(child, rest, nth, value);
            },
            (Segment::ArrayStep, Tree::Sequence(items)) => {
                let child = if nth < items.len() {
                    items[nth as int]
                } else {
                    fresh(rest)
                };
                lemma_stored_value_is_found(child, rest, nth, value);
            },
            _ => {},
        }
    }
}

/// Storing at the end of one path leaves what another path leads to as it
/// was, and creates nothing there, if the two lead apart.
pub proof fn lemma_places_apart_are_kept(
    node: Tree,
    path: Seq<Segment>,
    nth: nat,
    value: Seq<char>,
    other: Seq<Segment>,
    at: nat,
)
    requires
        lead_apart(path, nth, other, at),
        put(node, path, nth, value) is Some,
    ensures
        place(put(node, path, nth, value)->0, other, at) == place(node, other, at),
    decreases path.len(),
{
    let rest = path.drop_first();
    match (path[0], node) {
        (Segment::ObjectKey(name), Tree::Mapping(entries)) => {
            if other[0] == path[0] {
                let child = if entries.contains_key(name) {
                    entries[name]
                } else {
                    fresh(rest)
                };
                // what the path creates here is empty: the other path finds nothing in it
                assert(place(fresh(rest), other.drop_first(), at) is None) by {
                    reveal_with_fuel(lead_apart, 2);
                }
                lemma_places_apart_are_kept(child, rest, nth, value, other.drop_first(), at);
            }
        },
        (Segment::ArrayStep, Tree::Sequence(items)) => {
            if nth == at {
                let child = if nth < items.len() {
                    items[nth as int]
                } else {
                    fresh(rest)
                };
                assert(place(fresh(rest), other.drop_first(), at) is None) by {
                    reveal_with_fuel(lead_apart, 2);
                }
                lemma_places_apart_are_kept(child, rest, nth, value, other.drop_first(), at);
            }
        },
        _ => {},
    }
}

/// Two columns with the very same path lead apart if the path has an array
/// step: they go on to different elements there.
pub proof fn lemma_repeated_array_paths_lead_apart(path: Seq<Segment>, nth: nat, at: nat)
    requires
        nth != at,
        exists|i: int| 0 <= i < path.len() && path[i] is ArrayStep,
    ensures
        lead_apart(path, nth, path, at),
    decreases path.len(),
{
    if path[0] is ObjectKey {
        let i = choose|i: int| 0 <= i < path.len() && path[i] is ArrayStep;
        assert(path.drop_first()[i - 1] is ArrayStep);
        lemma_repeated_array_paths_lead_apart(path.drop_first(), nth, at);
    }
}

/// Every cell of a row is found in its document: if any two columns of the
/// header lead apart and the row folds, then the path of each column leads
/// to the cell of that column.
pub proof fn lemma_every_cell_is_found(header: Seq<FieldPath>, row: Seq<Seq<char>>, column: int)
    requires
        columns_lead_apart(header),
        document_of(header, row) is Ok,
        0 <= column < header.len(),
    ensures
        place(
            document_of(header, row)->Ok_0,
            header[column].segments,
            occurrence(header, column),
        ) == Some(Tree::Scalar(row[column])),
{
    lemma_stored_cells_are_found(header, row, header.len(), column);
}

/// After the first `n` cells of a row are stored, each of them is found.
proof fn lemma_stored_cells_are_found(
    header: Seq<FieldPath>,
    row: Seq<Seq<char>>,
    n: nat,
    column: int,
)
    requires
        columns_lead_apart(header),
        n <= header.len(),
        stored_cells(header, row, n) is Ok,
        0 <= column < n,
    ensures
        place(
            stored_cells(header, row, n)->Ok_0,
            header[column].segments,
            occurrence(header, column),
        ) == Some(Tree::Scalar(row[column])),
    decreases n,
{
    let last = (n - 1) as nat;
    let before = stored_cells(header, row, last)->Ok_0;
    let path = header[last as int].segments;
    let nth = occurrence(header, last as int);
    if column == last {
        lemma_stored_value_is_found(before, path, nth, row[last as int]);
    } else {
        lemma_stored_cells_are_found(header, row, last, column);
        assert(lead_apart(path, nth, header[column].segments, occurrence(header, column)));
        lemma_places_apart_are_kept(
            before,
            path,
            nth,
            row[last as int],
            header[column].segments,
            occurrence(header, column),
        );
    }
}

/// A place that a path has just created takes the first cell of that path:
/// there is nothing yet that the path could conflict with.
pub proof fn lemma_fresh_place_takes_the_cell(path: Seq<Segment>, value: Seq<char>)
    ensures
        put(fresh(path), path, 0, value) is Some,
    decreases path.len(),
{
    if path.len() > 0 {
        lemma_fresh_place_takes_the_cell(path.drop_first(), value);
    }
}

/// A row of one cell under a header of one well-formed path always has a
/// document, and in it the path leads to the cell.
pub proof fn lemma_single_cell_has_a_document(header: Seq<FieldPath>, row: Seq<Seq<char>>)
    requires
        header.len() == 1,
        row.len() == 1,
        well_formed_path(header[0].segments),
    ensures
        document_of(header, row) is Ok,
        place(document_of(header, row)->Ok_0, header[0].segments, 0) == Some(
            Tree::Scalar(row[0]),
        ),
{
    let path = header[0].segments;
    assert(path[0] is ObjectKey);
    assert(fresh(path) == Tree::Mapping(Map::empty()));
    assert(occurrence(header, 0) == 0);
    assert(stored_cells(header, row, 0) == Ok::<Tree, nat>(Tree::Mapping(Map::empty())));
    lemma_fresh_place_takes_the_cell(path, row[0]);
    lemma_stored_value_is_found(fresh(path), path, 0, row[0]);
}

/// Columns with the very same path go to different elements, in column
/// order: the later column has the greater occurrence number. And no
/// occurrence number exceeds the number of columns before it.
pub proof fn lemma_repeated_path_moves_on(header: Seq<FieldPath>, earlier: int, later: int)
    requires
        0 <= earlier < later,
        header[earlier].segments == header[later].segments,
    ensures
        occurrence(header, earlier) < occurrence(header, later) <= later,
{
    lemma_count_grows(header, header[later].segments, earlier as nat, later as nat);
    lemma_count_grows(header, header[later].segments, 0, later as nat);
}

/// The first column with a path has the occurrence number 0.
pub proof fn lemma_first_occurrence(header: Seq<FieldPath>, column: int)
    requires
        0 <= column,
        forall|earlier: int|
            0 <= earlier < column ==> (#[trigger] header[earlier]).segments
                != header[column].segments,
    ensures
        occurrence(header, column) == 0,
{
    lemma_no_occurrence(header, header[column].segments, column as nat);
}

/// The count of a path does not fall as more columns are counted, it rises
/// with every column that has the path, and by no more than one per column.
proof fn lemma_count_grows(header: Seq<FieldPath>, path: Seq<Segment>, fewer: nat, more: nat)
    requires
        fewer <= more,
    ensures
        count_of(header, path, fewer) <= count_of(header, path, more) <= count_of(
            header,
            path,
            fewer,
        ) + (more - fewer),
        fewer < more && header[fewer as int].segments == path ==> count_of(header, path, fewer)
            < count_of(header, path, more),
    decreases more,
{
    if fewer < more {
        lemma_count_grows(header, path, fewer, (more - 1) as nat);
    }
}

/// A path that none of the first `n` columns has is counted 0 times.
proof fn lemma_no_occurrence(header: Seq<FieldPath>, path: Seq<Segment>, n: nat)
    requires
        forall|earlier: int| 0 <= earlier < n ==> (#[trigger] header[earlier]).segments != path,
    ensures
        count_of(header, path, n) == 0,
    decreases n,
{
    if n > 0 {
        lemma_no_occurrence(header, path, (n - 1) as nat);
    }
}

/// Once a column conflicts, the row has no document however many columns
/// follow.
pub(crate) proof fn lemma_conflict_stays(
    header: Seq<FieldPath>,
    row: Seq<Seq<char>>,
    at: nat,
    n: nat,
)
    requires
        at < n,
        stored_cells(header, row, at) is Ok,
        stored_cells(header, row, at + 1) is Err,
    ensures
        stored_cells(header, row, n) == Err::<Tree, nat>(at),
    decreases n,
{
    if n > at + 1 {
        lemma_conflict_stays(header, row, at, (n - 1) as nat);
    }
}

} // verus!
