//! Field paths: the compact syntax of a header cell, and its parsed form.
//!
//! A header cell names the place of a column's values inside the document of
//! a row. Key components are separated by `.`; a component that ends in `[]`
//! marks an array at that position:
//!
//! | cell               | segments                                  |
//! |--------------------|-------------------------------------------|
//! | `summary`          | `ObjectKey(summary)`                      |
//! | `issuetype.id`     | `ObjectKey(issuetype)`, `ObjectKey(id)`   |
//! | `labels[]`         | `ObjectKey(labels)`, `ArrayStep`          |
//! | `fixVersions[].id` | `ObjectKey(fixVersions)`, `ArrayStep`, `ObjectKey(id)` |
//!
//! Only a trailing `[]` is syntax. Brackets elsewhere in a component belong
//! to its name, and the suffix is taken off once: `a[][]` names the key `a[]`.

use vstd::prelude::*;
use vstd::string::*;

verus! {

/// One step of a field path.
#[derive(Debug, Clone, PartialEq, Eq)]
pub enum PathSegment {
    /// Descends into the entry of this name in a mapping.
    ObjectKey(String),
    /// Descends into an element of a sequence.
    ArrayStep,
}

/// The mathematical value of a [`PathSegment`].
pub enum Segment {
    ObjectKey(Seq<char>),
    ArrayStep,
}

impl View for PathSegment {
    type V = Segment;

    open spec fn view(&self) -> Segment {
        match self {
            PathSegment::ObjectKey(name) => Segment::ObjectKey(name@),
            PathSegment::ArrayStep => Segment::ArrayStep,
        }
    }
}

/// The segments of one header cell, with the index of the column it heads.
#[derive(Debug, Clone, PartialEq, Eq)]
pub struct ParsedPath {
    pub column: usize,
    pub segments: Vec<PathSegment>,
}

/// A header cell that is no field path.
#[derive(Debug, Clone, PartialEq, Eq)]
pub struct PathSyntaxError {
    /// The index of the offending column.
    pub column: usize,
    /// The cell as it was given.
    pub text: String,
}

/// The values of a run of segments.
pub open spec fn segment_values(segments: Seq<PathSegment>) -> Seq<Segment> {
    Seq::new(segments.len(), |i: int| segments[i]@)
}

/// A path is never empty, every key has a name, and an array step follows a
/// key directly.
pub open spec fn well_formed_path(path: Seq<Segment>) -> bool {
    &&& path.len() > 0
    &&& forall|i: int|
        #![trigger path[i]]
        0 <= i < path.len() ==> match path[i] {
            Segment::ObjectKey(name) => name.len() > 0,
            Segment::ArrayStep => i > 0 && path[i - 1] is ObjectKey,
        }
}

/// The mathematical value of a [`ParsedPath`].
pub struct FieldPath {
    pub column: usize,
    pub segments: Seq<Segment>,
}

impl View for ParsedPath {
    type V = FieldPath;

    open spec fn view(&self) -> FieldPath {
        FieldPath { column: self.column, segments: segment_values(self.segments@) }
    }
}

impl ParsedPath {
    pub open spec fn well_formed(&self) -> bool {
        well_formed_path(self@.segments)
    }
}

/// The pieces of `text` between its dots: a text with `n` dots has `n + 1`
/// components, some of which may be empty.
pub open spec fn components(text: Seq<char>) -> Seq<Seq<char>>
    decreases text.len(),
{
    if text.len() == 0 {
        seq![Seq::empty()]
    } else {
        let before = components(text.drop_last());
        if text.last() == '.' {
            before.push(Seq::empty())
        } else {
            before.drop_last().push(before.last().push(text.last()))
        }
    }
}

/// Whether a component carries the array suffix `[]`.
pub open spec fn is_array_component(component: Seq<char>) -> bool {
    &&& component.len() >= 2
    &&& component[component.len() - 2] == '['
    &&& component[component.len() - 1] == ']'
}

/// The key that a component names: the component without its array suffix.
pub open spec fn component_name(component: Seq<char>) -> Seq<char> {
    if is_array_component(component) {
        component.take(component.len() - 2)
    } else {
        component
    }
}

/// The segments that one component stands for.
pub open spec fn component_segments(component: Seq<char>) -> Seq<Segment> {
    if is_array_component(component) {
        seq![Segment::ObjectKey(component_name(component)), Segment::ArrayStep]
    } else {
        seq![Segment::ObjectKey(component)]
    }
}

/// The segments of a run of components, in order.
pub open spec fn segments_of(parts: Seq<Seq<char>>) -> Seq<Segment>
    decreases parts.len(),
{
    if parts.len() == 0 {
        Seq::empty()
    } else {
        segments_of(parts.drop_last()) + component_segments(parts.last())
    }
}

/// A cell is a field path when every one of its components names a key. The
/// empty cell is none: its only component is empty.
pub open spec fn is_path(text: Seq<char>) -> bool {
    forall|i: int|
        0 <= i < components(text).len() ==> component_name(#[trigger] components(text)[i]).len() > 0
}

/// The segments that a cell stands for.
pub open spec fn path_of(text: Seq<char>) -> Seq<Segment> {
    segments_of(components(text))
}

/// How a run of segments is written as a cell.
pub open spec fn text_of(path: Seq<Segment>) -> Seq<char>
    decreases path.len(),
{
    if path.len() == 0 {
        Seq::empty()
    } else {
        match path.last() {
            Segment::ArrayStep => text_of(path.drop_last()) + seq!['[', ']'],
            Segment::ObjectKey(name) => if path.len() == 1 {
                name
            } else {
                text_of(path.drop_last()) + seq!['.'] + name
            },
        }
    }
}

/// Whether `parsed` is what parsing the cell of a column gives: the path of
/// the cell where it is one, else an error that holds the column and the
/// cell.
pub open spec fn is_parse_of(
    parsed: Result<ParsedPath, PathSyntaxError>,
    column: usize,
    cell: Seq<char>,
) -> bool {
    match parsed {
        Ok(path) => {
            &&& is_path(cell)
            &&& path@ == (FieldPath { column, segments: path_of(cell) })
            &&& path.well_formed()
        },
        Err(error) => {
            &&& !is_path(cell)
            &&& error.column == column
            &&& error.text@ == cell
        },
    }
}

/// The paths that the cells of a header stand for, each with the index of
/// its column.
pub open spec fn header_of(cells: Seq<Seq<char>>) -> Seq<FieldPath> {
    Seq::new(cells.len(), |i: int| FieldPath { column: i as usize, segments: path_of(cells[i]) })
}

/// The values of the paths of a header.
pub open spec fn header_values(header: Seq<ParsedPath>) -> Seq<FieldPath> {
    Seq::new(header.len(), |i: int| header[i]@)
}

/// The characters of a string slice.
fn chars_of(text: &str) -> (chars: Vec<char>)
    ensures
        chars@ == text@,
{
    let mut chars: Vec<char> = Vec::new();
    for c in it: text.chars()
        invariant
            it.seq() == text@,
            chars@ == it.seq().take(it.index() as int),
    {
        chars.push(c);
    }
    chars
}

/// Appends the segments of the component `chars[start..end]` of `cell`,
/// unless the component names no key.
fn push_component(
    cell: &str,
    chars: &Vec<char>,
    start: usize,
    end: usize,
    segments: &mut Vec<PathSegment>,
) -> (named: bool)
    requires
        chars@ == cell@,
        start <= end <= chars.len(),
    ensures
        named == (component_name(cell@.subrange(start as int, end as int)).len() > 0),
        named ==> segment_values(final(segments)@) == segment_values(old(segments)@)
            + component_segments(cell@.subrange(start as int, end as int)),
        !named ==> final(segments)@ == old(segments)@,
{
    let ghost component = cell@.subrange(start as int, end as int);
    let array = end - start >= 2 && chars[end - 2] == '[' && chars[end - 1] == ']';
    let name_end: usize = if array {
        end - 2
    } else {
        end
    };
    assert(component_name(component) =~= cell@.subrange(start as int, name_end as int));
    if name_end == start {
        return false;
    }
    let name = cell.substring_char(start, name_end).to_owned();
    segments.push(PathSegment::ObjectKey(name));
    if array {
        segments.push(PathSegment::ArrayStep);
    }
    true
}

/// Parses the header cell of the column `column`.
///
/// The cell is a field path unless it, or one of its components between
/// dots, names no key: the empty cell, `a..b`, `.a`, `a.` and `[]` are
/// rejected, with the column and the cell in the error.
pub fn parse_path(column: usize, cell: &str) -> (parsed: Result<ParsedPath, PathSyntaxError>)
    ensures
        is_parse_of(parsed, column, cell@),
{
    let chars = chars_of(cell);
    let mut segments: Vec<PathSegment> = Vec::new();
    let mut start: usize = 0;
    let mut i: usize = 0;
    let ghost mut done: Seq<Seq<char>> = Seq::empty();
    assert(components(cell@.take(0)) == done.push(cell@.subrange(0, 0))) by {
        assert(cell@.subrange(0, 0) =~= Seq::empty());
    }
    while i < chars.len()
        invariant
            chars@ == cell@,
            start <= i <= chars.len(),
            components(cell@.take(i as int)) == done.push(cell@.subrange(start as int, i as int)),
            forall|k: int| 0 <= k < done.len() ==> component_name(#[trigger] done[k]).len() > 0,
            segment_values(segments@) == segments_of(done),
        decreases chars.len() - i,
    {
        let ghost component = cell@.subrange(start as int, i as int);
        assert(cell@.take(i + 1).drop_last() =~= cell@.take(i as int));
        if chars[i] == '.' {
            if !push_component(cell, &chars, start, i, &mut segments) {
                proof {
                    lemma_components_of_prefix(cell@, i + 1);
                    assert(components(cell@)[done.len() as int] == component);
                }
                return Err(PathSyntaxError { column, text: cell.to_owned() });
            }
            proof {
                assert(done.push(component).drop_last() =~= done);
                done = done.push(component);
            }
            start = i + 1;
            assert(cell@.subrange(start as int, i + 1) =~= Seq::empty());
        } else {
            assert(component.push(cell@[i as int]) =~= cell@.subrange(start as int, i + 1));
        }
        i += 1;
    }
    let ghost component = cell@.subrange(start as int, i as int);
    assert(cell@.take(i as int) =~= cell@);
    if !push_component(cell, &chars, start, i, &mut segments) {
        return Err(PathSyntaxError { column, text: cell.to_owned() });
    }
    proof {
        assert(done.push(component).drop_last() =~= done);
        lemma_segments_well_formed(done.push(component));
    }
    Ok(ParsedPath { column, segments })
}

/// Parses the cells of a header row, one path per column, in column order.
///
/// The first cell that is no field path is the error: without the meaning
/// of every column no row can be folded.
pub fn parse_header(cells: &Vec<&str>) -> (parsed: Result<Vec<ParsedPath>, PathSyntaxError>)
    ensures
        parsed is Ok <==> forall|i: int| 0 <= i < cells.len() ==> is_path(#[trigger] cells[i]@),
        parsed matches Ok(header) ==> {
            &&& header_values(header@) == header_of(cells.deep_view())
            &&& forall|i: int| 0 <= i < header.len() ==> (#[trigger] header[i]).well_formed()
        },
        parsed matches Err(error) ==> {
            &&& error.column < cells.len()
            &&& !is_path(cells[error.column as int]@)
            &&& error.text@ == cells[error.column as int]@
            &&& forall|i: int| 0 <= i < error.column ==> is_path(#[trigger] cells[i]@)
        },
{
    let mut header: Vec<ParsedPath> = Vec::new();
    let mut column: usize = 0;
    while column < cells.len()
        invariant
            column <= cells.len(),
            header.len() == column,
            forall|i: int| 0 <= i < column ==> is_path(#[trigger] cells[i]@),
            forall|i: int|
                0 <= i < column ==> (#[trigger] header[i])@ == (FieldPath {
                    column: i as usize,
                    segments: path_of(cells[i]@),
                }),
            forall|i: int| 0 <= i < column ==> (#[trigger] header[i]).well_formed(),
        decreases cells.len() - column,
    {
        match parse_path(column, cells[column]) {
            Ok(path) => header.push(path),
            Err(error) => {
                return Err(error);
            },
        }
        column += 1;
    }
    Ok(header)
}

/// Parsing is a function of the column and the cell: two results of parsing
/// the same cell of the same column are two paths of the same value, or two
/// errors of the same content.
pub proof fn lemma_parsing_is_deterministic(
    column: usize,
    cell: Seq<char>,
    first: Result<ParsedPath, PathSyntaxError>,
    second: Result<ParsedPath, PathSyntaxError>,
)
    requires
        is_parse_of(first, column, cell),
        is_parse_of(second, column, cell),
    ensures
        match (first, second) {
            (Ok(one), Ok(other)) => one@ == other@,
            (Err(one), Err(other)) => one.column == other.column && one.text@ == other.text@,
            _ => false,
        },
{
}

/// Writing out what a cell stands for gives the cell back. So parsing is
/// idempotent: what was written out parses to the same segments again.
pub proof fn lemma_path_text_round_trip(cell: Seq<char>)
    ensures
        text_of(path_of(cell)) == cell,
        path_of(text_of(path_of(cell))) == path_of(cell),
{
    lemma_components_join(cell);
    lemma_segments_text(components(cell));
}

/// Two cells stand for the same segments only if they are the same cell.
pub proof fn lemma_same_path_same_cell(one: Seq<char>, other: Seq<char>)
    requires
        path_of(one) == path_of(other),
    ensures
        one == other,
{
    lemma_path_text_round_trip(one);
    lemma_path_text_round_trip(other);
}

/// Components joined by dots.
spec fn dotted(parts: Seq<Seq<char>>) -> Seq<char>
    decreases parts.len(),
{
    if parts.len() == 0 {
        Seq::empty()
    } else if parts.len() == 1 {
        parts[0]
    } else {
        dotted(parts.drop_last()) + seq!['.'] + parts.last()
    }
}

/// A text is its components joined by dots.
proof fn lemma_components_join(text: Seq<char>)
    ensures
        components(text).len() > 0,
        dotted(components(text)) == text,
    decreases text.len(),
{
    if text.len() > 0 {
        let before = components(text.drop_last());
        lemma_components_join(text.drop_last());
        assert(text =~= text.drop_last().push(text.last()));
        if text.last() == '.' {
            assert(before.push(Seq::empty()).drop_last() =~= before);
        } else if before.len() > 1 {
            let grown = before.last().push(text.last());
            assert(before.drop_last().push(grown).drop_last() =~= before.drop_last());
        }
    }
}

/// Writing out the segments of components gives the components joined by
/// dots.
proof fn lemma_segments_text(parts: Seq<Seq<char>>)
    requires
        parts.len() > 0,
    ensures
        segments_of(parts).len() > 0,
        text_of(segments_of(parts)) == dotted(parts),
    decreases parts.len(),
{
    let last = parts.last();
    let before = segments_of(parts.drop_last());
    let path = segments_of(parts);
    if parts.len() > 1 {
        lemma_segments_text(parts.drop_last());
    }
    // The text of the key that `last` names, after the components before it.
    let name = component_name(last);
    let key = before.push(Segment::ObjectKey(name));
    assert(key.drop_last() =~= before);
    let key_text = if parts.len() == 1 {
        name
    } else {
        dotted(parts.drop_last()) + seq!['.'] + name
    };
    assert(text_of(key) == key_text);
    if is_array_component(last) {
        assert(path.drop_last() =~= key);
    } else {
        assert(path =~= key);
    }
}

/// The components of a longer text begin with the finished components of
/// each of its prefixes.
proof fn lemma_components_of_prefix(text: Seq<char>, n: int)
    requires
        0 <= n <= text.len(),
    ensures
        components(text.take(n)).len() <= components(text).len(),
        forall|k: int|
            0 <= k < components(text.take(n)).len() - 1 ==> components(text)[k] == components(
                text.take(n),
            )[k],
    decreases text.len(),
{
    if n == text.len() {
        assert(text.take(n) =~= text);
    } else {
        assert(text.drop_last().take(n) =~= text.take(n));
        lemma_components_of_prefix(text.drop_last(), n);
    }
}

/// The segments of named components form a well-formed path.
proof fn lemma_segments_well_formed(parts: Seq<Seq<char>>)
    requires
        parts.len() > 0,
        forall|i: int| 0 <= i < parts.len() ==> component_name(#[trigger] parts[i]).len() > 0,
    ensures
        well_formed_path(segments_of(parts)),
    decreases parts.len(),
{
    let before = segments_of(parts.drop_last());
    let path = segments_of(parts);
    if parts.len() > 1 {
        lemma_segments_well_formed(parts.drop_last());
    }
    assert forall|i: int| 0 <= i < path.len() implies match #[trigger] path[i] {
        Segment::ObjectKey(name) => name.len() > 0,
        Segment::ArrayStep => i > 0 && path[i - 1] is ObjectKey,
    } by {
        // a segment of the components before the last one, or of the last one
        if 0 < i < before.len() {
            assert(path[i - 1] == before[i - 1]);
        }
    }
}

} // verus!
