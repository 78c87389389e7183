//! The tables that the command line tool prints.
//!
//! The tables are [`comfy_table::Table`]s. Such a table is opaque to Verus.
//! What the library relies on is stated here and believed without proof: a
//! table holds a header row, if one was set, and rows of cells, and a cell
//! hands back the text that it was made from (as it does unless the feature
//! `custom_styling` of `comfy_table` is switched on). How a table is drawn
//! is not the library's business: the caller styles and prints it.

use vstd::prelude::*;
use vstd::string::*;
use crate::response::{CreatedIssue, NamedId, Project};

verus! {

/// `comfy_table::Table`, a table of cells of text. Nothing is known of its
/// inside; [`table_header`] and [`table_rows`] name what it holds.
#[verifier::external_type_specification]
#[verifier::external_body]
pub struct ExTable(comfy_table::Table);

/// The texts of the cells of the header row of a table, if a header was
/// set: what `Table::header` and `Cell::content` hand out.
pub uninterp spec fn table_header(table: comfy_table::Table) -> Option<Seq<Seq<char>>>;

/// The texts of the cells of the rows of a table, row by row: what
/// `Table::row_iter` and `Cell::content` hand out.
pub uninterp spec fn table_rows(table: comfy_table::Table) -> Seq<Seq<Seq<char>>>;

/// `comfy_table::Table::new` makes a table without a header and without
/// rows.
#[verifier::external_body]
fn new_table() -> (table: comfy_table::Table)
    ensures
        table_header(table) is None,
        table_rows(table) == Seq::<Seq<Seq<char>>>::empty(),
{
    comfy_table::Table::new()
}

/// `comfy_table::Table::set_header` makes a row of one cell per text the
/// header of the table, and leaves the rows as they are.
#[verifier::external_body]
fn set_header(table: &mut comfy_table::Table, cells: Vec<String>)
    ensures
        table_header(*final(table)) == Some(cells.deep_view()),
        table_rows(*final(table)) == table_rows(*old(table)),
{
    table.set_header(cells);
}

/// `comfy_table::Table::add_row` appends a row of one cell per text to the
/// rows of the table, and leaves the header as it is.
#[verifier::external_body]
fn add_row(table: &mut comfy_table::Table, cells: Vec<String>)
    ensures
        table_header(*final(table)) == table_header(*old(table)),
        table_rows(*final(table)) == table_rows(*old(table)).push(cells.deep_view()),
{
    table.add_row(cells);
}

/// The cell of a column at a row: the text that the column holds there, and
/// the empty text below its end.
pub open spec fn cell(column: Seq<Seq<char>>, row: int) -> Seq<char> {
    if 0 <= row < column.len() {
        column[row]
    } else {
        Seq::empty()
    }
}

/// The length of the longest of three columns.
pub open spec fn longest(first: nat, second: nat, third: nat) -> nat {
    if first >= second && first >= third {
        first
    } else if second >= third {
        second
    } else {
        third
    }
}

/// Three columns side by side: as many rows as the longest column has
/// cells, the shorter columns filled up with empty cells.
pub open spec fn side_by_side(
    first: Seq<Seq<char>>,
    second: Seq<Seq<char>>,
    third: Seq<Seq<char>>,
) -> Seq<Seq<Seq<char>>> {
    Seq::new(
        longest(first.len(), second.len(), third.len()),
        |row: int| seq![cell(first, row), cell(second, row), cell(third, row)],
    )
}

/// How a component or an issue type is shown.
pub open spec fn named_text(name: Seq<char>, id: Seq<char>) -> Seq<char> {
    "Name: "@ + name + "\nID: "@ + id
}

/// How a created issue is shown.
pub open spec fn issue_text(id: Seq<char>, key: Seq<char>, link: Seq<char>) -> Seq<char> {
    "ID: "@ + id + "\nKey: "@ + key + "\nLink: "@ + link
}

/// The cells of a column of components or issue types.
pub open spec fn named_column(items: Seq<NamedId>) -> Seq<Seq<char>> {
    Seq::new(items.len(), |i: int| named_text(items[i].name@, items[i].id@))
}

/// The rows of the table of created issues: one cell per issue.
pub open spec fn issue_rows(issues: Seq<CreatedIssue>) -> Seq<Seq<Seq<char>>> {
    Seq::new(
        issues.len(),
        |i: int| seq![issue_text(issues[i].id@, issues[i].key@, issues[i].link@)],
    )
}

/// The text of a column at a row, empty below the end of the column.
fn cell_at(column: &Vec<String>, row: usize) -> (text: String)
    ensures
        text@ == cell(column.deep_view(), row as int),
{
    if row < column.len() {
        column[row].clone()
    } else {
        String::new()
    }
}

/// Lays three columns side by side, row by row.
pub fn rows(comps: Vec<String>, iss: Vec<String>, roles: Vec<String>) -> (rows: Vec<Vec<String>>)
    ensures
        rows.deep_view() == side_by_side(comps.deep_view(), iss.deep_view(), roles.deep_view()),
{
    let mut count = comps.len();
    if iss.len() > count {
        count = iss.len();
    }
    if roles.len() > count {
        count = roles.len();
    }
    let mut rows: Vec<Vec<String>> = Vec::new();
    let mut row: usize = 0;
    while row < count
        invariant
            row <= count,
            count == longest(comps.len() as nat, iss.len() as nat, roles.len() as nat),
            rows.len() == row,
            forall|r: int|
                0 <= r < row ==> (#[trigger] rows[r]).deep_view() == seq![
                    cell(comps.deep_view(), r),
                    cell(iss.deep_view(), r),
                    cell(roles.deep_view(), r),
                ],
        decreases count - row,
    {
        let mut cells: Vec<String> = Vec::new();
        cells.push(cell_at(&comps, row));
        cells.push(cell_at(&iss, row));
        cells.push(cell_at(&roles, row));
        rows.push(cells);
        row += 1;
    }
    rows
}

/// Shows the name and the id of each item, one cell per item.
fn named_cells(items: &Vec<NamedId>) -> (cells: Vec<String>)
    ensures
        cells.deep_view() == named_column(items@),
{
    let mut cells: Vec<String> = Vec::new();
    let mut i: usize = 0;
    while i < items.len()
        invariant
            i <= items.len(),
            cells.len() == i,
            forall|k: int|
                0 <= k < i ==> (#[trigger] cells[k])@ == named_text(items[k].name@, items[k].id@),
        decreases items.len() - i,
    {
        let mut text = String::from_str("Name: ");
        text.append(items[i].name.as_str());
        text.append("\nID: ");
        text.append(items[i].id.as_str());
        cells.push(text);
        i += 1;
    }
    cells
}

/// The table that shows the identifiers of a project: its components, its
/// issue types and its roles, each in a column of its own.
pub fn create_project_table(project: Project) -> (table: comfy_table::Table)
    ensures
        table_header(table) == Some(seq!["Components"@, "Issue Type"@, "Roles"@]),
        table_rows(table) == side_by_side(
            named_column(project.components@),
            named_column(project.issue_types@),
            project.roles.deep_view(),
        ),
{
    let mut header: Vec<String> = Vec::new();
    header.push(String::from_str("Components"));
    header.push(String::from_str("Issue Type"));
    header.push(String::from_str("Roles"));
    let components = named_cells(&project.components);
    let issue_types = named_cells(&project.issue_types);
    table_of(header, rows(components, issue_types, project.roles))
}

/// The table that shows the issues that JIRA has created, one row each.
pub fn create_table(issues: Vec<CreatedIssue>) -> (table: comfy_table::Table)
    ensures
        table_header(table) == Some(seq!["Issues"@]),
        table_rows(table) == issue_rows(issues@),
{
    let mut header: Vec<String> = Vec::new();
    header.push(String::from_str("Issues"));
    let mut rows: Vec<Vec<String>> = Vec::new();
    let mut i: usize = 0;
    while i < issues.len()
        invariant
            i <= issues.len(),
            rows.len() == i,
            forall|k: int|
                0 <= k < i ==> (#[trigger] rows[k]).deep_view() == seq![
                    issue_text(issues[k].id@, issues[k].key@, issues[k].link@),
                ],
        decreases issues.len() - i,
    {
        let issue = &issues[i];
        let mut text = String::from_str("ID: ");
        text.append(issue.id.as_str());
        text.append("\nKey: ");
        text.append(issue.key.as_str());
        text.append("\nLink: ");
        text.append(issue.link.as_str());
        let mut cells: Vec<String> = Vec::new();
        cells.push(text);
        rows.push(cells);
        i += 1;
    }
    table_of(header, rows)
}

/// A table with this header and these rows.
fn table_of(header: Vec<String>, rows: Vec<Vec<String>>) -> (table: comfy_table::Table)
    ensures
        table_header(table) == Some(header.deep_view()),
        table_rows(table) == rows.deep_view(),
{
    let mut table = new_table();
    set_header(&mut table, header);
    let ghost given = rows@;
    for cells in it: rows
        invariant
            it.seq() == given,
            table_header(table) == Some(header.deep_view()),
            table_rows(table) == rows.deep_view().take(it.index() as int),
    {
        add_row(&mut table, cells);
    }
    table
}

} // verus!
