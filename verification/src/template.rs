//! The issues file that `init` writes for the user to fill in.

use vstd::prelude::*;

verus! {

/// The header row of the template: the field path of each column.
pub fn template_header() -> (cells: Vec<&'static str>)
    ensures
        cells.deep_view() == seq![
            "project.key"@,
            "summary"@,
            "description"@,
            "issuetype.id"@,
            "labels[]"@,
            "assignee.name"@,
        ],
{
    vec!["project.key", "summary", "description", "issuetype.id", "labels[]", "assignee.name"]
}

/// The second row of the template: a readable name for each column. The
/// second row of an issues file is never read as data.
pub fn template_labels() -> (cells: Vec<&'static str>)
    ensures
        cells.deep_view() == seq![
            "Project"@,
            "Summary"@,
            "Description"@,
            "Issue Type"@,
            "Labels"@,
            "Assignee"@,
        ],
{
    vec!["Project", "Summary", "Description", "Issue Type", "Labels", "Assignee"]
}

} // verus!
