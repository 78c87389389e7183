use comfy_table::Table;
use jiragen::{create_project_table, create_table, rows, CreatedIssue, NamedId, Project};

fn texts(cells: &[&str]) -> Vec<String> {
    cells.iter().map(|cell| cell.to_string()).collect()
}

fn named(name: &str, id: &str) -> NamedId {
    NamedId { name: name.to_string(), id: id.to_string() }
}

fn header_of(table: &Table) -> Option<Vec<String>> {
    table.header().map(|row| row.cell_iter().map(|cell| cell.content()).collect())
}

fn rows_of(table: &Table) -> Vec<Vec<String>> {
    table.row_iter().map(|row| row.cell_iter().map(|cell| cell.content()).collect()).collect()
}

#[test]
fn columns_of_one_length_are_zipped() {
    assert_eq!(
        rows(texts(&["a", "b"]), texts(&["c", "d"]), texts(&["e", "f"])),
        vec![texts(&["a", "c", "e"]), texts(&["b", "d", "f"])]
    );
}

#[test]
fn short_columns_are_filled_with_empty_cells() {
    assert_eq!(
        rows(texts(&["a"]), texts(&["b", "c", "d"]), texts(&[])),
        vec![texts(&["a", "b", ""]), texts(&["", "c", ""]), texts(&["", "d", ""])]
    );
    assert_eq!(
        rows(texts(&[]), texts(&[]), texts(&["r", "s"])),
        vec![texts(&["", "", "r"]), texts(&["", "", "s"])]
    );
    assert_eq!(
        rows(texts(&["a", "b"]), texts(&["c"]), texts(&[])),
        vec![texts(&["a", "c", ""]), texts(&["b", "", ""])]
    );
}

#[test]
fn empty_columns_give_no_rows() {
    assert_eq!(rows(vec![], vec![], vec![]), Vec::<Vec<String>>::new());
}

#[test]
fn the_project_table_has_three_columns() {
    let project = Project {
        components: vec![named("Backend", "10000"), named("Frontend", "10001")],
        issue_types: vec![named("Bug", "1")],
        roles: texts(&["Administrators", "Developers", "Users"]),
    };
    let table = create_project_table(project);
    assert_eq!(header_of(&table), Some(texts(&["Components", "Issue Type", "Roles"])));
    assert_eq!(
        rows_of(&table),
        vec![
            texts(&["Name: Backend\nID: 10000", "Name: Bug\nID: 1", "Administrators"]),
            texts(&["Name: Frontend\nID: 10001", "", "Developers"]),
            texts(&["", "", "Users"]),
        ]
    );
}

#[test]
fn an_empty_project_has_an_empty_table() {
    let project = Project { components: vec![], issue_types: vec![], roles: vec![] };
    let table = create_project_table(project);
    assert_eq!(header_of(&table), Some(texts(&["Components", "Issue Type", "Roles"])));
    assert_eq!(rows_of(&table), Vec::<Vec<String>>::new());
}

#[test]
fn the_issues_table_has_one_row_for_each_issue() {
    let issues = vec![
        CreatedIssue {
            id: "10000".to_string(),
            key: "PRJ-24".to_string(),
            link: "https://jira.example/rest/api/2/issue/10000".to_string(),
        },
        CreatedIssue {
            id: "10001".to_string(),
            key: "PRJ-25".to_string(),
            link: "https://jira.example/rest/api/2/issue/10001".to_string(),
        },
    ];
    let table = create_table(issues);
    assert_eq!(header_of(&table), Some(texts(&["Issues"])));
    assert_eq!(
        rows_of(&table),
        vec![
            texts(&["ID: 10000\nKey: PRJ-24\nLink: https://jira.example/rest/api/2/issue/10000"]),
            texts(&["ID: 10001\nKey: PRJ-25\nLink: https://jira.example/rest/api/2/issue/10001"]),
        ]
    );
}

#[test]
fn no_issues_give_a_table_without_rows() {
    let table = create_table(vec![]);
    assert_eq!(header_of(&table), Some(texts(&["Issues"])));
    assert!(table.is_empty());
}

#[test]
fn cells_keep_their_line_breaks_and_blanks() {
    let issues = vec![CreatedIssue {
        id: " 1 ".to_string(),
        key: "a\nb".to_string(),
        link: "".to_string(),
    }];
    assert_eq!(rows_of(&create_table(issues)), vec![texts(&["ID:  1 \nKey: a\nb\nLink: "])]);
}
