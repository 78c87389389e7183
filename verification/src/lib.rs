//! Bulk creation of JIRA issues from a table of rows.
//!
//! The heart of the crate turns the header cells of a table into field paths
//! and folds every data row into one nested document per row:
//!
//! - [`path`] parses header cells,
//! - [`document`] holds the documents,
//! - [`fold`] says what the document of a row is,
//! - [`builder`] builds it,
//! - [`convert`] does so for all the rows of a table, and [`record`] lets
//!   the rows be records of the `csv` crate.
//!
//! Around it stands what the command line tool computes on its way to JIRA
//! and back: the settings of the connection ([`config`]), the issues of a
//! bulk request ([`issue`]), what becomes of an answer ([`response`]), the
//! tables that show it ([`table`]), and the template of an issues file
//! ([`template`]).

pub mod builder;
pub mod config;
pub mod convert;
pub mod document;
pub mod fold;
pub mod issue;
pub mod path;
pub mod record;
pub mod response;
pub mod table;
pub mod template;

pub use builder::{build_document, RowError};
pub use config::{default_issues, project_endpoint, Config, BULK_ENDPOINT};
pub use convert::{convert_rows, csv_to_json, Conversion, SkippedRow};
pub use document::{Document, Entry};
pub use issue::{issues_to_create, link_update, JiraIssue};
pub use path::{parse_header, parse_path, ParsedPath, PathSegment, PathSyntaxError};
pub use record::record_row;
pub use response::{response_body, CreatedIssue, CustomError, NamedId, Project};
pub use table::{create_project_table, create_table, rows};
pub use template::{template_header, template_labels};
