//! Issues as the bulk endpoint of JIRA takes them.

use vstd::prelude::*;
use vstd::string::*;
use crate::document::{
    lemma_mapping_push, lemma_mapping_update, position, Document, Entry, Tree,
};

verus! {

/// One issue of a bulk request: the fields of the issue and, if the issue
/// is to be linked, the update that links it.
#[derive(Debug, Clone, PartialEq, Eq)]
pub struct JiraIssue {
    pub update: Option<Document>,
    pub fields: Document,
}

/// The mathematical value of a [`JiraIssue`].
pub struct Issue {
    pub update: Option<Tree>,
    pub fields: Tree,
}

impl View for JiraIssue {
    type V = Issue;

    open spec fn view(&self) -> Issue {
        Issue {
            update: match self.update {
                Some(update) => Some(update@),
                None => None,
            },
            fields: self.fields@,
        }
    }
}

/// The update that links an issue to the issue `key`: one link of the type
/// "Relates" that points outward to `key`.
pub open spec fn link_tree(key: Seq<char>) -> Tree {
    let kind = Map::empty().insert("name"@, Tree::Scalar("Relates"@)).insert(
        "outward"@,
        Tree::Scalar("relates to"@),
    ).insert("inward"@, Tree::Scalar("relates to"@));
    let issue = Map::empty().insert("key"@, Tree::Scalar(key));
    let add = Map::empty().insert("type"@, Tree::Mapping(kind)).insert(
        "outwardIssue"@,
        Tree::Mapping(issue),
    );
    let link = Map::empty().insert("add"@, Tree::Mapping(add));
    Tree::Mapping(Map::empty().insert("issuelinks"@, Tree::Sequence(seq![Tree::Mapping(link)])))
}

/// What an issue of a bulk request is made of.
pub open spec fn issue_of(fields: Tree, link: Option<Seq<char>>) -> Issue {
    Issue {
        update: match link {
            Some(key) => Some(link_tree(key)),
            None => None,
        },
        fields,
    }
}

/// Sets `key` to `value` in a mapping.
fn set(mapping: &mut Document, key: &str, value: Document)
    requires
        *old(mapping) is Mapping,
        old(mapping).well_formed(),
        value.well_formed(),
    ensures
        final(mapping).well_formed(),
        final(mapping)@ == Tree::Mapping(old(mapping)@->Mapping_0.insert(key@, value@)),
{
    match mapping {
        Document::Mapping(entries) => {
            let key = key.to_owned();
            let ghost before = *entries;
            match position(entries, &key) {
                Some(at) => {
                    entries[at].value = value;
                    proof {
                        lemma_mapping_update(before, *entries, at as int);
                    }
                },
                None => {
                    let entry = Entry { key, value };
                    entries.push(entry);
                    proof {
                        lemma_mapping_push(before, *entries, entry);
                    }
                },
            }
        },
        _ => {},
    }
}

/// Builds the update that links an issue to the issue `key`.
pub fn link_update(key: &str) -> (update: Document)
    ensures
        update@ == link_tree(key@),
        update.well_formed(),
{
    let mut kind = Document::mapping();
    set(&mut kind, "name", Document::text("Relates"));
    set(&mut kind, "outward", Document::text("relates to"));
    set(&mut kind, "inward", Document::text("relates to"));
    let mut issue = Document::mapping();
    set(&mut issue, "key", Document::text(key));
    let mut add = Document::mapping();
    set(&mut add, "type", kind);
    set(&mut add, "outwardIssue", issue);
    let mut link = Document::mapping();
    set(&mut link, "add", add);
    let mut links: Vec<Document> = Vec::new();
    links.push(link);
    let links = Document::Sequence(links);
    assert(links@->Sequence_0 =~= seq![link@]);
    let mut update = Document::mapping();
    set(&mut update, "issuelinks", links);
    update
}

/// Wraps the documents of a conversion into the issues of one bulk request,
/// in order. With a `link`, every issue gets the same update, which links
/// it to the issue of that key.
pub fn issues_to_create(documents: Vec<Document>, link: Option<String>) -> (issues: Vec<JiraIssue>)
    ensures
        issues.len() == documents.len(),
        forall|i: int|
            0 <= i < issues.len() ==> (#[trigger] issues[i])@ == issue_of(
                documents[i]@,
                match link {
                    Some(key) => Some(key@),
                    None => None,
                },
            ),
        forall|i: int|
            0 <= i < issues.len() ==> (#[trigger] issues[i]).fields == documents[i],
{
    let update = match &link {
        Some(key) => Some(link_update(key.as_str())),
        None => None,
    };
    let ghost given = documents@;
    let mut issues: Vec<JiraIssue> = Vec::new();
    for fields in it: documents
        invariant
            it.seq() == given,
            issues.len() == it.index(),
            update matches Some(update) ==> update.well_formed() && link is Some && update@
                == link_tree(link->0@),
            update is None ==> link is None,
            forall|i: int|
                0 <= i < issues.len() ==> (#[trigger] issues[i])@ == issue_of(
                    given[i]@,
                    match link {
                        Some(key) => Some(key@),
                        None => None,
                    },
                ),
            forall|i: int| 0 <= i < issues.len() ==> (#[trigger] issues[i]).fields == given[i],
    {
        let update = match &update {
            Some(update) => Some(update.clone()),
            None => None,
        };
        issues.push(JiraIssue { update, fields });
    }
    issues
}

} // verus!
