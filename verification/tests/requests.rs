use jiragen::{
    default_issues, issues_to_create, link_update, parse_header, project_endpoint, response_body,
    template_header, template_labels, Config, CustomError, Document, Entry, JiraIssue,
    BULK_ENDPOINT,
};
use serde_json::Value;

fn to_json(document: &Document) -> Value {
    match document {
        Document::Scalar(text) => Value::String(text.clone()),
        Document::Mapping(entries) => {
            let mut map = serde_json::Map::new();
            for entry in entries {
                assert!(map.insert(entry.key.clone(), to_json(&entry.value)).is_none());
            }
            Value::Object(map)
        }
        Document::Sequence(items) => Value::Array(items.iter().map(to_json).collect()),
    }
}

fn config() -> Config {
    Config {
        jira_url: "https://my-jira.com".to_string(),
        jira_user: "my-user".to_string(),
        jira_key: "my-key".to_string(),
    }
}

fn summary(value: &str) -> Document {
    Document::Mapping(vec![Entry {
        key: "summary".to_string(),
        value: Document::Scalar(value.to_string()),
    }])
}

#[test]
fn the_default_issues_file() {
    assert_eq!(default_issues(), "./issues.csv");
}

#[test]
fn an_endpoint_follows_the_server() {
    assert_eq!(
        config().endpoint_url("/rest/api/2/issue/bulk"),
        "https://my-jira.com/rest/api/2/issue/bulk"
    );
    assert_eq!(config().endpoint_url(""), "https://my-jira.com");
}

#[test]
fn the_bulk_endpoint() {
    assert_eq!(BULK_ENDPOINT, "/rest/api/2/issue/bulk");
    assert_eq!(
        config().endpoint_url(BULK_ENDPOINT),
        "https://my-jira.com/rest/api/2/issue/bulk"
    );
}

#[test]
fn the_project_endpoint() {
    assert_eq!(project_endpoint("PRJ"), "/rest/api/3/project/PRJ");
    assert_eq!(project_endpoint(""), "/rest/api/3/project/");
    assert_eq!(
        config().endpoint_url(&project_endpoint("PRJ")),
        "https://my-jira.com/rest/api/3/project/PRJ"
    );
}

#[test]
fn the_link_update_relates_to_the_key() {
    let expected: Value = serde_json::from_str(
        r#"
        {
            "issuelinks":[
                {
                   "add":{
                      "type":{
                         "name":"Relates",
                         "outward":"relates to",
                         "inward":"relates to"
                      },
                      "outwardIssue":{
                         "key":"PRJ-7"
                      }
                   }
                }
            ]
        }"#,
    )
    .expect("json");
    assert_eq!(to_json(&link_update("PRJ-7")), expected);
}

#[test]
fn the_key_of_a_link_is_taken_as_it_is() {
    let update = to_json(&link_update("a\"b\\c"));
    assert_eq!(
        update["issuelinks"][0]["add"]["outwardIssue"]["key"],
        Value::String("a\"b\\c".to_string())
    );
}

#[test]
fn issues_without_a_link_have_no_update() {
    let issues = issues_to_create(vec![summary("one"), summary("two")], None);
    assert_eq!(
        issues,
        vec![
            JiraIssue { update: None, fields: summary("one") },
            JiraIssue { update: None, fields: summary("two") },
        ]
    );
}

#[test]
fn every_issue_gets_the_same_link() {
    let issues = issues_to_create(
        vec![summary("one"), summary("two"), summary("three")],
        Some("PRJ-1".to_string()),
    );
    assert_eq!(issues.len(), 3);
    for (issue, text) in issues.iter().zip(["one", "two", "three"]) {
        assert_eq!(issue.fields, summary(text));
        assert_eq!(issue.update, Some(link_update("PRJ-1")));
    }
}

#[test]
fn no_documents_give_no_issues() {
    assert_eq!(issues_to_create(vec![], Some("PRJ-1".to_string())), vec![]);
}

#[test]
fn a_copy_of_a_document_is_equal_to_it() {
    let document = link_update("PRJ-1");
    assert_eq!(document.clone(), document);
}

#[test]
fn a_success_hands_the_body_back() {
    assert_eq!(response_body(200, "{}".to_string()), Ok("{}".to_string()));
    assert_eq!(response_body(201, "created".to_string()), Ok("created".to_string()));
    assert_eq!(response_body(299, "".to_string()), Ok("".to_string()));
}

#[test]
fn a_failure_is_an_error_with_the_status() {
    assert_eq!(
        response_body(404, "no such project".to_string()),
        Err(CustomError {
            message: "JIRA responded with status 404:".to_string(),
            details: "no such project".to_string(),
        })
    );
    for (status, message) in [
        (199, "JIRA responded with status 199:"),
        (300, "JIRA responded with status 300:"),
        (100, "JIRA responded with status 100:"),
        (500, "JIRA responded with status 500:"),
        (999, "JIRA responded with status 999:"),
        (0, "JIRA responded with status 0:"),
        (7, "JIRA responded with status 7:"),
        (42, "JIRA responded with status 42:"),
        (65535, "JIRA responded with status 65535:"),
    ] {
        assert_eq!(
            response_body(status, "body".to_string()),
            Err(CustomError { message: message.to_string(), details: "body".to_string() })
        );
    }
}

#[test]
fn the_template_has_a_path_and_a_label_for_each_column() {
    assert_eq!(
        template_header(),
        vec!["project.key", "summary", "description", "issuetype.id", "labels[]", "assignee.name"]
    );
    assert_eq!(
        template_labels(),
        vec!["Project", "Summary", "Description", "Issue Type", "Labels", "Assignee"]
    );
}

#[test]
fn the_template_header_is_a_header() {
    let header = parse_header(&template_header()).expect("a header");
    assert_eq!(header.len(), template_labels().len());
}

#[test]
fn documents_are_made_of_texts_mappings_and_sequences() {
    assert_eq!(Document::text("a b"), Document::Scalar("a b".to_string()));
    assert_eq!(Document::text(""), Document::Scalar(String::new()));
    assert_eq!(Document::mapping(), Document::Mapping(vec![]));
    assert_eq!(Document::sequence(), Document::Sequence(vec![]));
}
