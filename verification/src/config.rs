//! Connection settings and defaults of the command line tool.

use vstd::prelude::*;
use vstd::string::*;

verus! {

/// What is needed to send requests to JIRA: the server and the account that
/// signs in with Basic Authentication.
#[derive(Debug, Clone, PartialEq, Eq)]
pub struct Config {
    /// The URL of the JIRA server.
    pub jira_url: String,
    /// The user account name to log in to JIRA.
    pub jira_user: String,
    /// The user's API key to log in to JIRA.
    pub jira_key: String,
}

impl Config {
    /// The URL of an endpoint of the server: the URL of the server, followed
    /// by the path of the endpoint as it is.
    pub fn endpoint_url(&self, endpoint: &str) -> (url: String)
        ensures
            url@ == self.jira_url@ + endpoint@,
    {
        let mut url = self.jira_url.clone();
        url.append(endpoint);
        url
    }
}

/// The path of the endpoint that creates issues in bulk.
pub const BULK_ENDPOINT: &'static str = "/rest/api/2/issue/bulk";

/// The path of the endpoint that describes the project `project`.
pub fn project_endpoint(project: &str) -> (endpoint: String)
    ensures
        endpoint@ == "/rest/api/3/project/"@ + project@,
{
    let mut endpoint = String::from_str("/rest/api/3/project/");
    endpoint.append(project);
    endpoint
}

/// The path of the issues file that is used when none is given.
pub fn default_issues() -> (path: String)
    ensures
        path@ == "./issues.csv"@,
{
    String::from_str("./issues.csv")
}

} // verus!
