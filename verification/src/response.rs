//! What JIRA answers.

use vstd::prelude::*;
use vstd::string::*;

verus! {

/// A failure that JIRA reported, with what it sent as the reason.
#[derive(Debug, Clone, PartialEq, Eq)]
pub struct CustomError {
    pub message: String,
    pub details: String,
}

/// An issue that JIRA has created.
#[derive(Debug, Clone, PartialEq, Eq)]
pub struct CreatedIssue {
    pub id: String,
    pub key: String,
    /// The URL of the issue.
    pub link: String,
}

/// A component or an issue type of a project.
#[derive(Debug, Clone, PartialEq, Eq)]
pub struct NamedId {
    pub name: String,
    pub id: String,
}

/// The identifiers of a project that are needed to write an issues file.
#[derive(Debug, Clone, PartialEq, Eq)]
pub struct Project {
    pub components: Vec<NamedId>,
    pub issue_types: Vec<NamedId>,
    /// The names of the roles.
    pub roles: Vec<String>,
}

/// The status codes of success: 200 to 299.
pub open spec fn is_success(status: u16) -> bool {
    200 <= status < 300
}

/// The decimal digit of a number below ten.
pub open spec fn digit(d: nat) -> char {
    seq!['0', '1', '2', '3', '4', '5', '6', '7', '8', '9'][d as int]
}

/// A number in decimal digits, without leading zeros.
pub open spec fn decimal(n: nat) -> Seq<char>
    decreases n,
{
    if n < 10 {
        seq![digit(n)]
    } else {
        decimal(n / 10).push(digit(n % 10))
    }
}

/// The message of the error for a response with the status code `status`.
pub open spec fn status_message(status: u16) -> Seq<char> {
    "JIRA responded with status "@ + decimal(status as nat) + ":"@
}

/// One decimal digit as a text.
fn digit_text(d: u16) -> (text: &'static str)
    requires
        d < 10,
    ensures
        text@ == seq![digit(d as nat)],
{
    proof {
        reveal_strlit("0");
        reveal_strlit("1");
        reveal_strlit("2");
        reveal_strlit("3");
        reveal_strlit("4");
        reveal_strlit("5");
        reveal_strlit("6");
        reveal_strlit("7");
        reveal_strlit("8");
        reveal_strlit("9");
    }
    match d {
        0 => "0",
        1 => "1",
        2 => "2",
        3 => "3",
        4 => "4",
        5 => "5",
        6 => "6",
        7 => "7",
        8 => "8",
        _ => "9",
    }
}

/// Appends a number in decimal digits.
fn append_decimal(text: &mut String, n: u16)
    ensures
        final(text)@ == old(text)@ + decimal(n as nat),
    decreases n,
{
    if n >= 10 {
        append_decimal(text, n / 10);
    }
    text.append(digit_text(n % 10));
}

/// Tells a response that succeeded from one that failed, by its status
/// code.
///
/// The body of a success is handed back. A failure becomes an error whose
/// message holds the status code and whose details are the body.
pub fn response_body(status: u16, body: String) -> (checked: Result<String, CustomError>)
    ensures
        match checked {
            Ok(text) => is_success(status) && text == body,
            Err(error) => {
                &&& !is_success(status)
                &&& error.message@ == status_message(status)
                &&& error.details == body
            },
        },
{
    if 200 <= status && status < 300 {
        Ok(body)
    } else {
        let mut message = String::from_str("JIRA responded with status ");
        append_decimal(&mut message, status);
        message.append(":");
        Err(CustomError { message, details: body })
    }
}

} // verus!
