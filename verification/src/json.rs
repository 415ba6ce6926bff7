//! JSON: the strings in outgoing documents, and the error reports in incoming
//! ones.

use vstd::prelude::*;

use crate::error::BrowserError;
use crate::text::{opt_string, owned};

verus! {

/// A hexadecimal digit in lower case.
pub open spec fn lower_hex_digit(value: int) -> char {
    if value < 10 {
        (value + 48) as char
    } else {
        (value + 87) as char
    }
}

/// What a character becomes inside a JSON string: a quote, a backslash and the
/// control characters are escaped.
pub open spec fn escaped_char(c: char) -> Seq<char> {
    if c == '"' {
        seq!['\\', '"']
    } else if c == '\\' {
        seq!['\\', '\\']
    } else if c == '\u{8}' {
        seq!['\\', 'b']
    } else if c == '\u{9}' {
        seq!['\\', 't']
    } else if c == '\u{a}' {
        seq!['\\', 'n']
    } else if c == '\u{c}' {
        seq!['\\', 'f']
    } else if c == '\u{d}' {
        seq!['\\', 'r']
    } else if c <= '\u{1f}' {
        seq![
            '\\',
            'u',
            '0',
            '0',
            lower_hex_digit(c as int / 16),
            lower_hex_digit(c as int % 16),
        ]
    } else {
        seq![c]
    }
}

/// A text as it stands between the quotes of a JSON string.
pub open spec fn escaped(s: Seq<char>) -> Seq<char>
    decreases s.len(),
{
    if s.len() == 0 {
        seq![]
    } else {
        escaped(s.drop_last()) + escaped_char(s.last())
    }
}

/// A text as a JSON string.
pub open spec fn json_string(s: Seq<char>) -> Seq<char> {
    "\""@ + escaped(s) + "\""@
}

/// The error of `serde_json`.
#[verifier::external_type_specification]
#[verifier::external_body]
pub struct ExJsonError(serde_json::Error);

/// The document of `serde_json`.
#[verifier::external_type_specification]
#[verifier::external_body]
pub struct ExJsonValue(serde_json::Value);

/// `serde_json::to_string` on a string: it writes into memory, so it does not
/// fail, and it writes the text between quotes with each character escaped as
/// `escaped_char` says.
#[verifier::external_body]
fn to_json(value: &str) -> (json: Result<String, serde_json::Error>)
    ensures
        json is Ok,
        json->Ok_0@ == json_string(value@),
{
    serde_json::to_string(value)
}

/// The texts in a document: for each chain of member names that leads from the
/// document through objects to a string, that string.
pub uninterp spec fn text_leaves(value: serde_json::Value) -> Map<Seq<Seq<char>>, Seq<char>>;

/// The texts in the document that a source denotes; none if the source is no
/// JSON document.
pub uninterp spec fn parsed_leaves(source: Seq<char>) -> Option<Map<Seq<Seq<char>>, Seq<char>>>;

/// The texts in the member of the given name of a document with the given texts.
pub open spec fn leaves_under(
    leaves: Map<Seq<Seq<char>>, Seq<char>>,
    key: Seq<char>,
) -> Map<Seq<Seq<char>>, Seq<char>> {
    Map::new(
        |path: Seq<Seq<char>>| leaves.dom().contains(seq![key] + path),
        |path: Seq<Seq<char>>| leaves[seq![key] + path],
    )
}

/// The text to which a chain of member names leads, if it leads to one.
pub open spec fn leaf(
    leaves: Map<Seq<Seq<char>>, Seq<char>>,
    path: Seq<Seq<char>>,
) -> Option<Seq<char>> {
    if leaves.dom().contains(path) {
        Some(leaves[path])
    } else {
        None
    }
}

/// `serde_json::from_str` into a `serde_json::Value`: whether it succeeds, and
/// what the document holds, depends on the source alone. Nothing is said of
/// which sources are JSON documents.
#[verifier::external_body]
fn parse_json(source: &str) -> (value: Option<serde_json::Value>)
    ensures
        match value {
            Some(document) => parsed_leaves(source@) == Some(text_leaves(document)),
            None => parsed_leaves(source@) is None,
        },
{
    serde_json::from_str::<serde_json::Value>(source).ok()
}

/// `serde_json::Value::get` with a member name: an object gives the member of
/// that name, if it has one; anything else gives none.
#[verifier::external_body]
fn json_member<'a>(value: &'a serde_json::Value, key: &str) -> (member: Option<
    &'a serde_json::Value,
>)
    ensures
        match member {
            Some(inner) => text_leaves(*inner) == leaves_under(text_leaves(*value), key@),
            None => leaves_under(text_leaves(*value), key@) == Map::<
                Seq<Seq<char>>,
                Seq<char>,
            >::empty(),
        },
{
    value.get(key)
}

/// `serde_json::Value::as_str`: the text of a string, and none of anything else.
#[verifier::external_body]
fn json_text(value: &serde_json::Value) -> (text: Option<String>)
    ensures
        opt_string(text) == leaf(text_leaves(*value), seq![]),
{
    value.as_str().map(str::to_string)
}

/// Writes a text as a JSON string.
pub fn serialize_json(value: &str) -> (json: String)
    ensures
        json@ == json_string(value@),
{
    match to_json(value) {
        Ok(json) => json,
        Err(_) => owned("{\"error\":\"Internal serialization error.\"}"),
    }
}

/// Appends a text as a JSON string.
pub fn push_json(out: &mut String, value: &str)
    ensures
        final(out)@ == old(out)@ + json_string(value@),
{
    let json = serialize_json(value);
    out.append(json.as_str());
}

/// The document that answers a request with an error.
pub open spec fn error_document(message: Seq<char>) -> Seq<char> {
    "{\"error\":"@ + json_string(message) + "}"@
}

/// Writes the document that answers a request with an error.
pub fn error_output(error: &BrowserError) -> (document: String)
    ensures
        document@ == error_document(error@.message()),
{
    let message = error.to_string();
    let mut document = owned("{\"error\":");
    push_json(&mut document, message.as_str());
    document.append("}");
    document
}

/// The headers of a search.
pub open spec fn header_document(api_key: Seq<char>) -> Seq<char> {
    "{\"Accept\":\"application/json\",\"X-Subscription-Token\":"@ + json_string(api_key) + "}"@
}

/// Writes the headers of a search.
pub fn search_headers(api_key: &str) -> (headers: String)
    ensures
        headers@ == header_document(api_key@),
{
    let mut headers = owned("{\"Accept\":\"application/json\",\"X-Subscription-Token\":");
    push_json(&mut headers, api_key);
    headers.append("}");
    headers
}

/// What is read of the value of a member: its own text, and the text of its
/// member `message`.
#[derive(Debug, PartialEq, Eq)]
pub struct JsonNode {
    pub text: Option<String>,
    pub message: Option<String>,
}

/// What is read of the value of a member, as sequences of characters.
pub struct NodeView {
    pub text: Option<Seq<char>>,
    pub message: Option<Seq<char>>,
}

impl View for JsonNode {
    type V = NodeView;

    open spec fn view(&self) -> NodeView {
        NodeView { text: opt_string(self.text), message: opt_string(self.message) }
    }
}

/// The message of an error value: the text of its member `message`, else its own
/// text.
pub open spec fn node_message(node: NodeView) -> Option<Seq<char>> {
    match node.message {
        Some(message) => Some(message),
        None => node.text,
    }
}

/// The error that a document reports: the message of its error value, else the
/// message of the document itself.
pub open spec fn reported_error(
    error: Option<NodeView>,
    message: Option<Seq<char>>,
) -> Option<Seq<char>> {
    match error {
        Some(node) => match node_message(node) {
            Some(text) => Some(text),
            None => message,
        },
        None => message,
    }
}

/// The error that a document with the given texts reports.
pub open spec fn error_in_leaves(leaves: Map<Seq<Seq<char>>, Seq<char>>) -> Option<Seq<char>> {
    reported_error(
        Some(
            NodeView {
                text: leaf(leaves, seq!["error"@]),
                message: leaf(leaves, seq!["error"@, "message"@]),
            },
        ),
        leaf(leaves, seq!["message"@]),
    )
}

/// The error that a response of the search service reports; none if it is no
/// JSON document.
pub open spec fn api_error(response: Seq<char>) -> Option<Seq<char>> {
    match parsed_leaves(response) {
        Some(leaves) => error_in_leaves(leaves),
        None => None,
    }
}

/// Reads the message of an error value.
pub fn json_error_message(value: &JsonNode) -> (message: Option<String>)
    ensures
        opt_string(message) == node_message(value@),
{
    match &value.message {
        Some(message) => Some(owned(message.as_str())),
        None => match &value.text {
            Some(text) => Some(owned(text.as_str())),
            None => None,
        },
    }
}

/// Chooses the error that a document reports, given its error value and its own
/// message.
pub fn choose_error(error: Option<JsonNode>, message: Option<String>) -> (report: Option<String>)
    ensures
        opt_string(report) == reported_error(
            match error {
                Some(node) => Some(node@),
                None => None,
            },
            opt_string(message),
        ),
{
    match error {
        Some(node) => match json_error_message(&node) {
            Some(text) => Some(text),
            None => message,
        },
        None => message,
    }
}

fn member_text(value: &serde_json::Value, key: &str) -> (text: Option<String>)
    ensures
        opt_string(text) == leaf(text_leaves(*value), seq![key@]),
{
    let member = json_member(value, key);
    proof {
        let none = Seq::<Seq<char>>::empty();
        let under = leaves_under(text_leaves(*value), key@);
        assert(seq![key@] + none =~= seq![key@]);
        assert(under.dom().contains(none) == text_leaves(*value).dom().contains(seq![key@]));
    }
    match member {
        Some(inner) => json_text(inner),
        None => None,
    }
}

/// Reads the error that a response of the search service reports.
pub fn extract_api_error(response: &str) -> (report: Option<String>)
    ensures
        opt_string(report) == api_error(response@),
{
    let value = match parse_json(response) {
        Some(value) => value,
        None => {
            return None;
        },
    };
    let ghost leaves = text_leaves(value);
    let ghost none = Seq::<Seq<char>>::empty();
    let ghost under = leaves_under(leaves, "error"@);
    proof {
        assert(seq!["error"@] + none =~= seq!["error"@]);
        assert(seq!["error"@] + seq!["message"@] =~= seq!["error"@, "message"@]);
        assert(under.dom().contains(none) == leaves.dom().contains(seq!["error"@]));
        assert(under.dom().contains(seq!["message"@]) == leaves.dom().contains(
            seq!["error"@, "message"@],
        ));
    }
    let error = match json_member(&value, "error") {
        Some(inner) => Some(
            JsonNode { text: json_text(inner), message: member_text(inner, "message") },
        ),
        None => None,
    };
    choose_error(error, member_text(&value, "message"))
}

} // verus!
