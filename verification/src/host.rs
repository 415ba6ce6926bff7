//! The host in which the skill runs: its storage, its network, and the strings
//! that it hands over.

use vstd::prelude::*;
use vstd::slice::slice_subrange;
use vstd::utf8::{decode_utf8, valid_utf8};

use crate::error::{text_outcome, BrowserError, ErrorView};
use crate::session::{Exchange, Session};
use crate::text::{opt_string, owned};

verus! {

/// The greatest length of a string that the host hands over.
pub const MAX_HOST_STRING_LEN: usize = 1_048_576;

/// An HTTP request.
pub struct HttpRequest<'a> {
    pub method: &'a str,
    pub url: &'a str,
    pub headers: &'a str,
    pub body: &'a str,
}

/// An HTTP request with its parts as sequences of characters.
pub struct RequestView {
    pub method: Seq<char>,
    pub url: Seq<char>,
    pub headers: Seq<char>,
    pub body: Seq<char>,
}

impl<'a> View for HttpRequest<'a> {
    type V = RequestView;

    open spec fn view(&self) -> RequestView {
        RequestView {
            method: self.method@,
            url: self.url@,
            headers: self.headers@,
            body: self.body@,
        }
    }
}

/// What the skill asks of its host. Nothing is promised of the answers.
pub trait HostBridge {
    /// The stored value of a key.
    fn kv_get(&self, key: &str) -> Option<String>;

    /// The body of the response to a request.
    fn http_request(&self, request: &HttpRequest<'_>) -> Option<String>;
}

/// Whether a host, asked for the value of a key, may answer with `value`.
pub open spec fn may_store<H: HostBridge>(
    host: &H,
    key: Seq<char>,
    value: Option<Seq<char>>,
) -> bool {
    exists|asked: &str, answer: Option<String>| #[trigger]
        call_ensures(H::kv_get, (host, asked), answer) && asked@ == key && opt_string(answer)
            == value
}

/// Whether a host, sent a request, may answer with `reply`.
pub open spec fn may_reply<H: HostBridge>(
    host: &H,
    request: RequestView,
    reply: Option<Seq<char>>,
) -> bool {
    exists|sent: HttpRequest<'_>, answer: Option<String>| #[trigger]
        call_ensures(H::http_request, (host, &sent), answer) && sent@ == request && opt_string(
            answer,
        ) == reply
}

/// The request for the resource at an address.
pub open spec fn get_request(url: Seq<char>, headers: Seq<char>) -> RequestView {
    RequestView { method: "GET"@, url, headers, body: ""@ }
}

/// What becomes of the reply to a request for an address: its body, or an error
/// that names the address if there is no reply.
pub open spec fn fetched(url: Seq<char>, reply: Option<Seq<char>>) -> Result<
    Seq<char>,
    ErrorView,
> {
    match reply {
        Some(body) => Ok(body),
        None => Err(
            ErrorView::RequestFailed("Failed to fetch "@ + url + ": request failed"@),
        ),
    }
}

/// Whether the only exchange is the request for the resource at an address, and
/// `body` is what becomes of its reply.
pub open spec fn requested(
    url: Seq<char>,
    headers: Seq<char>,
    exchanges: Seq<Exchange>,
    body: Result<Seq<char>, ErrorView>,
) -> bool {
    &&& exchanges.len() == 1
    &&& exchanges[0] matches Exchange::Sent { request, reply }
    &&& request == get_request(url, headers)
    &&& body == fetched(url, reply)
}

/// Takes the reply to a request for an address.
pub fn take_reply(url: &str, reply: Option<String>) -> (body: Result<String, BrowserError>)
    ensures
        text_outcome(body) == fetched(url@, opt_string(reply)),
{
    match reply {
        Some(body) => Ok(body),
        None => {
            let mut message = owned("Failed to fetch ");
            message.append(url);
            message.append(": request failed");
            Err(BrowserError::RequestFailed(message))
        },
    }
}

/// Requests the resource at an address.
pub fn http_get<H: HostBridge>(
    session: &mut Session<'_, H>,
    url: &str,
    headers: &str,
) -> (body: Result<String, BrowserError>)
    ensures
        final(session).continues(*old(session)),
        requested(
            url@,
            headers@,
            final(session).since(*old(session)),
            text_outcome(body),
        ),
{
    let request = HttpRequest { method: "GET", url, headers, body: "" };
    let reply = session.send(&request);
    take_reply(url, reply)
}

/// What `String::from_utf8_lossy` makes of a sequence of bytes.
pub uninterp spec fn lossy_text(bytes: Seq<u8>) -> Seq<char>;

/// `String::from_utf8_lossy`: bytes that are valid UTF-8 give their text. Of
/// other bytes nothing is said but that the text depends on them alone.
#[verifier::external_body]
fn decode_lossy(bytes: &[u8]) -> (text: String)
    ensures
        text@ == lossy_text(bytes@),
        valid_utf8(bytes@) ==> text@ == decode_utf8(bytes@),
{
    String::from_utf8_lossy(bytes).into_owned()
}

/// The bytes of a string that the host hands over: those before the first zero
/// byte.
pub open spec fn before_zero(memory: Seq<u8>) -> Seq<u8>
    decreases memory.len(),
{
    if memory.len() == 0 || memory[0] == 0 {
        seq![]
    } else {
        seq![memory[0]] + before_zero(memory.skip(1))
    }
}

/// The part of the memory from the start of a string on that is looked at.
pub open spec fn host_window(memory: Seq<u8>) -> Seq<u8> {
    if memory.len() > MAX_HOST_STRING_LEN {
        memory.take(MAX_HOST_STRING_LEN as int)
    } else {
        memory
    }
}

/// Reads a string that the host hands over, given the memory from its start on:
/// up to the first zero byte, or up to the greatest length.
pub fn decode_host_string(memory: &[u8]) -> (text: String)
    ensures
        text@ == lossy_text(before_zero(host_window(memory@))),
        valid_utf8(before_zero(host_window(memory@))) ==> text@ == decode_utf8(
            before_zero(host_window(memory@)),
        ),
{
    let window = if memory.len() > MAX_HOST_STRING_LEN {
        slice_subrange(memory, 0, MAX_HOST_STRING_LEN)
    } else {
        memory
    };
    let mut len: usize = 0;
    assert(window@.skip(0) =~= window@);
    assert(window@ =~= host_window(memory@));
    assert(before_zero(window@) =~= window@.take(0) + before_zero(window@));
    while len < window.len() && window[len] != 0
        invariant
            len <= window@.len(),
            before_zero(window@) == window@.take(len as int) + before_zero(
                window@.skip(len as int),
            ),
        decreases window@.len() - len,
    {
        assert(window@.skip(len as int).skip(1) =~= window@.skip(len + 1));
        assert(window@.take(len as int) + (seq![window@[len as int]] + before_zero(
            window@.skip(len + 1),
        )) =~= window@.take(len + 1) + before_zero(window@.skip(len + 1)));
        len += 1;
    }
    assert(before_zero(window@) =~= window@.take(len as int));
    decode_lossy(slice_subrange(window, 0, len))
}

} // verus!
