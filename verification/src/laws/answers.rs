//! Laws of the documents that answer requests, and of what is exchanged with the
//! host for them.

use vstd::prelude::*;

use crate::decode::{decoded_input, may_decode_response, Decoder};
use crate::encode::{grouped, response_base64};
use crate::error::ErrorView;
use crate::format::OutputFormat;
use crate::host::{fetched, get_request};
use crate::html::content_of;
use crate::json::{
    api_error, error_document, escaped, header_document, json_string, node_message, parsed_leaves,
    reported_error, NodeView,
};
use crate::request::{
    fetch_options, screenshot_options, screenshot_url, search_options, search_url, stored_value,
    tool_named, BrowserInput, FetchView, InputView, ScreenshotView, SearchView, Tool,
};
use crate::search::{
    decoded_results, may_give_results, result_views, results_outcome, service_failure,
    BraveResponse, BraveResult, BraveWeb, ResultView, SearchResult,
};
use crate::session::Exchange;
use crate::skill::{
    answers, answers_fetch, answers_screenshot, answers_search, fetch_document, may_answer_response,
    result_object, result_objects, screenshot_document, search_document,
};
use crate::text::decimal;

verus! {

/// Texts one after the other, with commas between them.
pub open spec fn separated(parts: Seq<Seq<char>>) -> Seq<char>
    decreases parts.len(),
{
    if parts.len() == 0 {
        seq![]
    } else if parts.len() == 1 {
        parts[0]
    } else {
        separated(parts.drop_last()) + seq![','] + parts.last()
    }
}

/// A member of a JSON object: its name, and its value as it is written.
pub open spec fn member(name: Seq<char>, value: Seq<char>) -> Seq<char> {
    seq!['"'] + name + seq!['"', ':'] + value
}

/// A JSON object with the given members.
pub open spec fn object(members: Seq<Seq<char>>) -> Seq<char> {
    seq!['{'] + separated(members) + seq!['}']
}

/// A truth value in JSON.
pub open spec fn flag(value: bool) -> Seq<char> {
    if value {
        "true"@
    } else {
        "false"@
    }
}

proof fn lemma_separated_push(parts: Seq<Seq<char>>, part: Seq<char>)
    ensures
        separated(parts.push(part)) == (if parts.len() == 0 {
            part
        } else {
            separated(parts) + seq![','] + part
        }),
{
    assert(parts.push(part).drop_last() =~= parts);
}

/// The content of a page as a fetch hands it out: the whole content, or as much of
/// it as the request allows.
pub open spec fn handed_out(content: Seq<char>, max_length: usize) -> Seq<char> {
    content.take(
        if content.len() <= max_length {
            content.len() as int
        } else {
            max_length as int
        },
    )
}

proof fn lemma_fetch_parts(
    url: Seq<char>,
    format: Seq<char>,
    content: Seq<char>,
    length: Seq<char>,
    cut: Seq<char>,
    message: Seq<char>,
)
    ensures
        "{\"status\":\"success\",\"url\":"@ + url + ",\"format\":"@ + format + ",\"content\":"@
            + content + ",\"content_length\":"@ + length + ",\"truncated\":"@ + cut
            + ",\"message\":"@ + message + "}"@ == object(
            seq![
                member("status"@, "\"success\""@),
                member("url"@, url),
                member("format"@, format),
                member("content"@, content),
                member("content_length"@, length),
                member("truncated"@, cut),
                member("message"@, message),
            ],
        ),
{
    reveal_strlit("{\"status\":\"success\",\"url\":");
    reveal_strlit(",\"format\":");
    reveal_strlit(",\"content\":");
    reveal_strlit(",\"content_length\":");
    reveal_strlit(",\"truncated\":");
    reveal_strlit(",\"message\":");
    reveal_strlit("}");
    reveal_strlit("status");
    reveal_strlit("\"success\"");
    reveal_strlit("url");
    reveal_strlit("format");
    reveal_strlit("content");
    reveal_strlit("content_length");
    reveal_strlit("truncated");
    reveal_strlit("message");
    let m1 = seq![member("status"@, "\"success\""@)];
    let m2 = m1.push(member("url"@, url));
    let m3 = m2.push(member("format"@, format));
    let m4 = m3.push(member("content"@, content));
    let m5 = m4.push(member("content_length"@, length));
    let m6 = m5.push(member("truncated"@, cut));
    let m7 = m6.push(member("message"@, message));
    lemma_separated_push(m1, member("url"@, url));
    lemma_separated_push(m2, member("format"@, format));
    lemma_separated_push(m3, member("content"@, content));
    lemma_separated_push(m4, member("content_length"@, length));
    lemma_separated_push(m5, member("truncated"@, cut));
    lemma_separated_push(m6, member("message"@, message));
    let t1 = "{\"status\":\"success\",\"url\":"@;
    assert(t1 + url =~= seq!['{'] + separated(m2));
    assert(seq!['{'] + separated(m2) + ",\"format\":"@ + format =~= seq!['{'] + separated(m3));
    assert(seq!['{'] + separated(m3) + ",\"content\":"@ + content =~= seq!['{'] + separated(m4));
    assert(seq!['{'] + separated(m4) + ",\"content_length\":"@ + length =~= seq!['{'] + separated(
        m5,
    ));
    assert(seq!['{'] + separated(m5) + ",\"truncated\":"@ + cut =~= seq!['{'] + separated(m6));
    assert(seq!['{'] + separated(m6) + ",\"message\":"@ + message =~= seq!['{'] + separated(m7));
    assert("}"@ =~= seq!['}']);
    assert(m7 =~= seq![
        member("status"@, "\"success\""@),
        member("url"@, url),
        member("format"@, format),
        member("content"@, content),
        member("content_length"@, length),
        member("truncated"@, cut),
        member("message"@, message),
    ]);
}

/// The answer to a fetch is an object with exactly these members: among them the
/// content as far as the request allows, the number of its characters, and
/// whether the page had more, which is so exactly if its content is longer than
/// the request allows.
pub proof fn fetch_answer_tells_what_was_fetched(
    url: Seq<char>,
    format: OutputFormat,
    max_length: usize,
    html: Seq<char>,
)
    ensures
        ({
            let all = content_of(html, format);
            let content = handed_out(all, max_length);
            fetch_document(FetchView { url, format, max_length }, html) == object(
                seq![
                    member("status"@, "\"success\""@),
                    member("url"@, json_string(url)),
                    member(
                        "format"@,
                        if format == OutputFormat::Text {
                            json_string("text"@)
                        } else {
                            json_string("markdown"@)
                        },
                    ),
                    member("content"@, json_string(content)),
                    member("content_length"@, decimal(content.len())),
                    member("truncated"@, flag(all.len() > max_length)),
                    member(
                        "message"@,
                        json_string(
                            "\u{1F4C4} Fetched "@ + url + " ("@ + grouped(decimal(content.len()))
                                + " chars)"@,
                        ),
                    ),
                ],
            )
        }),
{
    let all = content_of(html, format);
    let content = handed_out(all, max_length);
    let message = "\u{1F4C4} Fetched "@ + url + " ("@ + grouped(decimal(content.len()))
        + " chars)"@;
    if all.len() <= max_length {
        assert(content =~= all);
    }
    let name = if format == OutputFormat::Text {
        json_string("text"@)
    } else {
        json_string("markdown"@)
    };
    lemma_fetch_parts(
        json_string(url),
        name,
        json_string(content),
        decimal(content.len()),
        flag(all.len() > max_length),
        json_string(message),
    );
}

/// A search result as a JSON object.
pub open spec fn result_as_object(result: ResultView) -> Seq<char> {
    object(
        seq![
            member("title"@, json_string(result.title)),
            member("url"@, json_string(result.url)),
            member("snippet"@, json_string(result.snippet)),
        ],
    )
}

proof fn lemma_result_object(title: Seq<char>, url: Seq<char>, snippet: Seq<char>)
    ensures
        "{\"title\":"@ + title + ",\"url\":"@ + url + ",\"snippet\":"@ + snippet + "}"@ == object(
            seq![member("title"@, title), member("url"@, url), member("snippet"@, snippet)],
        ),
{
    reveal_strlit("{\"title\":");
    reveal_strlit(",\"url\":");
    reveal_strlit(",\"snippet\":");
    reveal_strlit("}");
    reveal_strlit("title");
    reveal_strlit("url");
    reveal_strlit("snippet");
    let m1 = seq![member("title"@, title)];
    let m2 = m1.push(member("url"@, url));
    let m3 = m2.push(member("snippet"@, snippet));
    lemma_separated_push(m1, member("url"@, url));
    lemma_separated_push(m2, member("snippet"@, snippet));
    assert("{\"title\":"@ + title =~= seq!['{'] + separated(m1));
    assert(seq!['{'] + separated(m1) + ",\"url\":"@ + url =~= seq!['{'] + separated(m2));
    assert(seq!['{'] + separated(m2) + ",\"snippet\":"@ + snippet =~= seq!['{'] + separated(m3));
    assert("}"@ =~= seq!['}']);
    assert(m3 =~= seq![member("title"@, title), member("url"@, url), member("snippet"@, snippet)]);
}

proof fn lemma_result_objects(results: Seq<ResultView>)
    ensures
        result_objects(results) == separated(
            Seq::new(results.len(), |i: int| result_as_object(results[i])),
        ),
    decreases results.len(),
{
    let objects = Seq::new(results.len(), |i: int| result_as_object(results[i]));
    reveal_strlit(",");
    if results.len() > 0 {
        let last = results.last();
        lemma_result_object(
            json_string(last.title),
            json_string(last.url),
            json_string(last.snippet),
        );
        assert(result_object(last) == result_as_object(last));
        if results.len() > 1 {
            let head = results.drop_last();
            lemma_result_objects(head);
            assert(objects.drop_last() =~= Seq::new(
                head.len(),
                |i: int| result_as_object(head[i]),
            ));
            assert(","@ =~= seq![',']);
        }
    }
}

proof fn lemma_search_parts(
    query: Seq<char>,
    count: Seq<char>,
    results: Seq<char>,
    message: Seq<char>,
)
    ensures
        "{\"status\":\"success\",\"query\":"@ + query + ",\"count\":"@ + count + ",\"results\":["@
            + results + "],\"message\":"@ + message + "}"@ == object(
            seq![
                member("status"@, "\"success\""@),
                member("query"@, query),
                member("count"@, count),
                member("results"@, seq!['['] + results + seq![']']),
                member("message"@, message),
            ],
        ),
{
    reveal_strlit("{\"status\":\"success\",\"query\":");
    reveal_strlit(",\"count\":");
    reveal_strlit(",\"results\":[");
    reveal_strlit("],\"message\":");
    reveal_strlit("}");
    reveal_strlit("status");
    reveal_strlit("\"success\"");
    reveal_strlit("query");
    reveal_strlit("count");
    reveal_strlit("results");
    reveal_strlit("message");
    let list = seq!['['] + results + seq![']'];
    let m1 = seq![member("status"@, "\"success\""@)];
    let m2 = m1.push(member("query"@, query));
    let m3 = m2.push(member("count"@, count));
    let m4 = m3.push(member("results"@, list));
    let m5 = m4.push(member("message"@, message));
    lemma_separated_push(m1, member("query"@, query));
    lemma_separated_push(m2, member("count"@, count));
    lemma_separated_push(m3, member("results"@, list));
    lemma_separated_push(m4, member("message"@, message));
    assert("{\"status\":\"success\",\"query\":"@ + query =~= seq!['{'] + separated(m2));
    assert(seq!['{'] + separated(m2) + ",\"count\":"@ + count =~= seq!['{'] + separated(m3));
    let open = seq!['{'] + separated(m3) + ",\"results\":["@ + results;
    assert(open + seq![']'] =~= seq!['{'] + separated(m4));
    assert(open + "],\"message\":"@ + message =~= seq!['{'] + separated(m5));
    assert("}"@ =~= seq!['}']);
    assert(m5 =~= seq![
        member("status"@, "\"success\""@),
        member("query"@, query),
        member("count"@, count),
        member("results"@, list),
        member("message"@, message),
    ]);
}

/// The answer to a search is an object with exactly these members: the query, the
/// number of results, and every result, in order, with its title, its address and
/// its snippet.
pub proof fn search_answer_tells_what_was_found(query: Seq<char>, results: Seq<ResultView>)
    ensures
        search_document(query, results) == object(
            seq![
                member("status"@, "\"success\""@),
                member("query"@, json_string(query)),
                member("count"@, decimal(results.len())),
                member(
                    "results"@,
                    seq!['['] + separated(
                        Seq::new(results.len(), |i: int| result_as_object(results[i])),
                    ) + seq![']'],
                ),
                member(
                    "message"@,
                    json_string(
                        "\u{1F50D} Found "@ + decimal(results.len()) + " results for: "@ + query,
                    ),
                ),
            ],
        ),
{
    lemma_result_objects(results);
    lemma_search_parts(
        json_string(query),
        decimal(results.len()),
        separated(Seq::new(results.len(), |i: int| result_as_object(results[i]))),
        json_string("\u{1F50D} Found "@ + decimal(results.len()) + " results for: "@ + query),
    );
}

proof fn lemma_screenshot_parts(
    url: Seq<char>,
    width: Seq<char>,
    height: Seq<char>,
    image: Seq<char>,
    message: Seq<char>,
)
    ensures
        "{\"status\":\"success\",\"url\":"@ + url + ",\"width\":"@ + width + ",\"height\":"@
            + height + ",\"image_base64\":"@ + image + ",\"format\":\"png\",\"message\":"@
            + message + "}"@ == object(
            seq![
                member("status"@, "\"success\""@),
                member("url"@, url),
                member("width"@, width),
                member("height"@, height),
                member("image_base64"@, image),
                member("format"@, "\"png\""@),
                member("message"@, message),
            ],
        ),
{
    reveal_strlit("{\"status\":\"success\",\"url\":");
    reveal_strlit(",\"width\":");
    reveal_strlit(",\"height\":");
    reveal_strlit(",\"image_base64\":");
    reveal_strlit(",\"format\":\"png\",\"message\":");
    reveal_strlit("}");
    reveal_strlit("status");
    reveal_strlit("\"success\"");
    reveal_strlit("\"png\"");
    reveal_strlit("url");
    reveal_strlit("width");
    reveal_strlit("height");
    reveal_strlit("image_base64");
    reveal_strlit("format");
    reveal_strlit("message");
    let m1 = seq![member("status"@, "\"success\""@)];
    let m2 = m1.push(member("url"@, url));
    let m3 = m2.push(member("width"@, width));
    let m4 = m3.push(member("height"@, height));
    let m5 = m4.push(member("image_base64"@, image));
    let m6 = m5.push(member("format"@, "\"png\""@));
    let m7 = m6.push(member("message"@, message));
    lemma_separated_push(m1, member("url"@, url));
    lemma_separated_push(m2, member("width"@, width));
    lemma_separated_push(m3, member("height"@, height));
    lemma_separated_push(m4, member("image_base64"@, image));
    lemma_separated_push(m5, member("format"@, "\"png\""@));
    lemma_separated_push(m6, member("message"@, message));
    assert("{\"status\":\"success\",\"url\":"@ + url =~= seq!['{'] + separated(m2));
    assert(seq!['{'] + separated(m2) + ",\"width\":"@ + width =~= seq!['{'] + separated(m3));
    assert(seq!['{'] + separated(m3) + ",\"height\":"@ + height =~= seq!['{'] + separated(m4));
    assert(seq!['{'] + separated(m4) + ",\"image_base64\":"@ + image =~= seq!['{'] + separated(
        m5,
    ));
    assert(seq!['{'] + separated(m5) + ",\"format\":\"png\",\"message\":"@ + message =~= seq!['{']
        + separated(m7));
    assert("}"@ =~= seq!['}']);
    assert(m7 =~= seq![
        member("status"@, "\"success\""@),
        member("url"@, url),
        member("width"@, width),
        member("height"@, height),
        member("image_base64"@, image),
        member("format"@, "\"png\""@),
        member("message"@, message),
    ]);
}

/// The answer to a request for a screenshot is an object with exactly these
/// members: the address, the size, and the image in Base64.
pub proof fn screenshot_answer_tells_what_was_taken(options: ScreenshotView, response: Seq<char>)
    ensures
        screenshot_document(options, response) == object(
            seq![
                member("status"@, "\"success\""@),
                member("url"@, json_string(options.url)),
                member("width"@, decimal(options.viewport.width as nat)),
                member("height"@, decimal(options.viewport.height as nat)),
                member("image_base64"@, json_string(response_base64(response))),
                member("format"@, "\"png\""@),
                member(
                    "message"@,
                    json_string(
                        "\u{1F4F8} Screenshot of "@ + options.url + " ("@ + decimal(
                            options.viewport.width as nat,
                        ) + "x"@ + decimal(options.viewport.height as nat) + ")"@,
                    ),
                ),
            ],
        ),
{
    let width = decimal(options.viewport.width as nat);
    let height = decimal(options.viewport.height as nat);
    lemma_screenshot_parts(
        json_string(options.url),
        width,
        height,
        json_string(response_base64(response)),
        json_string(
            "\u{1F4F8} Screenshot of "@ + options.url + " ("@ + width + "x"@ + height + ")"@,
        ),
    );
}

/// The answer to a request that fails is an object with the message, and the
/// headers of a search are one with the key.
pub proof fn short_documents_have_their_members(text: Seq<char>)
    ensures
        error_document(text) == object(seq![member("error"@, json_string(text))]),
        header_document(text) == object(
            seq![
                member("Accept"@, "\"application/json\""@),
                member("X-Subscription-Token"@, json_string(text)),
            ],
        ),
{
    reveal_strlit("{\"error\":");
    reveal_strlit("error");
    reveal_strlit("}");
    reveal_strlit("{\"Accept\":\"application/json\",\"X-Subscription-Token\":");
    reveal_strlit("Accept");
    reveal_strlit("\"application/json\"");
    reveal_strlit("X-Subscription-Token");
    assert(error_document(text) =~= object(seq![member("error"@, json_string(text))]));
    let m1 = seq![member("Accept"@, "\"application/json\""@)];
    let m2 = m1.push(member("X-Subscription-Token"@, json_string(text)));
    lemma_separated_push(m1, member("X-Subscription-Token"@, json_string(text)));
    assert(m2 =~= seq![
        member("Accept"@, "\"application/json\""@),
        member("X-Subscription-Token"@, json_string(text)),
    ]);
    assert(header_document(text) =~= object(m2));
}

/// In a JSON string a character that needs no escape stands as it is.
pub proof fn ordinary_characters_are_not_escaped(s: Seq<char>)
    requires
        forall|i: int|
            0 <= i < s.len() ==> #[trigger] s[i] > '\u{1f}' && s[i] != '"' && s[i] != '\\',
    ensures
        json_string(s) == seq!['"'] + s + seq!['"'],
{
    lemma_not_escaped(s);
    reveal_strlit("\"");
    assert(json_string(s) =~= seq!['"'] + s + seq!['"']);
}

proof fn lemma_not_escaped(s: Seq<char>)
    requires
        forall|i: int|
            0 <= i < s.len() ==> #[trigger] s[i] > '\u{1f}' && s[i] != '"' && s[i] != '\\',
    ensures
        escaped(s) == s,
    decreases s.len(),
{
    if s.len() > 0 {
        assert(s[s.len() - 1] > '\u{1f}');
        lemma_not_escaped(s.drop_last());
        assert(escaped(s) =~= s);
    } else {
        assert(escaped(s) =~= s);
    }
}

/// The text of an optional string; the empty one without it.
pub open spec fn text_of(value: Option<String>) -> Seq<char> {
    if value is Some {
        value->0@
    } else {
        Seq::empty()
    }
}

/// Every result of a decoded response is handed on, none is added, and each keeps
/// its place and its title, address and description.
pub proof fn every_result_is_handed_on(results: Vec<BraveResult>)
    ensures
        ({
            let response = BraveResponse { web: Some(BraveWeb { results: Some(results) }) };
            let handed = decoded_results(Ok(response));
            &&& handed is Ok
            &&& handed->Ok_0.len() == results@.len()
            &&& forall|i: int|
                0 <= i < results@.len() ==> (#[trigger] handed->Ok_0[i]).title == text_of(
                    results@[i].title,
                ) && handed->Ok_0[i].url == text_of(results@[i].url) && handed->Ok_0[i].snippet
                    == text_of(results@[i].description)
        }),
{
    let response = BraveResponse { web: Some(BraveWeb { results: Some(results) }) };
    let handed = decoded_results(Ok(response));
    assert forall|i: int| 0 <= i < results@.len() implies (
    #[trigger] handed->Ok_0[i]).title == text_of(results@[i].title) && handed->Ok_0[i].url
        == text_of(results@[i].url) && handed->Ok_0[i].snippet == text_of(
        results@[i].description,
    ) by {
        assert(text_of(results@[i].title) =~= handed->Ok_0[i].title);
        assert(text_of(results@[i].url) =~= handed->Ok_0[i].url);
        assert(text_of(results@[i].description) =~= handed->Ok_0[i].snippet);
    }
}

/// A response without a list of results gives an empty list, and one that cannot
/// be decoded gives the reason.
pub proof fn other_responses_give_no_results(reason: String)
    ensures
        decoded_results(Ok(BraveResponse { web: None })) is Ok,
        decoded_results(Ok(BraveResponse { web: None }))->Ok_0.len() == 0,
        decoded_results(Ok(BraveResponse { web: Some(BraveWeb { results: None }) })) is Ok,
        decoded_results(Ok(BraveResponse { web: Some(BraveWeb { results: None }) }))->Ok_0.len()
            == 0,
        decoded_results(Err(reason)) == Err::<Seq<ResultView>, ErrorView>(
            ErrorView::ParseFailed("Failed to parse Brave search response: "@ + reason@),
        ),
        decoded_input(Err(reason)) == Err::<InputView, ErrorView>(
            ErrorView::InvalidInput("Invalid input JSON: "@ + reason@),
        ),
{
}

/// A decoded request is taken as it is.
pub proof fn decoded_request_is_taken(input: BrowserInput)
    ensures
        decoded_input(Ok(input)) == Ok::<InputView, ErrorView>(input@),
{
}

/// A list of results, as contracts see it, holds each result with its parts.
pub proof fn results_are_seen_as_they_are(results: Vec<SearchResult>, i: int)
    requires
        0 <= i < results@.len(),
    ensures
        result_views(results@).len() == results@.len(),
        result_views(results@)[i].title == results@[i].title@,
        result_views(results@)[i].url == results@[i].url@,
        result_views(results@)[i].snippet == results@[i].snippet@,
        results_outcome(Ok(results)) == Ok::<Seq<ResultView>, ErrorView>(result_views(results@)),
{
}

/// A response reports an error in one of three places, and the first of them that
/// holds a text is taken: the message in the error, the error itself, the message
/// beside it. A text that is no JSON document, and one without these, reports none.
pub proof fn error_report_is_found(response: Seq<char>)
    ensures
        parsed_leaves(response) is None ==> api_error(response) is None,
        parsed_leaves(response) matches Some(leaves) ==> {
            let inner = seq!["error"@, "message"@];
            let outer = seq!["error"@];
            let beside = seq!["message"@];
            api_error(response) == (if leaves.dom().contains(inner) {
                Some(leaves[inner])
            } else if leaves.dom().contains(outer) {
                Some(leaves[outer])
            } else if leaves.dom().contains(beside) {
                Some(leaves[beside])
            } else {
                None
            })
        },
{
}

/// Of an error value, its message comes before its own text; without either, the
/// message of the document is taken.
pub proof fn error_report_is_chosen(
    text: Option<Seq<char>>,
    inner: Option<Seq<char>>,
    beside: Option<Seq<char>>,
)
    ensures
        node_message(NodeView { text, message: inner }) == (if inner is Some {
            inner
        } else {
            text
        }),
        reported_error(Some(NodeView { text, message: inner }), beside) == (if inner is Some {
            inner
        } else if text is Some {
            text
        } else {
            beside
        }),
        reported_error(None, beside) == beside,
{
}

/// A response in which the service reports an error ends the search with that
/// error, whatever else it holds; any other response is decoded.
pub proof fn reported_error_ends_the_search<D: Decoder>(
    decoder: &D,
    options: SearchView,
    response: Seq<char>,
    answer: Result<Seq<char>, ErrorView>,
)
    ensures
        api_error(response) matches Some(message) ==> (may_answer_response(
            options,
            response,
            decoder,
            answer,
        ) <==> answer == Err::<Seq<char>, ErrorView>(
            ErrorView::RequestFailed(
                "Failed to fetch "@ + "https://api.search.brave.com/res/v1/web/search"@ + ": "@
                    + message,
            ),
        )),
{
    if let Some(message) = api_error(response) {
        let failed = Err::<Seq<ResultView>, ErrorView>(service_failure(message));
        assert(may_give_results(decoder, response, failed));
    }
}

/// A response that reports no error is answered with all of its results, or with
/// the reason why it could not be decoded.
pub proof fn response_is_answered_with_its_results<D: Decoder>(
    decoder: &D,
    options: SearchView,
    response: Seq<char>,
    answer: Result<Seq<char>, ErrorView>,
) -> (decoded: Result<BraveResponse, String>)
    requires
        api_error(response) is None,
        may_answer_response(options, response, decoder, answer),
    ensures
        may_decode_response(decoder, response, decoded),
        answer == (match decoded_results(decoded) {
            Ok(list) => Ok::<Seq<char>, ErrorView>(search_document(options.query, list)),
            Err(error) => Err(error),
        }),
{
    let results = choose|results: Result<Seq<ResultView>, ErrorView>| #[trigger]
        may_give_results(decoder, response, results) && answer == match results {
            Err(error) => Err::<Seq<char>, _>(error),
            Ok(list) => Ok(search_document(options.query, list)),
        };
    let decoded = choose|decoded: Result<BraveResponse, String>| #[trigger]
        may_decode_response(decoder, response, decoded) && results
            == decoded_results(decoded);
    decoded
}

/// A request is answered by the tool that it names.
pub proof fn request_is_answered_by_its_tool<D: Decoder>(
    input: InputView,
    decoder: &D,
    exchanges: Seq<Exchange>,
    answer: Result<Seq<char>, ErrorView>,
)
    ensures
        tool_named(input.tool) == Ok::<Tool, ErrorView>(Tool::Fetch) ==> (answers(
            input,
            decoder,
            exchanges,
            answer,
        ) <==> answers_fetch(input, exchanges, answer)),
        tool_named(input.tool) == Ok::<Tool, ErrorView>(Tool::Search) ==> (answers(
            input,
            decoder,
            exchanges,
            answer,
        ) <==> answers_search(input, decoder, exchanges, answer)),
        tool_named(input.tool) == Ok::<Tool, ErrorView>(Tool::Screenshot) ==> (answers(
            input,
            decoder,
            exchanges,
            answer,
        ) <==> answers_screenshot(input, exchanges, answer)),
{
}

/// What is sent to the host for an address: a plain request for it.
pub proof fn request_is_plain(url: Seq<char>, headers: Seq<char>, reply: Option<Seq<char>>)
    ensures
        get_request(url, headers).method == "GET"@,
        get_request(url, headers).url == url,
        get_request(url, headers).headers == headers,
        get_request(url, headers).body == ""@,
        reply matches Some(body) ==> fetched(url, reply) == Ok::<Seq<char>, ErrorView>(body),
        reply is None ==> fetched(url, reply) == Err::<Seq<char>, ErrorView>(
            ErrorView::RequestFailed("Failed to fetch "@ + url + ": request failed"@),
        ),
{
}

/// For a fetch, its address is requested without headers, and the page that comes
/// back is what the answer tells of; without a page the answer is a failure that
/// names the address.
pub proof fn fetch_asks_for_its_address(
    input: InputView,
    exchanges: Seq<Exchange>,
    answer: Result<Seq<char>, ErrorView>,
)
    requires
        fetch_options(input) is Ok,
        answers_fetch(input, exchanges, answer),
    ensures
        ({
            let options = fetch_options(input)->Ok_0;
            &&& exchanges.len() == 1
            &&& exchanges[0] matches Exchange::Sent { request, reply }
            &&& request.method == "GET"@ && request.url == options.url && request.headers == "{}"@
                && request.body == ""@
            &&& answer == (match reply {
                Some(html) => Ok::<Seq<char>, ErrorView>(fetch_document(options, html)),
                None => Err(
                    ErrorView::RequestFailed(
                        "Failed to fetch "@ + options.url + ": request failed"@,
                    ),
                ),
            })
        }),
{
}

/// For a search, the stored key of the service is asked for, and then the service
/// with the query and the key.
pub proof fn search_asks_with_its_key<D: Decoder>(
    input: InputView,
    decoder: &D,
    exchanges: Seq<Exchange>,
    answer: Result<Seq<char>, ErrorView>,
)
    requires
        search_options(input) is Ok,
        answers_search(input, decoder, exchanges, answer),
    ensures
        ({
            let options = search_options(input)->Ok_0;
            &&& exchanges.len() > 0
            &&& exchanges[0] matches Exchange::Stored { key, value }
            &&& key == "brave_api_key"@
            &&& match stored_value(
                value,
                "No Brave API key found. Set 'brave_api_key' in skill storage."@,
            ) {
                Err(error) => exchanges.len() == 1 && answer == Err::<Seq<char>, ErrorView>(error),
                Ok(api_key) => {
                    &&& exchanges.len() == 2
                    &&& exchanges[1] matches Exchange::Sent { request, reply }
                    &&& request.method == "GET"@ && request.url == search_url(options)
                        && request.headers == header_document(api_key) && request.body == ""@
                    &&& match reply {
                        None => answer == Err::<Seq<char>, ErrorView>(
                            ErrorView::RequestFailed(
                                "Failed to fetch "@ + search_url(options) + ": request failed"@,
                            ),
                        ),
                        Some(response) => may_answer_response(options, response, decoder, answer),
                    }
                },
            }
        }),
{
    if exchanges.len() > 1 {
        assert(exchanges.skip(1)[0] == exchanges[1]);
    }
}

/// For a screenshot, the stored address of the service is asked for, and then the
/// service with the page and the size.
pub proof fn screenshot_asks_its_service(
    input: InputView,
    exchanges: Seq<Exchange>,
    answer: Result<Seq<char>, ErrorView>,
)
    requires
        screenshot_options(input) is Ok,
        answers_screenshot(input, exchanges, answer),
    ensures
        ({
            let options = screenshot_options(input)->Ok_0;
            &&& exchanges.len() > 0
            &&& exchanges[0] matches Exchange::Stored { key, value }
            &&& key == "screenshot_service_url"@
            &&& match stored_value(
                value,
                "Screenshot requires a screenshot service. Set 'screenshot_service_url' in skill storage (e.g., a self-hosted url-to-png service)."@,
            ) {
                Err(error) => exchanges.len() == 1 && answer == Err::<Seq<char>, ErrorView>(error),
                Ok(service) => {
                    let url = screenshot_url(service, options);
                    &&& exchanges.len() == 2
                    &&& exchanges[1] matches Exchange::Sent { request, reply }
                    &&& request.method == "GET"@ && request.url == url && request.headers == "{}"@
                        && request.body == ""@
                    &&& answer == (match reply {
                        Some(response) => Ok::<Seq<char>, ErrorView>(
                            screenshot_document(options, response),
                        ),
                        None => Err(
                            ErrorView::RequestFailed(
                                "Failed to fetch "@ + url + ": request failed"@,
                            ),
                        ),
                    })
                },
            }
        }),
{
    if exchanges.len() > 1 {
        assert(exchanges.skip(1)[0] == exchanges[1]);
    }
}

} // verus!
