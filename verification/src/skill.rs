//! The tools of the skill: from a request to the document that answers it.

use vstd::prelude::*;

use crate::decode::{decoded_input, may_decode_input, parse_input, Decoder};
use crate::encode::{comma_number, grouped, response_base64, response_binary_base64};
use crate::error::{text_outcome, BrowserError, ErrorView};
use crate::format::format_name;
use crate::host::{http_get, requested, HostBridge};
use crate::html::{content_of, extract_content};
use crate::json::{
    error_document, error_output, header_document, json_string, push_json, search_headers,
};
use crate::normalize::truncate_content;
use crate::request::{
    build_screenshot_url, build_search_url, fetch_options, parse_fetch_options,
    parse_screenshot_options, parse_search_options, require_stored_value, screenshot_options,
    screenshot_url, search_options, search_url, stored_value, tool_named, BrowserInput,
    FetchOptions, FetchView, InputView, ScreenshotOptions, ScreenshotView, SearchOptions,
    SearchView, Tool,
};
use crate::search::{
    may_give_results, parse_search_results, result_views, results_outcome, ResultView, SearchResult,
};
use crate::session::{lemma_no_part, lemma_parts, Exchange, Session};
use crate::text::{as_text, decimal, owned, push_decimal, to_chars};

verus! {

/// The headers of a request that needs none.
pub const EMPTY_JSON: &'static str = "{}";

/// The key under which the key of the search service is stored.
pub const API_KEY_NAME: &'static str = "brave_api_key";

/// The key under which the address of the screenshot service is stored.
pub const SERVICE_URL_NAME: &'static str = "screenshot_service_url";

/// What a search without a key of the search service is answered.
pub const NO_API_KEY: &'static str =
    "No Brave API key found. Set 'brave_api_key' in skill storage.";

/// What a request for a screenshot without a screenshot service is answered.
pub const NO_SERVICE_URL: &'static str =
    "Screenshot requires a screenshot service. Set 'screenshot_service_url' in skill storage (e.g., a self-hosted url-to-png service).";

/// The content of a fetched document: extracted and cut to the length that the
/// request allows.
pub open spec fn fetched_content(options: FetchView, html: Seq<char>) -> Seq<char> {
    let content = content_of(html, options.format);
    if content.len() > options.max_length {
        content.take(options.max_length as int)
    } else {
        content
    }
}

/// Whether the content of a fetched document is cut off.
pub open spec fn is_cut(options: FetchView, html: Seq<char>) -> bool {
    content_of(html, options.format).len() > options.max_length
}

/// The document that answers a fetch.
pub open spec fn fetch_document(options: FetchView, html: Seq<char>) -> Seq<char> {
    let content = fetched_content(options, html);
    let message = "\u{1F4C4} Fetched "@ + options.url + " ("@ + grouped(decimal(content.len()))
        + " chars)"@;
    "{\"status\":\"success\",\"url\":"@ + json_string(options.url) + ",\"format\":"@
        + json_string(format_name(options.format)) + ",\"content\":"@ + json_string(content)
        + ",\"content_length\":"@ + decimal(content.len()) + ",\"truncated\":"@ + (if is_cut(
        options,
        html,
    ) {
        "true"@
    } else {
        "false"@
    }) + ",\"message\":"@ + json_string(message) + "}"@
}

/// A search result as a JSON object.
pub open spec fn result_object(result: ResultView) -> Seq<char> {
    "{\"title\":"@ + json_string(result.title) + ",\"url\":"@ + json_string(result.url)
        + ",\"snippet\":"@ + json_string(result.snippet) + "}"@
}

/// Search results as JSON objects with commas between them.
pub open spec fn result_objects(results: Seq<ResultView>) -> Seq<char>
    decreases results.len(),
{
    if results.len() == 0 {
        seq![]
    } else if results.len() == 1 {
        result_object(results[0])
    } else {
        result_objects(results.drop_last()) + ","@ + result_object(results.last())
    }
}

/// The document that answers a search.
pub open spec fn search_document(query: Seq<char>, results: Seq<ResultView>) -> Seq<char> {
    let message = "\u{1F50D} Found "@ + decimal(results.len()) + " results for: "@ + query;
    "{\"status\":\"success\",\"query\":"@ + json_string(query) + ",\"count\":"@ + decimal(
        results.len(),
    ) + ",\"results\":["@ + result_objects(results) + "],\"message\":"@ + json_string(message)
        + "}"@
}

/// The document that answers a request for a screenshot.
pub open spec fn screenshot_document(options: ScreenshotView, response: Seq<char>) -> Seq<char> {
    let width = decimal(options.viewport.width as nat);
    let height = decimal(options.viewport.height as nat);
    let message = "\u{1F4F8} Screenshot of "@ + options.url + " ("@ + width + "x"@ + height + ")"@;
    "{\"status\":\"success\",\"url\":"@ + json_string(options.url) + ",\"width\":"@ + width
        + ",\"height\":"@ + height + ",\"image_base64\":"@ + json_string(
        response_base64(response),
    ) + ",\"format\":\"png\",\"message\":"@ + json_string(message) + "}"@
}

/// Whether `answer` answers a fetch and `exchanges` is all that is asked of the
/// host for it: nothing for a wrong request, which is answered with its error,
/// else the page, once.
pub open spec fn answers_fetch(
    input: InputView,
    exchanges: Seq<Exchange>,
    answer: Result<Seq<char>, ErrorView>,
) -> bool {
    match fetch_options(input) {
        Err(error) => exchanges.len() == 0 && answer == Err::<Seq<char>, _>(error),
        Ok(options) => exists|body: Result<Seq<char>, ErrorView>| #[trigger]
            requested(options.url, EMPTY_JSON@, exchanges, body) && answer == match body {
                Err(error) => Err::<Seq<char>, _>(error),
                Ok(html) => Ok(fetch_document(options, html)),
            },
    }
}

/// Whether a search to which the service has responded may be answered with
/// `answer`.
pub open spec fn may_answer_response<D: Decoder>(
    options: SearchView,
    response: Seq<char>,
    decoder: &D,
    answer: Result<Seq<char>, ErrorView>,
) -> bool {
    exists|results: Result<Seq<ResultView>, ErrorView>| #[trigger]
        may_give_results(decoder, response, results) && answer == match results {
            Err(error) => Err::<Seq<char>, _>(error),
            Ok(list) => Ok(search_document(options.query, list)),
        }
}

/// Whether `answer` answers a search whose options and key are there, and
/// `exchanges` is all that is asked of the host for it: the service, once.
pub open spec fn answers_query<D: Decoder>(
    options: SearchView,
    api_key: Seq<char>,
    decoder: &D,
    exchanges: Seq<Exchange>,
    answer: Result<Seq<char>, ErrorView>,
) -> bool {
    exists|body: Result<Seq<char>, ErrorView>| #[trigger]
        requested(search_url(options), header_document(api_key), exchanges, body) && match body {
            Err(error) => answer == Err::<Seq<char>, _>(error),
            Ok(response) => may_answer_response(options, response, decoder, answer),
        }
}

/// Whether `answer` answers a search and `exchanges` is all that is asked of the
/// host for it: nothing for a wrong request; only the key of the service if there
/// is none; else the key and then the service.
pub open spec fn answers_search<D: Decoder>(
    input: InputView,
    decoder: &D,
    exchanges: Seq<Exchange>,
    answer: Result<Seq<char>, ErrorView>,
) -> bool {
    match search_options(input) {
        Err(error) => exchanges.len() == 0 && answer == Err::<Seq<char>, _>(error),
        Ok(options) => {
            &&& exchanges.len() > 0
            &&& exchanges[0] matches Exchange::Stored { key, value }
            &&& key == API_KEY_NAME@
            &&& match stored_value(value, NO_API_KEY@) {
                Err(error) => exchanges.len() == 1 && answer == Err::<Seq<char>, _>(error),
                Ok(api_key) => answers_query(options, api_key, decoder, exchanges.skip(1), answer),
            }
        },
    }
}

/// Whether `answer` answers a request for a screenshot whose options and service
/// are there, and `exchanges` is all that is asked of the host for it: the
/// service, once.
pub open spec fn answers_shot(
    options: ScreenshotView,
    service: Seq<char>,
    exchanges: Seq<Exchange>,
    answer: Result<Seq<char>, ErrorView>,
) -> bool {
    exists|body: Result<Seq<char>, ErrorView>| #[trigger]
        requested(screenshot_url(service, options), EMPTY_JSON@, exchanges, body) && answer
            == match body {
            Err(error) => Err::<Seq<char>, _>(error),
            Ok(response) => Ok(screenshot_document(options, response)),
        }
}

/// Whether `answer` answers a request for a screenshot and `exchanges` is all that
/// is asked of the host for it: nothing for a wrong request; only the address of
/// the service if there is none; else the address and then the service.
pub open spec fn answers_screenshot(
    input: InputView,
    exchanges: Seq<Exchange>,
    answer: Result<Seq<char>, ErrorView>,
) -> bool {
    match screenshot_options(input) {
        Err(error) => exchanges.len() == 0 && answer == Err::<Seq<char>, _>(error),
        Ok(options) => {
            &&& exchanges.len() > 0
            &&& exchanges[0] matches Exchange::Stored { key, value }
            &&& key == SERVICE_URL_NAME@
            &&& match stored_value(value, NO_SERVICE_URL@) {
                Err(error) => exchanges.len() == 1 && answer == Err::<Seq<char>, _>(error),
                Ok(service) => answers_shot(options, service, exchanges.skip(1), answer),
            }
        },
    }
}

/// Whether `answer` answers a request and `exchanges` is all that is asked of the
/// host for it: by the tool that the request names; with an error, and nothing
/// asked, if it names none.
pub open spec fn answers<D: Decoder>(
    input: InputView,
    decoder: &D,
    exchanges: Seq<Exchange>,
    answer: Result<Seq<char>, ErrorView>,
) -> bool {
    match tool_named(input.tool) {
        Err(error) => exchanges.len() == 0 && answer == Err::<Seq<char>, _>(error),
        Ok(Tool::Fetch) => answers_fetch(input, exchanges, answer),
        Ok(Tool::Search) => answers_search(input, decoder, exchanges, answer),
        Ok(Tool::Screenshot) => answers_screenshot(input, exchanges, answer),
    }
}

/// Writes the document that answers a fetch.
pub fn fetch_answer(options: &FetchOptions, html: &str) -> (document: String)
    ensures
        document@ == fetch_document(options@, html@),
{
    let extracted = extract_content(html, options.format);
    let (content, truncated) = truncate_content(extracted.as_str(), options.max_length);
    let length: usize = to_chars(content.as_str()).len();
    let number = comma_number(length);
    let mut message = owned("\u{1F4C4} Fetched ");
    message.append(options.url.as_str());
    message.append(" (");
    message.append(number.as_str());
    message.append(" chars)");
    let mut document = owned("{\"status\":\"success\",\"url\":");
    push_json(&mut document, options.url.as_str());
    document.append(",\"format\":");
    push_json(&mut document, options.format.as_str());
    document.append(",\"content\":");
    push_json(&mut document, content.as_str());
    document.append(",\"content_length\":");
    push_decimal(&mut document, length as u64);
    document.append(",\"truncated\":");
    if truncated {
        document.append("true");
    } else {
        document.append("false");
    }
    document.append(",\"message\":");
    push_json(&mut document, message.as_str());
    document.append("}");
    document
}

fn push_result(out: &mut String, result: &SearchResult)
    ensures
        final(out)@ == old(out)@ + result_object(result@),
{
    let mut object = owned("{\"title\":");
    push_json(&mut object, result.title.as_str());
    object.append(",\"url\":");
    push_json(&mut object, result.url.as_str());
    object.append(",\"snippet\":");
    push_json(&mut object, result.snippet.as_str());
    object.append("}");
    out.append(object.as_str());
}

fn result_list(results: &Vec<SearchResult>) -> (objects: String)
    ensures
        objects@ == result_objects(result_views(results@)),
{
    let ghost views = result_views(results@);
    let mut objects = String::new();
    for i in 0..results.len()
        invariant
            views == result_views(results@),
            objects@ == result_objects(views.take(i as int)),
    {
        assert(views.take(i + 1).drop_last() =~= views.take(i as int));
        let ghost before = objects@;
        if i > 0 {
            objects.append(",");
        }
        push_result(&mut objects, &results[i]);
        assert(objects@ =~= result_objects(views.take(i + 1)));
    }
    assert(views.take(views.len() as int) =~= views);
    objects
}

/// Writes the document that answers a search.
pub fn search_answer(options: &SearchOptions, results: &Vec<SearchResult>) -> (document: String)
    ensures
        document@ == search_document(options@.query, result_views(results@)),
{
    let count: usize = results.len();
    let objects = result_list(results);
    let mut message = owned("\u{1F50D} Found ");
    push_decimal(&mut message, count as u64);
    message.append(" results for: ");
    message.append(options.query.as_str());
    let mut document = owned("{\"status\":\"success\",\"query\":");
    push_json(&mut document, options.query.as_str());
    document.append(",\"count\":");
    push_decimal(&mut document, count as u64);
    document.append(",\"results\":[");
    document.append(objects.as_str());
    document.append("],\"message\":");
    push_json(&mut document, message.as_str());
    document.append("}");
    document
}

/// Writes the document that answers a request for a screenshot.
pub fn screenshot_answer(options: &ScreenshotOptions, response: &str) -> (document: String)
    ensures
        document@ == screenshot_document(options@, response@),
{
    let image = response_binary_base64(response);
    let width: u64 = options.viewport.width as u64;
    let height: u64 = options.viewport.height as u64;
    let mut message = owned("\u{1F4F8} Screenshot of ");
    message.append(options.url.as_str());
    message.append(" (");
    push_decimal(&mut message, width);
    message.append("x");
    push_decimal(&mut message, height);
    message.append(")");
    let mut document = owned("{\"status\":\"success\",\"url\":");
    push_json(&mut document, options.url.as_str());
    document.append(",\"width\":");
    push_decimal(&mut document, width);
    document.append(",\"height\":");
    push_decimal(&mut document, height);
    document.append(",\"image_base64\":");
    push_json(&mut document, image.as_str());
    document.append(",\"format\":\"png\",\"message\":");
    push_json(&mut document, message.as_str());
    document.append("}");
    document
}

/// Answers a fetch.
pub fn execute_fetch<H: HostBridge>(input: &BrowserInput, session: &mut Session<'_, H>) -> (answer:
    Result<String, BrowserError>)
    ensures
        final(session).continues(*old(session)),
        answers_fetch(input@, final(session).since(*old(session)), text_outcome(answer)),
{
    proof {
        lemma_no_part(*session);
    }
    let options = match parse_fetch_options(input) {
        Ok(options) => options,
        Err(error) => {
            return Err(error);
        },
    };
    let body = http_get(session, options.url.as_str(), EMPTY_JSON);
    assert(requested(
        options@.url,
        EMPTY_JSON@,
        session.since(*old(session)),
        text_outcome(body),
    ));
    match body {
        Ok(html) => Ok(fetch_answer(&options, html.as_str())),
        Err(error) => Err(error),
    }
}

/// Answers a search, given the response of the search service.
pub fn answer_response<D: Decoder>(
    options: &SearchOptions,
    response: &str,
    decoder: &D,
) -> (answer: Result<String, BrowserError>)
    ensures
        may_answer_response(options@, response@, decoder, text_outcome(answer)),
{
    let results = parse_search_results(response, decoder);
    assert(may_give_results(decoder, response@, results_outcome(results)));
    match results {
        Ok(list) => Ok(search_answer(options, &list)),
        Err(error) => Err(error),
    }
}

/// Answers a search, given the key of the search service.
pub fn query_service<H: HostBridge, D: Decoder>(
    options: &SearchOptions,
    api_key: &str,
    session: &mut Session<'_, H>,
    decoder: &D,
) -> (answer: Result<String, BrowserError>)
    ensures
        final(session).continues(*old(session)),
        answers_query(
            options@,
            api_key@,
            decoder,
            final(session).since(*old(session)),
            text_outcome(answer),
        ),
{
    let url = build_search_url(options);
    let headers = search_headers(api_key);
    match http_get(session, url.as_str(), headers.as_str()) {
        Ok(response) => answer_response(options, response.as_str(), decoder),
        Err(error) => Err(error),
    }
}

/// Answers a search.
pub fn execute_search<H: HostBridge, D: Decoder>(
    input: &BrowserInput,
    session: &mut Session<'_, H>,
    decoder: &D,
) -> (answer: Result<String, BrowserError>)
    ensures
        final(session).continues(*old(session)),
        answers_search(
            input@,
            decoder,
            final(session).since(*old(session)),
            text_outcome(answer),
        ),
{
    let ghost start = *session;
    proof {
        lemma_no_part(start);
    }
    let options = match parse_search_options(input) {
        Ok(options) => options,
        Err(error) => {
            return Err(error);
        },
    };
    let stored = session.read_stored(API_KEY_NAME);
    let ghost middle = *session;
    let api_key = match require_stored_value(stored, NO_API_KEY) {
        Ok(api_key) => api_key,
        Err(error) => {
            return Err(error);
        },
    };
    let answer = query_service(&options, api_key.as_str(), session, decoder);
    proof {
        lemma_parts(start, middle, *session);
        assert(session.since(start).skip(1) =~= session.since(middle));
    }
    answer
}

/// Answers a request for a screenshot, given the address of the screenshot
/// service.
pub fn take_screenshot<H: HostBridge>(
    options: &ScreenshotOptions,
    service_url: &str,
    session: &mut Session<'_, H>,
) -> (answer: Result<String, BrowserError>)
    ensures
        final(session).continues(*old(session)),
        answers_shot(
            options@,
            service_url@,
            final(session).since(*old(session)),
            text_outcome(answer),
        ),
{
    let url = build_screenshot_url(service_url, options);
    match http_get(session, url.as_str(), EMPTY_JSON) {
        Ok(response) => Ok(screenshot_answer(options, response.as_str())),
        Err(error) => Err(error),
    }
}

/// Answers a request for a screenshot.
pub fn execute_screenshot<H: HostBridge>(
    input: &BrowserInput,
    session: &mut Session<'_, H>,
) -> (answer: Result<String, BrowserError>)
    ensures
        final(session).continues(*old(session)),
        answers_screenshot(input@, final(session).since(*old(session)), text_outcome(answer)),
{
    let ghost start = *session;
    proof {
        lemma_no_part(start);
    }
    let options = match parse_screenshot_options(input) {
        Ok(options) => options,
        Err(error) => {
            return Err(error);
        },
    };
    let stored = session.read_stored(SERVICE_URL_NAME);
    let ghost middle = *session;
    let service_url = match require_stored_value(stored, NO_SERVICE_URL) {
        Ok(service_url) => service_url,
        Err(error) => {
            return Err(error);
        },
    };
    let answer = take_screenshot(&options, service_url.as_str(), session);
    proof {
        lemma_parts(start, middle, *session);
        assert(session.since(start).skip(1) =~= session.since(middle));
    }
    answer
}

/// Answers a decoded request.
pub fn execute_input<H: HostBridge, D: Decoder>(
    input: &BrowserInput,
    session: &mut Session<'_, H>,
    decoder: &D,
) -> (answer: Result<String, BrowserError>)
    ensures
        final(session).continues(*old(session)),
        answers(input@, decoder, final(session).since(*old(session)), text_outcome(answer)),
{
    proof {
        lemma_no_part(*session);
    }
    match Tool::parse(as_text(&input.tool)) {
        Ok(tool) => match tool {
            Tool::Fetch => execute_fetch(input, session),
            Tool::Search => execute_search(input, session, decoder),
            Tool::Screenshot => execute_screenshot(input, session),
        },
        Err(error) => Err(error),
    }
}

/// Answers a request.
pub fn execute_with_host<H: HostBridge, D: Decoder>(
    raw_input: &str,
    session: &mut Session<'_, H>,
    decoder: &D,
) -> (answer: Result<String, BrowserError>)
    ensures
        final(session).continues(*old(session)),
        exists|decoded: Result<BrowserInput, String>| #[trigger]
            may_decode_input(decoder, raw_input@, decoded) && match decoded_input(decoded) {
                Err(error) => final(session).since(*old(session)).len() == 0 && text_outcome(answer)
                    == Err::<Seq<char>, _>(error),
                Ok(input) => answers(
                    input,
                    decoder,
                    final(session).since(*old(session)),
                    text_outcome(answer),
                ),
            },
{
    proof {
        lemma_no_part(*session);
    }
    match parse_input(raw_input, decoder) {
        Ok(input) => execute_input(&input, session, decoder),
        Err(error) => Err(error),
    }
}

/// What a run hands back to its host: the output, and the message to log if the
/// request was not answered.
#[derive(Debug, PartialEq, Eq)]
pub struct Report {
    pub output: String,
    pub logged: Option<String>,
}

/// Reports the outcome of a run.
pub fn report(answer: Result<String, BrowserError>) -> (result: Report)
    ensures
        match text_outcome(answer) {
            Ok(document) => result.output@ == document && result.logged is None,
            Err(error) => {
                &&& result.output@ == error_document(error.message())
                &&& result.logged matches Some(message) && message@ == error.message()
            },
        },
{
    match answer {
        Ok(output) => Report { output, logged: None },
        Err(error) => Report { output: error_output(&error), logged: Some(error.to_string()) },
    }
}

} // verus!
