//! Responses of the search service.

use vstd::prelude::*;

use crate::decode::{decode_with, may_decode_response, Decoder};
use crate::error::{BrowserError, ErrorView};
use crate::json::{api_error, extract_api_error};
use crate::request::BRAVE_SEARCH_URL;
use crate::text::owned;

verus! {

/// A response of the search service.
#[derive(Debug, PartialEq, Eq)]
pub struct BraveResponse {
    pub web: Option<BraveWeb>,
}

/// The web part of a response.
#[derive(Debug, PartialEq, Eq)]
pub struct BraveWeb {
    pub results: Option<Vec<BraveResult>>,
}

/// A result in a response.
#[derive(Debug, PartialEq, Eq)]
pub struct BraveResult {
    pub title: Option<String>,
    pub url: Option<String>,
    pub description: Option<String>,
}

/// A search result as it is handed on.
#[derive(Debug, PartialEq, Eq)]
pub struct SearchResult {
    pub title: String,
    pub url: String,
    pub snippet: String,
}

/// A search result with its parts as sequences of characters.
pub struct ResultView {
    pub title: Seq<char>,
    pub url: Seq<char>,
    pub snippet: Seq<char>,
}

impl View for SearchResult {
    type V = ResultView;

    open spec fn view(&self) -> ResultView {
        ResultView { title: self.title@, url: self.url@, snippet: self.snippet@ }
    }
}

/// An optional text, or the empty one.
pub open spec fn or_empty(value: Option<String>) -> Seq<char> {
    match value {
        Some(text) => text@,
        None => seq![],
    }
}

/// A result of a response as it is handed on: what it lacks is empty.
pub open spec fn result_of(result: BraveResult) -> ResultView {
    ResultView {
        title: or_empty(result.title),
        url: or_empty(result.url),
        snippet: or_empty(result.description),
    }
}

/// The results of a response, in their order; none if a part that leads to them
/// is missing.
pub open spec fn results_of(response: BraveResponse) -> Seq<ResultView> {
    match response.web {
        Some(web) => match web.results {
            Some(results) => results@.map_values(|result: BraveResult| result_of(result)),
            None => seq![],
        },
        None => seq![],
    }
}

/// The views of a list of results.
pub open spec fn result_views(results: Seq<SearchResult>) -> Seq<ResultView> {
    results.map_values(|result: SearchResult| result@)
}

/// The model of a result list or an error.
pub open spec fn results_outcome(results: Result<Vec<SearchResult>, BrowserError>) -> Result<
    Seq<ResultView>,
    ErrorView,
> {
    match results {
        Ok(list) => Ok(result_views(list@)),
        Err(error) => Err(error@),
    }
}

/// The error for a response in which the search service reports one.
pub open spec fn service_failure(message: Seq<char>) -> ErrorView {
    ErrorView::RequestFailed("Failed to fetch "@ + BRAVE_SEARCH_URL@ + ": "@ + message)
}

/// The results in a decoded response, or the error for one that cannot be
/// decoded.
pub open spec fn decoded_results(decoded: Result<BraveResponse, String>) -> Result<
    Seq<ResultView>,
    ErrorView,
> {
    match decoded {
        Ok(response) => Ok(results_of(response)),
        Err(reason) => Err(
            ErrorView::ParseFailed("Failed to parse Brave search response: "@ + reason@),
        ),
    }
}

/// Whether reading the results in a response may end in `results`: an error that
/// the service reports comes first, else what the decoder gives decides.
pub open spec fn may_give_results<D: Decoder>(
    decoder: &D,
    response: Seq<char>,
    results: Result<Seq<ResultView>, ErrorView>,
) -> bool {
    match api_error(response) {
        Some(message) => results == Err::<Seq<ResultView>, _>(service_failure(message)),
        None => exists|decoded: Result<BraveResponse, String>| #[trigger]
            may_decode_response(decoder, response, decoded) && results == decoded_results(decoded),
    }
}

fn or_empty_string(value: Option<String>) -> (text: String)
    ensures
        text@ == or_empty(value),
{
    match value {
        Some(text) => text,
        None => {
            let text = String::new();
            assert(text@ =~= or_empty(value));
            text
        },
    }
}

/// Fills in what a result lacks.
pub fn normalize_search_result(result: BraveResult) -> (normalized: SearchResult)
    ensures
        normalized@ == result_of(result),
{
    SearchResult {
        title: or_empty_string(result.title),
        url: or_empty_string(result.url),
        snippet: or_empty_string(result.description),
    }
}

fn normalize_results(results: Vec<BraveResult>) -> (list: Vec<SearchResult>)
    ensures
        result_views(list@) == results@.map_values(|result: BraveResult| result_of(result)),
{
    let ghost all = results@;
    let ghost model = |result: BraveResult| result_of(result);
    let mut list: Vec<SearchResult> = Vec::new();
    for result in it: results
        invariant
            it.seq() == all,
            model == |result: BraveResult| result_of(result),
            result_views(list@) == all.take(it.index()).map_values(model),
    {
        let ghost before = list@;
        let ghost views = result_views(before);
        assert(result == all[it.index()]);
        list.push(normalize_search_result(result));
        assert(result_views(list@) =~= views.push(model(result)));
        assert(all.take(it.index() + 1).map_values(model) =~= all.take(it.index()).map_values(
            model,
        ).push(model(result)));
    }
    assert(all.take(all.len() as int) =~= all);
    list
}

/// Takes the results of a decoded response.
pub fn take_results(decoded: Result<BraveResponse, String>) -> (results: Result<
    Vec<SearchResult>,
    BrowserError,
>)
    ensures
        results_outcome(results) == decoded_results(decoded),
{
    match decoded {
        Ok(response) => {
            let list = match response.web {
                Some(web) => match web.results {
                    Some(results) => normalize_results(results),
                    None => Vec::new(),
                },
                None => Vec::new(),
            };
            assert(result_views(list@) =~= results_of(response));
            Ok(list)
        },
        Err(reason) => {
            let mut message = owned("Failed to parse Brave search response: ");
            message.append(reason.as_str());
            Err(BrowserError::ParseFailed(message))
        },
    }
}

/// Reads the results in a response of the search service.
pub fn parse_search_results<D: Decoder>(response: &str, decoder: &D) -> (results: Result<
    Vec<SearchResult>,
    BrowserError,
>)
    ensures
        may_give_results(decoder, response@, results_outcome(results)),
{
    if let Some(message) = extract_api_error(response) {
        let mut text = owned("Failed to fetch ");
        text.append(BRAVE_SEARCH_URL);
        text.append(": ");
        text.append(message.as_str());
        return Err(BrowserError::RequestFailed(text));
    }
    let decoded = decode_with(decoder, response);
    take_results(decoded)
}

} // verus!
