//! Requests to the skill: the tool that they name, and its options.

use vstd::prelude::*;

use crate::encode::{encode_url_component, url_component};
use crate::error::{outcome, text_outcome, BrowserError, ErrorView};
use crate::format::{requested_format, OutputFormat};
use crate::text::{
    as_text, decimal, find_char, find_char_pos, has_prefix, lemma_find_char, number_value, opt_str,
    opt_string, owned, parse_number, push_decimal, same_text, starts_with, to_chars, trim,
    trim_chars, trimmed,
};

verus! {

/// The length to which fetched content is cut unless the request says otherwise.
pub const DEFAULT_MAX_LENGTH: usize = 10_000;

/// The number of search results unless the request says otherwise.
pub const DEFAULT_SEARCH_COUNT: usize = 5;

/// The greatest number of search results.
pub const MAX_SEARCH_COUNT: usize = 10;

/// The width of a screenshot unless the request says otherwise.
pub const DEFAULT_WIDTH: u32 = 1280;

/// The height of a screenshot unless the request says otherwise.
pub const DEFAULT_HEIGHT: u32 = 720;

/// The address of the search service.
pub const BRAVE_SEARCH_URL: &'static str = "https://api.search.brave.com/res/v1/web/search";

/// A request as it comes in: every field is optional text.
#[derive(Debug, PartialEq, Eq)]
pub struct BrowserInput {
    pub tool: Option<String>,
    pub url: Option<String>,
    pub format: Option<String>,
    pub max_length: Option<String>,
    pub query: Option<String>,
    pub count: Option<String>,
    pub width: Option<String>,
    pub height: Option<String>,
}

/// A request with its fields as sequences of characters.
pub struct InputView {
    pub tool: Option<Seq<char>>,
    pub url: Option<Seq<char>>,
    pub format: Option<Seq<char>>,
    pub max_length: Option<Seq<char>>,
    pub query: Option<Seq<char>>,
    pub count: Option<Seq<char>>,
    pub width: Option<Seq<char>>,
    pub height: Option<Seq<char>>,
}

impl View for BrowserInput {
    type V = InputView;

    open spec fn view(&self) -> InputView {
        InputView {
            tool: opt_string(self.tool),
            url: opt_string(self.url),
            format: opt_string(self.format),
            max_length: opt_string(self.max_length),
            query: opt_string(self.query),
            count: opt_string(self.count),
            width: opt_string(self.width),
            height: opt_string(self.height),
        }
    }
}

/// A tool of the skill.
#[derive(Debug, Clone, Copy, PartialEq, Eq, Structural)]
pub enum Tool {
    Fetch,
    Search,
    Screenshot,
}

impl View for Tool {
    type V = Tool;

    open spec fn view(&self) -> Tool {
        *self
    }
}

/// The options of a fetch.
#[derive(Debug, Clone, PartialEq, Eq)]
pub struct FetchOptions {
    pub url: String,
    pub format: OutputFormat,
    pub max_length: usize,
}

/// The options of a fetch, with the address as a sequence of characters.
pub struct FetchView {
    pub url: Seq<char>,
    pub format: OutputFormat,
    pub max_length: usize,
}

impl View for FetchOptions {
    type V = FetchView;

    open spec fn view(&self) -> FetchView {
        FetchView { url: self.url@, format: self.format, max_length: self.max_length }
    }
}

/// The options of a search.
#[derive(Debug, Clone, PartialEq, Eq)]
pub struct SearchOptions {
    pub query: String,
    pub count: usize,
}

/// The options of a search, with the query as a sequence of characters.
pub struct SearchView {
    pub query: Seq<char>,
    pub count: usize,
}

impl View for SearchOptions {
    type V = SearchView;

    open spec fn view(&self) -> SearchView {
        SearchView { query: self.query@, count: self.count }
    }
}

/// The size of a screenshot.
#[derive(Debug, Clone, Copy, PartialEq, Eq, Structural)]
pub struct Viewport {
    pub width: u32,
    pub height: u32,
}

/// The options of a screenshot.
#[derive(Debug, Clone, PartialEq, Eq)]
pub struct ScreenshotOptions {
    pub url: String,
    pub viewport: Viewport,
}

/// The options of a screenshot, with the address as a sequence of characters.
pub struct ScreenshotView {
    pub url: Seq<char>,
    pub viewport: Viewport,
}

impl View for ScreenshotOptions {
    type V = ScreenshotView;

    open spec fn view(&self) -> ScreenshotView {
        ScreenshotView { url: self.url@, viewport: self.viewport }
    }
}

/// The tool that a request names, with white space around the name; an error if
/// it names none or one that does not exist.
pub open spec fn tool_named(value: Option<Seq<char>>) -> Result<Tool, ErrorView> {
    let name = trim(value.unwrap_or(seq![]));
    if name.len() == 0 {
        Err(
            ErrorView::InvalidInput(
                "Tool is required. Available: web_fetch, web_search, web_screenshot"@,
            ),
        )
    } else if name == "web_fetch"@ {
        Ok(Tool::Fetch)
    } else if name == "web_search"@ {
        Ok(Tool::Search)
    } else if name == "web_screenshot"@ {
        Ok(Tool::Screenshot)
    } else {
        Err(
            ErrorView::InvalidInput(
                "Unknown tool: "@ + name + ". Available: web_fetch, web_search, web_screenshot"@,
            ),
        )
    }
}

/// The address in a request, trimmed; an error if there is none, or if it is not
/// an HTTP address.
pub open spec fn required_url(value: Option<Seq<char>>) -> Result<Seq<char>, ErrorView> {
    let url = trim(value.unwrap_or(seq![]));
    if url.len() == 0 {
        Err(ErrorView::InvalidInput("URL is required"@))
    } else if !has_prefix(url, "http://"@) && !has_prefix(url, "https://"@) {
        Err(ErrorView::InvalidInput("URL must start with http:// or https://"@))
    } else {
        Ok(url)
    }
}

/// The number of at most `max` that a field of a request denotes, with white
/// space around it.
pub open spec fn field_number(value: Option<Seq<char>>, max: nat) -> Option<nat> {
    match value {
        Some(raw) => number_value(trim(raw), 10, max),
        None => None,
    }
}

/// The positive number that a field denotes, or the default.
pub open spec fn positive_number(value: Option<Seq<char>>, max: nat, default: nat) -> nat {
    match field_number(value, max) {
        Some(number) => if number > 0 {
            number
        } else {
            default
        },
        None => default,
    }
}

/// The number of search results to ask for: at least one and at most ten.
pub open spec fn result_count(value: Option<Seq<char>>) -> nat {
    let wanted: nat = match field_number(value, usize::MAX as nat) {
        Some(number) => number,
        None => DEFAULT_SEARCH_COUNT as nat,
    };
    if wanted < 1 {
        1
    } else if wanted > MAX_SEARCH_COUNT {
        MAX_SEARCH_COUNT as nat
    } else {
        wanted
    }
}

/// The options of a fetch request.
pub open spec fn fetch_options(input: InputView) -> Result<FetchView, ErrorView> {
    match required_url(input.url) {
        Err(error) => Err(error),
        Ok(url) => Ok(
            FetchView {
                url,
                format: requested_format(input.format),
                max_length: positive_number(
                    input.max_length,
                    usize::MAX as nat,
                    DEFAULT_MAX_LENGTH as nat,
                ) as usize,
            },
        ),
    }
}

/// The options of a search request.
pub open spec fn search_options(input: InputView) -> Result<SearchView, ErrorView> {
    let query = trim(input.query.unwrap_or(seq![]));
    if query.len() == 0 {
        Err(ErrorView::InvalidInput("Search query is required"@))
    } else {
        Ok(SearchView { query, count: result_count(input.count) as usize })
    }
}

/// The options of a screenshot request.
pub open spec fn screenshot_options(input: InputView) -> Result<ScreenshotView, ErrorView> {
    match required_url(input.url) {
        Err(error) => Err(error),
        Ok(url) => Ok(
            ScreenshotView {
                url,
                viewport: Viewport {
                    width: positive_number(
                        input.width,
                        u32::MAX as nat,
                        DEFAULT_WIDTH as nat,
                    ) as u32,
                    height: positive_number(
                        input.height,
                        u32::MAX as nat,
                        DEFAULT_HEIGHT as nat,
                    ) as u32,
                },
            },
        ),
    }
}

/// A stored value, trimmed; the given error message if there is none or only
/// white space.
pub open spec fn stored_value(value: Option<Seq<char>>, message: Seq<char>) -> Result<
    Seq<char>,
    ErrorView,
> {
    let stored = trim(value.unwrap_or(seq![]));
    if stored.len() == 0 {
        Err(ErrorView::MissingConfig(message))
    } else {
        Ok(stored)
    }
}

/// The address of a search.
pub open spec fn search_url(options: SearchView) -> Seq<char> {
    BRAVE_SEARCH_URL@ + "?q="@ + url_component(options.query) + "&count="@ + decimal(
        options.count as nat,
    )
}

/// The address at which a screenshot service takes a screenshot. The parameters
/// follow those that the address of the service already has.
pub open spec fn screenshot_url(service: Seq<char>, options: ScreenshotView) -> Seq<char> {
    service + (if service.contains('?') {
        "&"@
    } else {
        "?"@
    }) + "url="@ + url_component(options.url) + "&width="@ + decimal(options.viewport.width as nat)
        + "&height="@ + decimal(options.viewport.height as nat)
}

fn trimmed_field(value: Option<&str>) -> (text: String)
    ensures
        text@ == trim(opt_str(value).unwrap_or(seq![])),
{
    match value {
        Some(raw) => trimmed(raw),
        None => {
            let text = String::new();
            assert(text@ =~= trim(seq![]));
            text
        },
    }
}

impl Tool {
    /// Reads the tool that a request names.
    pub fn parse(value: Option<&str>) -> (tool: Result<Self, BrowserError>)
        ensures
            outcome(tool) == tool_named(opt_str(value)),
    {
        let name = trimmed_field(value);
        let chars = to_chars(name.as_str());
        let chars = chars.as_slice();
        if chars.len() == 0 {
            Err(
                BrowserError::InvalidInput(
                    owned("Tool is required. Available: web_fetch, web_search, web_screenshot"),
                ),
            )
        } else if same_text(chars, "web_fetch") {
            Ok(Tool::Fetch)
        } else if same_text(chars, "web_search") {
            Ok(Tool::Search)
        } else if same_text(chars, "web_screenshot") {
            Ok(Tool::Screenshot)
        } else {
            let mut message = owned("Unknown tool: ");
            message.append(name.as_str());
            message.append(". Available: web_fetch, web_search, web_screenshot");
            Err(BrowserError::InvalidInput(message))
        }
    }
}

/// Reads the address in a request.
pub fn require_url(value: Option<&str>) -> (url: Result<String, BrowserError>)
    ensures
        text_outcome(url) == required_url(opt_str(value)),
{
    let url = trimmed_field(value);
    let chars = to_chars(url.as_str());
    let chars = chars.as_slice();
    if chars.len() == 0 {
        return Err(BrowserError::InvalidInput(owned("URL is required")));
    }
    if !starts_with(chars, "http://") && !starts_with(chars, "https://") {
        return Err(BrowserError::InvalidInput(owned("URL must start with http:// or https://")));
    }
    Ok(url)
}

fn parse_field(value: Option<&str>, max: u64) -> (number: Option<u64>)
    ensures
        match number {
            Some(n) => field_number(opt_str(value), max as nat) == Some(n as nat),
            None => field_number(opt_str(value), max as nat) is None,
        },
{
    match value {
        Some(raw) => {
            let chars = to_chars(raw);
            parse_number(trim_chars(chars.as_slice()), 10, max)
        },
        None => None,
    }
}

/// Reads a positive number, or gives the default.
pub fn parse_positive_usize(value: Option<&str>, default: usize) -> (number: usize)
    ensures
        number == positive_number(opt_str(value), usize::MAX as nat, default as nat),
{
    match parse_field(value, usize::MAX as u64) {
        Some(number) => if number > 0 {
            number as usize
        } else {
            default
        },
        None => default,
    }
}

/// Reads a positive number, or gives the default.
pub fn parse_positive_u32(value: Option<&str>, default: u32) -> (number: u32)
    ensures
        number == positive_number(opt_str(value), u32::MAX as nat, default as nat),
{
    match parse_field(value, u32::MAX as u64) {
        Some(number) => if number > 0 {
            number as u32
        } else {
            default
        },
        None => default,
    }
}

/// Reads the number of search results to ask for.
pub fn clamp_count(value: Option<&str>) -> (count: usize)
    ensures
        count == result_count(opt_str(value)),
        1 <= count <= MAX_SEARCH_COUNT,
{
    let wanted: usize = match parse_field(value, usize::MAX as u64) {
        Some(number) => number as usize,
        None => DEFAULT_SEARCH_COUNT,
    };
    if wanted < 1 {
        1
    } else if wanted > MAX_SEARCH_COUNT {
        MAX_SEARCH_COUNT
    } else {
        wanted
    }
}

/// Reads the options of a fetch request.
pub fn parse_fetch_options(input: &BrowserInput) -> (options: Result<FetchOptions, BrowserError>)
    ensures
        outcome(options) == fetch_options(input@),
{
    match require_url(as_text(&input.url)) {
        Err(error) => Err(error),
        Ok(url) => Ok(
            FetchOptions {
                url,
                format: OutputFormat::parse(as_text(&input.format)),
                max_length: parse_positive_usize(as_text(&input.max_length), DEFAULT_MAX_LENGTH),
            },
        ),
    }
}

/// Reads the options of a search request.
pub fn parse_search_options(input: &BrowserInput) -> (options: Result<SearchOptions, BrowserError>)
    ensures
        outcome(options) == search_options(input@),
{
    let query = trimmed_field(as_text(&input.query));
    if query.as_str().is_empty() {
        return Err(BrowserError::InvalidInput(owned("Search query is required")));
    }
    Ok(SearchOptions { query, count: clamp_count(as_text(&input.count)) })
}

/// Reads the options of a screenshot request.
pub fn parse_screenshot_options(input: &BrowserInput) -> (options: Result<
    ScreenshotOptions,
    BrowserError,
>)
    ensures
        outcome(options) == screenshot_options(input@),
{
    match require_url(as_text(&input.url)) {
        Err(error) => Err(error),
        Ok(url) => Ok(
            ScreenshotOptions {
                url,
                viewport: Viewport {
                    width: parse_positive_u32(as_text(&input.width), DEFAULT_WIDTH),
                    height: parse_positive_u32(as_text(&input.height), DEFAULT_HEIGHT),
                },
            },
        ),
    }
}

/// Reads a stored value that has to be there.
pub fn require_stored_value(value: Option<String>, message: &str) -> (stored: Result<
    String,
    BrowserError,
>)
    ensures
        text_outcome(stored) == stored_value(opt_string(value), message@),
{
    let stored = trimmed_field(as_text(&value));
    if stored.as_str().is_empty() {
        return Err(BrowserError::MissingConfig(owned(message)));
    }
    Ok(stored)
}

/// Writes the address of a search.
pub fn build_search_url(options: &SearchOptions) -> (url: String)
    ensures
        url@ == search_url(options@),
{
    let query = encode_url_component(options.query.as_str());
    let mut url = owned(BRAVE_SEARCH_URL);
    url.append("?q=");
    url.append(query.as_str());
    url.append("&count=");
    push_decimal(&mut url, options.count as u64);
    url
}

/// Writes the address at which a screenshot service takes a screenshot.
pub fn build_screenshot_url(service_url: &str, options: &ScreenshotOptions) -> (url: String)
    ensures
        url@ == screenshot_url(service_url@, options@),
{
    let chars = to_chars(service_url);
    let found = find_char_pos(chars.as_slice(), '?', 0);
    proof {
        lemma_find_char(service_url@, '?', 0);
        if let Some(i) = find_char(service_url@, '?', 0) {
            assert(service_url@.contains(service_url@[i]));
        }
    }
    let target = encode_url_component(options.url.as_str());
    let mut url = owned(service_url);
    if found.is_some() {
        url.append("&");
    } else {
        url.append("?");
    }
    url.append("url=");
    url.append(target.as_str());
    url.append("&width=");
    push_decimal(&mut url, options.viewport.width as u64);
    url.append("&height=");
    push_decimal(&mut url, options.viewport.height as u64);
    url
}

} // verus!
