//! Laws of the options of requests: each field of a request reaches the option
//! that it is for, and the addresses that are requested carry the options.

use vstd::prelude::*;
use vstd::utf8::decode_utf8;

use crate::encode::url_component;
use crate::error::{outcome, text_outcome, BrowserError, ErrorView};
use crate::format::{format_name, OutputFormat};
use crate::laws::characters::{
    is_blank, pattern_stands_by_its_characters, trimming_leaves_the_middle,
};
use crate::laws::encodings::{
    decimal_holds_only_digits, decimal_is_readable, percent_decoded, url_component_is_reversible,
};
use crate::laws::whitespace::{bare_text_is_trimmed, is_trimmed};
use crate::request::{
    fetch_options, field_number, required_url, screenshot_options, screenshot_url, search_options,
    search_url, stored_value, tool_named, BrowserInput, FetchOptions, FetchView, InputView,
    ScreenshotOptions, ScreenshotView, SearchOptions, SearchView, Tool,
};
use crate::text::{ascii_lower, decimal, number_value, opt_string, trim};

verus! {

/// Whether a text, with white space around it or not, says `word`.
pub open spec fn says(text: Seq<char>, word: Seq<char>) -> bool {
    exists|before: Seq<char>, after: Seq<char>|
        is_blank(before) && is_blank(after) && text == #[trigger] (before + word + after)
}

/// What says a word is trimmed to that word.
pub proof fn lemma_says(text: Seq<char>, word: Seq<char>)
    requires
        says(text, word),
        is_trimmed(word),
    ensures
        trim(text) == word,
{
    let (before, after) = choose|before: Seq<char>, after: Seq<char>|
        is_blank(before) && is_blank(after) && text == #[trigger] (before + word + after);
    trimming_leaves_the_middle(before, word, after);
}

/// A number in decimal notation has no white space.
pub proof fn lemma_decimal_is_trimmed(n: nat)
    ensures
        is_trimmed(decimal(n)),
{
    decimal_holds_only_digits(n);
    assert(decimal(n)[0] <= '9');
    assert(decimal(n)[decimal(n).len() - 1] == decimal(n).last());
}

/// A field that says a number in decimal notation is read as that number, if it is
/// not too great.
pub proof fn written_field_is_read(field: Seq<char>, n: nat, max: nat)
    requires
        says(field, decimal(n)),
    ensures
        n <= max ==> field_number(Some(field), max) == Some(n),
        n > max ==> field_number(Some(field), max) is None,
{
    lemma_decimal_is_trimmed(n);
    lemma_says(field, decimal(n));
    decimal_is_readable(n, n);
    if n <= max {
        decimal_is_readable(n, max);
    } else {
        decimal_is_readable(n, n);
        assert(number_value(decimal(n), 10, max) is None);
    }
}

/// A field is read without the white space around it, and a missing one holds no
/// number.
pub proof fn field_is_read_without_white_space(field: Seq<char>, word: Seq<char>, max: nat)
    requires
        says(field, word),
        is_trimmed(word),
    ensures
        field_number(Some(field), max) == number_value(word, 10, max),
        field_number(None, max) is None,
{
    lemma_says(field, word);
}

/// A screenshot that asks for a width and a height, both positive and written in
/// decimal notation, is taken in exactly that size, of the address in the request.
pub proof fn screenshot_has_the_written_size(
    input: InputView,
    url: Seq<char>,
    width: u32,
    height: u32,
)
    requires
        required_url(input.url) == Ok::<Seq<char>, ErrorView>(url),
        width > 0,
        height > 0,
        input.width is Some,
        says(input.width->0, decimal(width as nat)),
        input.height is Some,
        says(input.height->0, decimal(height as nat)),
    ensures
        screenshot_options(input) is Ok,
        screenshot_options(input)->Ok_0.url == url,
        screenshot_options(input)->Ok_0.viewport.width == width,
        screenshot_options(input)->Ok_0.viewport.height == height,
{
    written_field_is_read(input.width->0, width as nat, u32::MAX as nat);
    written_field_is_read(input.height->0, height as nat, u32::MAX as nat);
}

/// Whether a field holds no positive number that fits: it is missing, zero, too
/// great or no number.
pub open spec fn holds_no_number(field: Option<Seq<char>>, max: nat) -> bool {
    forall|n: nat| 0 < n <= max ==> field_number(field, max) != Some(n)
}

/// The sides of a screenshot without a usable number are 1280 wide and 720 high,
/// each for itself.
pub proof fn screenshot_has_default_sides(input: InputView)
    requires
        required_url(input.url) is Ok,
    ensures
        holds_no_number(input.width, u32::MAX as nat) ==>
            screenshot_options(input)->Ok_0.viewport.width == 1280,
        holds_no_number(input.height, u32::MAX as nat) ==>
            screenshot_options(input)->Ok_0.viewport.height == 720,
{
    lemma_no_positive(input.width, u32::MAX as nat);
    lemma_no_positive(input.height, u32::MAX as nat);
}

proof fn lemma_no_positive(field: Option<Seq<char>>, max: nat)
    ensures
        holds_no_number(field, max) ==> field_number(field, max) is None || field_number(field, max)
            == Some(0nat),
        field is None ==> field_number(field, max) is None,
{
    if let Some(n) = field_number(field, max) {
        assert(n <= max);
        if n > 0 && holds_no_number(field, max) {
            assert(field_number(field, max) != Some(n));
        }
    }
}

/// A fetch that asks for a positive length, written in decimal notation, is cut to
/// exactly that length; one without a usable number to ten thousand characters.
pub proof fn fetch_has_the_written_length(input: InputView, url: Seq<char>, length: usize)
    requires
        required_url(input.url) == Ok::<Seq<char>, ErrorView>(url),
    ensures
        fetch_options(input) is Ok,
        fetch_options(input)->Ok_0.url == url,
        length > 0 && input.max_length is Some && says(
            input.max_length->0,
            decimal(length as nat),
        ) ==> fetch_options(input)->Ok_0.max_length == length,
        holds_no_number(input.max_length, usize::MAX as nat) ==>
            fetch_options(input)->Ok_0.max_length == 10000,
{
    if length > 0 && input.max_length is Some && says(
        input.max_length->0,
        decimal(length as nat),
    ) {
        written_field_is_read(input.max_length->0, length as nat, usize::MAX as nat);
    }
    lemma_no_positive(input.max_length, usize::MAX as nat);
}

/// A fetch is in plain text exactly if its format says `text`, in small or capital
/// letters; otherwise it is in Markdown.
pub proof fn fetch_has_the_named_format(input: InputView)
    requires
        required_url(input.url) is Ok,
    ensures
        fetch_options(input)->Ok_0.format == OutputFormat::Text <==> input.format is Some
            && ascii_lower(trim(input.format->0)) == "text"@,
        fetch_options(input)->Ok_0.format == OutputFormat::Markdown <==> !(input.format is Some
            && ascii_lower(trim(input.format->0)) == "text"@),
        format_name(OutputFormat::Text) == "text"@,
        format_name(OutputFormat::Markdown) == "markdown"@,
{
}

/// A fetch or a screenshot with a wrong address is refused with the reason, and
/// with that one alone.
pub proof fn wrong_address_is_refused(input: InputView, error: ErrorView)
    requires
        required_url(input.url) == Err::<Seq<char>, ErrorView>(error),
    ensures
        fetch_options(input) == Err::<FetchView, ErrorView>(error),
        screenshot_options(input) == Err::<ScreenshotView, ErrorView>(error),
{
}

/// An address with white space around it is taken without the white space, if it
/// begins with the name of the protocol; else it is refused.
pub proof fn address_is_taken_as_written(field: Seq<char>, url: Seq<char>)
    requires
        says(field, url),
        is_trimmed(url),
    ensures
        "http://"@.is_prefix_of(url) || "https://"@.is_prefix_of(url) ==> required_url(Some(field))
            == Ok::<Seq<char>, ErrorView>(url),
        url.len() > 0 && !"http://"@.is_prefix_of(url) && !"https://"@.is_prefix_of(url) ==>
            required_url(Some(field)) == Err::<Seq<char>, ErrorView>(
            ErrorView::InvalidInput("URL must start with http:// or https://"@),
        ),
        url.len() == 0 ==> required_url(Some(field)) == Err::<Seq<char>, ErrorView>(
            ErrorView::InvalidInput("URL is required"@),
        ),
        required_url(None) == Err::<Seq<char>, ErrorView>(
            ErrorView::InvalidInput("URL is required"@),
        ),
{
    lemma_says(field, url);
    reveal_strlit("http://");
    reveal_strlit("https://");
    pattern_stands_by_its_characters(url, "http://"@, 0);
    pattern_stands_by_its_characters(url, "https://"@, 0);
    let none = Seq::<char>::empty();
    bare_text_is_trimmed(none);
}

/// A search asks for exactly the words in its query, without white space around
/// them; one without words is refused.
pub proof fn search_has_the_written_query(input: InputView, query: Seq<char>)
    requires
        input.query is Some,
        says(input.query->0, query),
        is_trimmed(query),
    ensures
        query.len() > 0 ==> search_options(input) is Ok && search_options(input)->Ok_0.query == query,
        query.len() == 0 ==> search_options(input) == Err::<SearchView, ErrorView>(
            ErrorView::InvalidInput("Search query is required"@),
        ),
{
    lemma_says(input.query->0, query);
}

/// A search without a query is refused.
pub proof fn search_needs_a_query(input: InputView)
    requires
        input.query is None,
    ensures
        search_options(input) == Err::<SearchView, ErrorView>(
            ErrorView::InvalidInput("Search query is required"@),
        ),
{
    bare_text_is_trimmed(Seq::<char>::empty());
}

/// Every number in a request is taken as it is, however it is written: with white
/// space around it, a plus sign or zeros before it. The count of a search is at
/// least one and at most ten.
pub proof fn numbers_are_taken_as_read(input: InputView, n: nat)
    ensures
        n > 0 && required_url(input.url) is Ok && field_number(input.width, 0xffff_ffff) == Some(n)
            ==> screenshot_options(input)->Ok_0.viewport.width == n,
        n > 0 && required_url(input.url) is Ok && field_number(input.height, 0xffff_ffff) == Some(n)
            ==> screenshot_options(input)->Ok_0.viewport.height == n,
        n > 0 && required_url(input.url) is Ok && field_number(
            input.max_length,
            usize::MAX as nat,
        ) == Some(n) ==> fetch_options(input)->Ok_0.max_length == n,
        search_options(input) is Ok && field_number(input.count, usize::MAX as nat) == Some(n) ==>
            search_options(input)->Ok_0.count == (if n == 0 {
            1nat
        } else if n >= 10 {
            10nat
        } else {
            n
        }),
{
}

/// A search that asks for one to ten results, in decimal notation, asks the service
/// for exactly as many; for ten if it asks for more, for one if it asks for none,
/// and for five if it says no number.
pub proof fn search_has_the_written_count(input: InputView, count: nat)
    requires
        search_options(input) is Ok,
        count <= usize::MAX,
    ensures
        input.count is Some && says(input.count->0, decimal(count)) ==>
            search_options(input)->Ok_0.count == (if count == 0 {
            1nat
        } else if count >= 10 {
            10nat
        } else {
            count
        }),
        field_number(input.count, usize::MAX as nat) is None ==>
            search_options(input)->Ok_0.count == 5,
        input.count is None ==> search_options(input)->Ok_0.count == 5,
{
    if input.count is Some && says(input.count->0, decimal(count)) {
        written_field_is_read(input.count->0, count, usize::MAX as nat);
    }
}

/// A request names a tool exactly if it says the name of the tool.
pub proof fn tool_is_named_by_its_name(input: Seq<char>, name: Seq<char>)
    requires
        says(input, name),
        is_trimmed(name),
    ensures
        tool_named(Some(input)) == (if name == "web_fetch"@ {
            Ok::<Tool, ErrorView>(Tool::Fetch)
        } else if name == "web_search"@ {
            Ok(Tool::Search)
        } else if name == "web_screenshot"@ {
            Ok(Tool::Screenshot)
        } else if name.len() == 0 {
            Err(
                ErrorView::InvalidInput(
                    "Tool is required. Available: web_fetch, web_search, web_screenshot"@,
                ),
            )
        } else {
            Err(
                ErrorView::InvalidInput(
                    "Unknown tool: "@ + name
                        + ". Available: web_fetch, web_search, web_screenshot"@,
                ),
            )
        }),
        tool_named(None) == Err::<Tool, ErrorView>(
            ErrorView::InvalidInput(
                "Tool is required. Available: web_fetch, web_search, web_screenshot"@,
            ),
        ),
{
    lemma_says(input, name);
    reveal_strlit("web_fetch");
    reveal_strlit("web_search");
    reveal_strlit("web_screenshot");
    bare_text_is_trimmed(Seq::<char>::empty());
}

/// A stored value is used without white space around it; a blank one counts as
/// missing.
pub proof fn stored_value_is_used_as_written(value: Seq<char>, word: Seq<char>, message: Seq<char>)
    requires
        says(value, word),
        is_trimmed(word),
    ensures
        word.len() > 0 ==> stored_value(Some(value), message) == Ok::<Seq<char>, ErrorView>(word),
        word.len() == 0 ==> stored_value(Some(value), message) == Err::<Seq<char>, ErrorView>(
            ErrorView::MissingConfig(message),
        ),
        stored_value(None, message) == Err::<Seq<char>, ErrorView>(
            ErrorView::MissingConfig(message),
        ),
{
    lemma_says(value, word);
    bare_text_is_trimmed(Seq::<char>::empty());
}

/// The address of a search leads to the search service, and carries the query in a
/// form from which it can be decoded, and the count.
pub proof fn search_address_carries_the_options(options: SearchView) -> (query: Seq<char>)
    ensures
        search_url(options) == "https://api.search.brave.com/res/v1/web/search"@ + "?q="@ + query
            + "&count="@ + decimal(options.count as nat),
        decode_utf8(percent_decoded(query)) == options.query,
        query == url_component(options.query),
{
    url_component_is_reversible(options.query);
    url_component(options.query)
}

/// The address of a screenshot leads to the screenshot service, and carries the
/// page in a form from which it can be decoded, the width and the height. It adds
/// them to the parameters that the service has, or begins with them if it has none.
pub proof fn screenshot_address_carries_the_options(
    service: Seq<char>,
    options: ScreenshotView,
) -> (page: Seq<char>)
    ensures
        service.contains('?') ==> screenshot_url(service, options) == service + "&"@ + "url="@
            + page + "&width="@ + decimal(options.viewport.width as nat) + "&height="@ + decimal(
            options.viewport.height as nat,
        ),
        !service.contains('?') ==> screenshot_url(service, options) == service + "?"@ + "url="@
            + page + "&width="@ + decimal(options.viewport.width as nat) + "&height="@ + decimal(
            options.viewport.height as nat,
        ),
        decode_utf8(percent_decoded(page)) == options.url,
        page == url_component(options.url),
{
    url_component_is_reversible(options.url);
    url_component(options.url)
}

/// A request, as contracts see it, has the fields that it has.
pub proof fn request_is_seen_as_it_is(input: BrowserInput)
    ensures
        input@.tool == opt_string(input.tool),
        input@.url == opt_string(input.url),
        input@.format == opt_string(input.format),
        input@.max_length == opt_string(input.max_length),
        input@.query == opt_string(input.query),
        input@.count == opt_string(input.count),
        input@.width == opt_string(input.width),
        input@.height == opt_string(input.height),
        opt_string(None) is None,
        forall|text: String| opt_string(Some(text)) == Some(#[trigger] text@),
{
}

/// Options and errors, as contracts see them, are what they are.
pub proof fn options_are_seen_as_they_are(
    fetch: FetchOptions,
    search: SearchOptions,
    screenshot: ScreenshotOptions,
)
    ensures
        fetch@.url == fetch.url@,
        fetch@.format == fetch.format,
        fetch@.max_length == fetch.max_length,
        search@.query == search.query@,
        search@.count == search.count,
        screenshot@.url == screenshot.url@,
        screenshot@.viewport.width == screenshot.viewport.width,
        screenshot@.viewport.height == screenshot.viewport.height,
{
}

/// Outcomes, as contracts see them, succeed and fail with what they hold.
pub proof fn outcomes_are_seen_as_they_are(
    text: String,
    options: FetchOptions,
    error: BrowserError,
)
    ensures
        text_outcome(Ok(text)) == Ok::<Seq<char>, ErrorView>(text@),
        text_outcome(Err(error)) == Err::<Seq<char>, ErrorView>(error@),
        outcome(Ok::<FetchOptions, BrowserError>(options)) == Ok::<FetchView, ErrorView>(options@),
        outcome(Err::<FetchOptions, BrowserError>(error)) == Err::<FetchView, ErrorView>(error@),
{
}

/// An error of each kind carries its message.
pub proof fn errors_carry_their_message(text: String)
    ensures
        BrowserError::InvalidInput(text)@ == ErrorView::InvalidInput(text@),
        BrowserError::MissingConfig(text)@ == ErrorView::MissingConfig(text@),
        BrowserError::RequestFailed(text)@ == ErrorView::RequestFailed(text@),
        BrowserError::ParseFailed(text)@ == ErrorView::ParseFailed(text@),
        ErrorView::InvalidInput(text@).message() == text@,
        ErrorView::MissingConfig(text@).message() == text@,
        ErrorView::RequestFailed(text@).message() == text@,
        ErrorView::ParseFailed(text@).message() == text@,
{
}

} // verus!
