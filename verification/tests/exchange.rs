//! What goes out to the host and what comes in: JSON, host strings, requests.

use browser_skill::error::BrowserError;
use browser_skill::format::OutputFormat;
use browser_skill::host::{decode_host_string, take_reply, MAX_HOST_STRING_LEN};
use browser_skill::json::{
    choose_error, error_output, extract_api_error, json_error_message, search_headers,
    serialize_json, JsonNode,
};
use browser_skill::request::{
    build_screenshot_url, build_search_url, clamp_count, parse_fetch_options, parse_positive_u32,
    parse_positive_usize, require_stored_value, require_url, BrowserInput, ScreenshotOptions,
    SearchOptions, Tool, Viewport,
};
use browser_skill::search::{
    normalize_search_result, take_results, BraveResponse, BraveResult, BraveWeb, SearchResult,
};

fn invalid(message: &str) -> BrowserError {
    BrowserError::InvalidInput(message.to_string())
}

#[test]
fn strings_are_written_as_json() {
    assert_eq!(serialize_json("a\"b\\c"), "\"a\\\"b\\\\c\"");
    assert_eq!(serialize_json("\u{8}\t\n\u{c}\r"), "\"\\b\\t\\n\\f\\r\"");
    assert_eq!(serialize_json("\u{0}\u{1f}\u{7f}é/<"), "\"\\u0000\\u001f\u{7f}é/<\"");
}

#[test]
fn json_strings_are_read_back() {
    let all: String = (0..0x500u32).filter_map(char::from_u32).collect();
    let json = serialize_json(&all);
    assert_eq!(serde_json::from_str::<String>(&json).unwrap(), all);
    assert!(json.chars().all(|c| c > '\u{1f}'));
}

#[test]
fn headers_hold_the_key() {
    assert_eq!(
        search_headers("k\"1"),
        "{\"Accept\":\"application/json\",\"X-Subscription-Token\":\"k\\\"1\"}"
    );
}

#[test]
fn errors_are_written_with_their_message() {
    let errors = [
        BrowserError::InvalidInput("a".to_string()),
        BrowserError::MissingConfig("a".to_string()),
        BrowserError::RequestFailed("a".to_string()),
        BrowserError::ParseFailed("a".to_string()),
    ];
    for error in errors {
        assert_eq!(error.to_string(), "a");
        assert_eq!(error_output(&error), "{\"error\":\"a\"}");
    }
}

#[test]
fn error_reports_are_found_in_responses() {
    let report = |response: &str| extract_api_error(response);
    assert_eq!(report(r#"{"error":{"message":"m"}}"#), Some("m".to_string()));
    assert_eq!(report(r#"{"error":"e"}"#), Some("e".to_string()));
    assert_eq!(report(r#"{"message":"n"}"#), Some("n".to_string()));
    assert_eq!(report(r#"{"error":{"code":1},"message":"n"}"#), Some("n".to_string()));
    assert_eq!(report(r#"{"error":{"message":"m"},"message":"n"}"#), Some("m".to_string()));
    assert_eq!(report(r#"{"error":{"code":1}}"#), None);
    assert_eq!(report(r#"{"message":5}"#), None);
    assert_eq!(report(r#"["error"]"#), None);
    assert_eq!(report(r#""error""#), None);
    assert_eq!(report("no json"), None);
    assert_eq!(report("{}"), None);
}

#[test]
fn an_error_report_is_chosen() {
    let node = |text: Option<&str>, message: Option<&str>| JsonNode {
        text: text.map(str::to_string),
        message: message.map(str::to_string),
    };
    assert_eq!(json_error_message(&node(Some("t"), None)), Some("t".to_string()));
    assert_eq!(json_error_message(&node(None, Some("m"))), Some("m".to_string()));
    assert_eq!(json_error_message(&node(None, None)), None);
    assert_eq!(
        choose_error(Some(node(Some("t"), None)), Some("n".to_string())),
        Some("t".to_string())
    );
    assert_eq!(choose_error(Some(node(None, None)), Some("n".to_string())), Some("n".to_string()));
    assert_eq!(choose_error(None, None), None);
}

#[test]
fn host_strings_end_at_a_zero() {
    assert_eq!(decode_host_string(b"abc\0def"), "abc");
    assert_eq!(decode_host_string(b"\0"), "");
    assert_eq!(decode_host_string(b""), "");
    assert_eq!(decode_host_string("h\u{e9}\u{1F600}\0x".as_bytes()), "h\u{e9}\u{1F600}");
    assert_eq!(decode_host_string(b"a\xffb\0"), "a\u{fffd}b");
}

#[test]
fn host_strings_have_a_greatest_length() {
    let memory = vec![b'a'; MAX_HOST_STRING_LEN + 5];
    assert_eq!(decode_host_string(&memory).len(), MAX_HOST_STRING_LEN);
    assert_eq!(MAX_HOST_STRING_LEN, 1_048_576);
}

#[test]
fn a_missing_reply_is_a_failure() {
    assert_eq!(take_reply("u", Some("b".to_string())), Ok("b".to_string()));
    assert_eq!(
        take_reply("u", None),
        Err(BrowserError::RequestFailed("Failed to fetch u: request failed".to_string()))
    );
}

#[test]
fn addresses_are_required() {
    assert_eq!(require_url(Some(" https://x ")), Ok("https://x".to_string()));
    assert_eq!(require_url(Some("http://")), Ok("http://".to_string()));
    assert_eq!(require_url(None), Err(invalid("URL is required")));
    assert_eq!(require_url(Some(" ")), Err(invalid("URL is required")));
    assert_eq!(
        require_url(Some("HTTP://x")),
        Err(invalid("URL must start with http:// or https://"))
    );
}

#[test]
fn an_accepted_address_is_accepted_again() {
    let url = require_url(Some("\t http://x/ a \n")).unwrap();
    assert_eq!(url, "http://x/ a");
    assert_eq!(require_url(Some(&url)), Ok(url.clone()));
}

#[test]
fn numbers_in_requests_have_defaults() {
    assert_eq!(parse_positive_usize(Some(" 12 "), 7), 12);
    assert_eq!(parse_positive_usize(Some("+12"), 7), 12);
    assert_eq!(parse_positive_usize(Some("0"), 7), 7);
    assert_eq!(parse_positive_usize(Some("-1"), 7), 7);
    assert_eq!(parse_positive_usize(Some("1.5"), 7), 7);
    assert_eq!(parse_positive_usize(None, 7), 7);
    assert_eq!(parse_positive_u32(Some("4294967295"), 7), 4294967295);
    assert_eq!(parse_positive_u32(Some("4294967296"), 7), 7);
}

#[test]
fn the_number_of_results_is_bounded() {
    for value in [None, Some(""), Some("0"), Some("1"), Some("10"), Some("11"), Some("x")] {
        assert!((1..=10).contains(&clamp_count(value)));
    }
    assert_eq!(clamp_count(None), 5);
    assert_eq!(clamp_count(Some("0")), 1);
    assert_eq!(clamp_count(Some(" 99999999999999999999 ")), 5);
}

#[test]
fn tools_are_named() {
    assert_eq!(Tool::parse(Some(" web_fetch ")), Ok(Tool::Fetch));
    assert_eq!(Tool::parse(Some("web_search")), Ok(Tool::Search));
    assert_eq!(Tool::parse(Some("web_screenshot")), Ok(Tool::Screenshot));
    assert_eq!(
        Tool::parse(Some("WEB_FETCH")),
        Err(invalid(
            "Unknown tool: WEB_FETCH. Available: web_fetch, web_search, web_screenshot"
        ))
    );
    assert_eq!(
        Tool::parse(Some(" ")),
        Err(invalid("Tool is required. Available: web_fetch, web_search, web_screenshot"))
    );
}

#[test]
fn stored_values_are_required() {
    assert_eq!(require_stored_value(Some(" k ".to_string()), "m"), Ok("k".to_string()));
    for value in [None, Some(" ".to_string())] {
        assert_eq!(
            require_stored_value(value, "m"),
            Err(BrowserError::MissingConfig("m".to_string()))
        );
    }
}

#[test]
fn addresses_are_built_from_options() {
    let search = SearchOptions { query: "a b&c".to_string(), count: 3 };
    assert_eq!(
        build_search_url(&search),
        "https://api.search.brave.com/res/v1/web/search?q=a%20b%26c&count=3"
    );
    let shot = ScreenshotOptions {
        url: "https://x/?y".to_string(),
        viewport: Viewport { width: 10, height: 20 },
    };
    assert_eq!(
        build_screenshot_url("https://s", &shot),
        "https://s?url=https%3A%2F%2Fx%2F%3Fy&width=10&height=20"
    );
    assert_eq!(
        build_screenshot_url("https://s?k=v", &shot),
        "https://s?k=v&url=https%3A%2F%2Fx%2F%3Fy&width=10&height=20"
    );
}

#[test]
fn options_of_a_fetch_are_read() {
    let input = BrowserInput {
        tool: None,
        url: Some(" http://x ".to_string()),
        format: Some("Text".to_string()),
        max_length: Some("40".to_string()),
        query: None,
        count: None,
        width: None,
        height: None,
    };
    let options = parse_fetch_options(&input).unwrap();
    assert_eq!(options.url, "http://x");
    assert_eq!(options.format, OutputFormat::Text);
    assert_eq!(options.max_length, 40);
}

#[test]
fn results_without_fields_are_empty() {
    let empty = || SearchResult {
        title: String::new(),
        url: String::new(),
        snippet: String::new(),
    };
    let none = || BraveResult { title: None, url: None, description: None };
    assert_eq!(normalize_search_result(none()), empty());
    let full = BraveResult {
        title: Some("t".to_string()),
        url: Some("u".to_string()),
        description: Some("d".to_string()),
    };
    let response = BraveResponse { web: Some(BraveWeb { results: Some(vec![full, none()]) }) };
    assert_eq!(
        take_results(Ok(response)),
        Ok(vec![
            SearchResult {
                title: "t".to_string(),
                url: "u".to_string(),
                snippet: "d".to_string(),
            },
            empty(),
        ])
    );
    assert_eq!(
        take_results(Err("why".to_string())),
        Err(BrowserError::ParseFailed(
            "Failed to parse Brave search response: why".to_string()
        ))
    );
}
