//! The three tools, from a request to the document that answers it.

use std::cell::RefCell;
use std::collections::HashMap;

use browser_skill::attributes::attribute_value;
use browser_skill::decode::{parse_input, Decoder};
use browser_skill::encode::{
    encode_url_component, response_binary_base64, HOST_BINARY_BASE64_PREFIX,
};
use browser_skill::error::BrowserError;
use browser_skill::format::OutputFormat;
use browser_skill::host::{http_get, HostBridge, HttpRequest};
use browser_skill::html::extract_content;
use browser_skill::json::error_output;
use browser_skill::normalize::truncate_content;
use browser_skill::request::{
    clamp_count, parse_fetch_options, parse_screenshot_options, parse_search_options, require_url,
    BrowserInput,
};
use browser_skill::search::{
    parse_search_results, BraveResponse, BraveResult, BraveWeb, SearchResult,
};
use browser_skill::session::Session;
use browser_skill::skill::{
    execute_screenshot, execute_search, execute_with_host, report, EMPTY_JSON,
};
use serde_json::Value;

struct FakeHost {
    storage: HashMap<String, String>,
    responses: HashMap<String, String>,
}

impl FakeHost {
    fn new() -> Self {
        Self {
            storage: HashMap::new(),
            responses: HashMap::new(),
        }
    }

    fn with_storage(mut self, key: &str, value: &str) -> Self {
        self.storage.insert(key.to_string(), value.to_string());
        self
    }

    fn with_response(mut self, url: &str, body: &str) -> Self {
        self.responses.insert(url.to_string(), body.to_string());
        self
    }
}

impl HostBridge for FakeHost {
    fn kv_get(&self, key: &str) -> Option<String> {
        self.storage.get(key).cloned()
    }

    fn http_request(&self, request: &HttpRequest<'_>) -> Option<String> {
        self.responses.get(request.url).cloned()
    }
}

struct JsonDecoder;

fn member(value: &Value, key: &str) -> Result<Option<String>, String> {
    match value.get(key) {
        None | Some(Value::Null) => Ok(None),
        Some(Value::String(text)) => Ok(Some(text.clone())),
        Some(_) => Err(format!("member {key} is not a string")),
    }
}

impl Decoder for JsonDecoder {
    fn decode_input(&self, raw_input: &str) -> Result<BrowserInput, String> {
        let value: Value = serde_json::from_str(raw_input).map_err(|error| error.to_string())?;
        if !value.is_object() {
            return Err("a request is an object".to_string());
        }
        Ok(BrowserInput {
            tool: member(&value, "tool")?,
            url: member(&value, "url")?,
            format: member(&value, "format")?,
            max_length: member(&value, "max_length")?,
            query: member(&value, "query")?,
            count: member(&value, "count")?,
            width: member(&value, "width")?,
            height: member(&value, "height")?,
        })
    }

    fn decode_response(&self, response: &str) -> Result<BraveResponse, String> {
        let value: Value = serde_json::from_str(response).map_err(|error| error.to_string())?;
        if !value.is_object() {
            return Err("a response is an object".to_string());
        }
        let web = match value.get("web") {
            None | Some(Value::Null) => return Ok(BraveResponse { web: None }),
            Some(web) => web,
        };
        let list = match web.get("results") {
            None | Some(Value::Null) => {
                return Ok(BraveResponse {
                    web: Some(BraveWeb { results: None }),
                })
            }
            Some(list) => list.as_array().ok_or("results is not a list")?,
        };
        let mut results = Vec::new();
        for item in list {
            results.push(BraveResult {
                title: member(item, "title")?,
                url: member(item, "url")?,
                description: member(item, "description")?,
            });
        }
        Ok(BraveResponse {
            web: Some(BraveWeb {
                results: Some(results),
            }),
        })
    }
}

#[test]
fn tool_routing_executes_web_fetch() {
    let host = FakeHost::new().with_response("https://example.com", "<h1>Example</h1>");
    let output = execute_with_host(
        r#"{"tool":"web_fetch","url":"https://example.com"}"#,
        &mut Session::new(&host),
        &JsonDecoder,
    )
    .expect("fetch should succeed");
    let parsed: serde_json::Value = serde_json::from_str(&output).expect("json");

    assert_eq!(parsed["status"], "success");
    assert_eq!(parsed["format"], "markdown");
    assert_eq!(parsed["content"], "# Example");
}

#[test]
fn tool_routing_executes_web_search() {
    let body = r#"{"web":{"results":[{"title":"Rust","url":"https://www.rust-lang.org","description":"Fast systems language"}]}}"#;
    let host = FakeHost::new()
        .with_storage("brave_api_key", "secret")
        .with_response(
            "https://api.search.brave.com/res/v1/web/search?q=rust%20async&count=1",
            body,
        );
    let output = execute_with_host(
        r#"{"tool":"web_search","query":"rust async","count":"1"}"#,
        &mut Session::new(&host),
        &JsonDecoder,
    )
    .expect("search should succeed");
    let parsed: serde_json::Value = serde_json::from_str(&output).expect("json");

    assert_eq!(parsed["status"], "success");
    assert_eq!(parsed["count"], 1);
    assert_eq!(parsed["results"][0]["title"], "Rust");
}

#[test]
fn tool_routing_executes_web_screenshot() {
    let response = format!("{HOST_BINARY_BASE64_PREFIX}AQID");
    let host = FakeHost::new()
        .with_storage("screenshot_service_url", "https://shots.example/render")
        .with_response(
            "https://shots.example/render?url=https%3A%2F%2Fexample.com&width=1280&height=720",
            &response,
        );
    let output = execute_with_host(
        r#"{"tool":"web_screenshot","url":"https://example.com"}"#,
        &mut Session::new(&host),
        &JsonDecoder,
    )
    .expect("screenshot should succeed");
    let parsed: serde_json::Value = serde_json::from_str(&output).expect("json");

    assert_eq!(parsed["status"], "success");
    assert_eq!(parsed["image_base64"], "AQID");
    assert_eq!(parsed["width"], 1280);
    assert_eq!(parsed["height"], 720);
}

#[test]
fn tool_routing_rejects_unknown_tool() {
    let error = execute_with_host(r#"{"tool":"wat"}"#, &mut Session::new(&FakeHost::new()), &JsonDecoder)
        .expect_err("unknown tool should fail");
    assert_eq!(
        error.to_string(),
        "Unknown tool: wat. Available: web_fetch, web_search, web_screenshot"
    );
}

#[test]
fn web_fetch_requires_url() {
    let error = parse_fetch_options(&input_with_tool("web_fetch")).expect_err("url required");
    assert_eq!(error.to_string(), "URL is required");
}

#[test]
fn web_fetch_rejects_invalid_url_scheme() {
    let error = require_url(Some("ftp://example.com")).expect_err("scheme should fail");
    assert_eq!(error.to_string(), "URL must start with http:// or https://");
}

#[test]
fn web_fetch_converts_html_to_markdown() {
    let html = [
        "<header>ignore me</header>",
        "<h1>Example Domain</h1>",
        "<p>This domain is for <a href=\"https://example.com/docs\">documentation</a>.</p>",
        "<ul><li>One</li><li>Two</li></ul>",
        "<pre>let value = 1;</pre>",
        "<script>alert('nope')</script>",
    ]
    .concat();
    let content = extract_content(&html, OutputFormat::Markdown);

    assert_eq!(
        content,
        "# Example Domain\n\nThis domain is for [documentation](https://example.com/docs).\n\n- One\n- Two\n\n```\nlet value = 1;\n```"
    );
}

#[test]
fn web_fetch_text_format_skips_markdown_markup() {
    let html = "<h2>Title</h2><p>Hello <a href=\"https://example.com\">world</a><br>again</p><code>x</code>";
    let content = extract_content(html, OutputFormat::Text);
    assert_eq!(content, "Title\n\nHello world\nagain\n\nx");
}

#[test]
fn web_fetch_truncates_content_at_max_length() {
    let (content, truncated) = truncate_content("abcdef", 4);
    assert_eq!(content, "abcd");
    assert!(truncated);
}

#[test]
fn web_fetch_handles_multibyte_html_without_shifting_tag_offsets() {
    let html = "前缀🙂 <p>Visit <a href=\"https://example.com\">世界</a></p>";
    let content = extract_content(html, OutputFormat::Markdown);

    assert_eq!(content, "前缀🙂 Visit [世界](https://example.com)");
}

#[test]
fn attribute_value_supports_non_href_names() {
    assert_eq!(
        attribute_value("<img src=\"hero.png\" class=\"cover\">", "src"),
        Some("hero.png".to_string())
    );
}

#[test]
fn web_fetch_strips_comments_and_additional_noise_tags() {
    let html = [
        "<!-- ignore me -->",
        "<aside>sidebar</aside>",
        "<noscript>fallback</noscript>",
        "<svg><text>icon</text></svg>",
        "<iframe>embedded</iframe>",
        "<form>controls</form>",
        "<p>Visible</p>",
    ]
    .concat();
    let content = extract_content(&html, OutputFormat::Text);

    assert_eq!(content, "Visible");
}

#[test]
fn web_fetch_decodes_named_and_numeric_entities() {
    let content = extract_content(
        "<p>Tom &amp; Jerry &lt;3 &quot;cartoons&quot; &#39;always&#39; &apos;yes&apos; &#169; &#x1F680; &nbsp;!</p>",
        OutputFormat::Text,
    );
    assert_eq!(content, "Tom & Jerry <3 \"cartoons\" 'always' 'yes' © 🚀 !");
}

#[test]
fn web_fetch_preserves_ordered_list_numbers() {
    let html = "<ol><li>First</li><li>Second</li></ol><ul><li>Third</li></ul>";
    let content = extract_content(html, OutputFormat::Text);

    assert_eq!(content, "1. First\n2. Second\n- Third");
}

#[test]
fn web_search_requires_query() {
    let error = parse_search_options(&BrowserInput {
        tool: Some("web_search".to_string()),
        url: None,
        format: None,
        max_length: None,
        query: None,
        count: None,
        width: None,
        height: None,
    })
    .expect_err("query required");
    assert_eq!(error.to_string(), "Search query is required");
}

#[test]
fn web_search_clamps_count() {
    assert_eq!(clamp_count(Some("0")), 1);
    assert_eq!(clamp_count(Some("99")), 10);
    assert_eq!(clamp_count(Some("bogus")), 5);
}

#[test]
fn web_search_requires_api_key() {
    let error = execute_search(
        &BrowserInput {
            tool: Some("web_search".to_string()),
            url: None,
            format: None,
            max_length: None,
            query: Some("rust".to_string()),
            count: None,
            width: None,
            height: None,
        },
        &mut Session::new(&FakeHost::new()),
        &JsonDecoder,
    )
    .expect_err("missing api key should fail");
    assert_eq!(
        error.to_string(),
        "No Brave API key found. Set 'brave_api_key' in skill storage."
    );
}

#[test]
fn web_search_parses_results() {
    let results = parse_search_results(
        r#"{"web":{"results":[{"title":"Rust","url":"https://www.rust-lang.org","description":"Systems language"}]}}"#,
        &JsonDecoder,
    )
    .expect("results should parse");
    assert_eq!(
        results,
        vec![SearchResult {
            title: "Rust".to_string(),
            url: "https://www.rust-lang.org".to_string(),
            snippet: "Systems language".to_string(),
        }]
    );
}

#[test]
fn web_search_surfaces_error_payloads() {
    let error = parse_search_results(r#"{"error":{"message":"rate limited"}}"#, &JsonDecoder)
        .expect_err("error payload should fail");
    assert_eq!(
        error.to_string(),
        "Failed to fetch https://api.search.brave.com/res/v1/web/search: rate limited"
    );
}

#[test]
fn web_screenshot_requires_url() {
    let error =
        parse_screenshot_options(&input_with_tool("web_screenshot")).expect_err("url required");
    assert_eq!(error.to_string(), "URL is required");
}

#[test]
fn web_screenshot_requires_service_url() {
    let error = execute_screenshot(
        &BrowserInput {
            tool: Some("web_screenshot".to_string()),
            url: Some("https://example.com".to_string()),
            format: None,
            max_length: None,
            query: None,
            count: None,
            width: None,
            height: None,
        },
        &mut Session::new(&FakeHost::new()),
    )
    .expect_err("service url required");
    assert_eq!(
        error.to_string(),
        "Screenshot requires a screenshot service. Set 'screenshot_service_url' in skill storage (e.g., a self-hosted url-to-png service)."
    );
}

#[test]
fn web_screenshot_defaults_dimensions() {
    let options = parse_screenshot_options(&BrowserInput {
        tool: Some("web_screenshot".to_string()),
        url: Some("https://example.com".to_string()),
        format: None,
        max_length: None,
        query: None,
        count: None,
        width: None,
        height: None,
    })
    .expect("options should parse");
    assert_eq!(options.viewport.width, 1280);
    assert_eq!(options.viewport.height, 720);
}

#[test]
fn url_encoding_handles_special_characters() {
    assert_eq!(
        encode_url_component("São Paulo & a+b=?#%"),
        "S%C3%A3o%20Paulo%20%26%20a%2Bb%3D%3F%23%25"
    );
    assert_eq!(
        encode_url_component("https://example.com/a:b"),
        "https%3A%2F%2Fexample.com%2Fa%3Ab"
    );
}

#[test]
fn response_binary_base64_preserves_host_encoded_payloads() {
    let response = format!("{HOST_BINARY_BASE64_PREFIX}Zm9v");
    assert_eq!(response_binary_base64(&response), "Zm9v");
}

#[test]
fn http_failures_include_requested_url() {
    let error = http_get(&mut Session::new(&FakeHost::new()), "https://example.com", EMPTY_JSON)
        .expect_err("request should fail");
    assert_eq!(
        error.to_string(),
        "Failed to fetch https://example.com: request failed"
    );
}

fn input_with_tool(tool: &str) -> BrowserInput {
    BrowserInput {
        tool: Some(tool.to_string()),
        url: None,
        format: None,
        max_length: None,
        query: None,
        count: None,
        width: None,
        height: None,
    }
}

#[test]
fn a_request_that_is_no_json_is_refused() {
    let error = execute_with_host("{", &mut Session::new(&FakeHost::new()), &JsonDecoder).expect_err("no json");
    assert!(error.to_string().starts_with("Invalid input JSON: "));
    let error = parse_input("{", &JsonDecoder).expect_err("no json");
    assert!(matches!(error, BrowserError::InvalidInput(_)));
}

#[test]
fn a_request_without_a_tool_is_refused() {
    let error = execute_with_host(r#"{"tool":"  "}"#, &mut Session::new(&FakeHost::new()), &JsonDecoder)
        .expect_err("tool required");
    assert_eq!(
        error,
        BrowserError::InvalidInput(
            "Tool is required. Available: web_fetch, web_search, web_screenshot".to_string()
        )
    );
}

#[test]
fn a_fetch_is_answered_with_a_whole_document() {
    let host = FakeHost::new().with_response("http://a.example", "<p>\"one\"</p>\t<b>two</b>");
    let output = execute_with_host(
        r#"{"tool":" web_fetch ","url":" http://a.example ","format":" TEXT ","max_length":"6"}"#,
        &mut Session::new(&host),
        &JsonDecoder,
    )
    .expect("fetch should succeed");
    assert_eq!(
        output,
        "{\"status\":\"success\",\"url\":\"http://a.example\",\"format\":\"text\",\"content\":\"\\\"one\\\"\\n\",\"content_length\":6,\"truncated\":true,\"message\":\"📄 Fetched http://a.example (6 chars)\"}"
    );
}

#[test]
fn a_long_document_is_reported_with_grouped_digits() {
    let html = "x".repeat(12_345);
    let host = FakeHost::new().with_response("https://a.example", &html);
    let output = execute_with_host(
        r#"{"tool":"web_fetch","url":"https://a.example"}"#,
        &mut Session::new(&host),
        &JsonDecoder,
    )
    .expect("fetch should succeed");
    let parsed: Value = serde_json::from_str(&output).expect("json");
    assert_eq!(parsed["content_length"], 10_000);
    assert_eq!(parsed["truncated"], true);
    assert_eq!(parsed["message"], "📄 Fetched https://a.example (10,000 chars)");
}

#[test]
fn a_search_is_answered_with_a_whole_document() {
    let body = r#"{"web":{"results":[{"title":"A"},{"url":"u","description":"d"}]}}"#;
    let host = FakeHost::new()
        .with_storage("brave_api_key", " k ")
        .with_response(
            "https://api.search.brave.com/res/v1/web/search?q=x&count=5",
            body,
        );
    let output = execute_with_host(
        r#"{"tool":"web_search","query":" x "}"#,
        &mut Session::new(&host),
        &JsonDecoder,
    )
    .expect("search should succeed");
    assert_eq!(
        output,
        "{\"status\":\"success\",\"query\":\"x\",\"count\":2,\"results\":[{\"title\":\"A\",\"url\":\"\",\"snippet\":\"\"},{\"title\":\"\",\"url\":\"u\",\"snippet\":\"d\"}],\"message\":\"🔍 Found 2 results for: x\"}"
    );
}

#[test]
fn a_search_response_without_results_is_an_empty_list() {
    assert_eq!(parse_search_results("{}", &JsonDecoder).expect("empty"), vec![]);
    assert_eq!(
        parse_search_results(r#"{"web":{}}"#, &JsonDecoder).expect("empty"),
        vec![]
    );
}

#[test]
fn a_search_response_that_is_no_json_is_a_parse_failure() {
    let error = parse_search_results("<html>", &JsonDecoder).expect_err("no json");
    assert!(matches!(error, BrowserError::ParseFailed(_)));
    assert!(error
        .to_string()
        .starts_with("Failed to parse Brave search response: "));
}

#[test]
fn a_screenshot_is_answered_with_a_whole_document() {
    let host = FakeHost::new()
        .with_storage("screenshot_service_url", "https://s.example/?k=1")
        .with_response(
            "https://s.example/?k=1&url=http%3A%2F%2Fa&width=10&height=720",
            "foo",
        );
    let output = execute_with_host(
        r#"{"tool":"web_screenshot","url":"http://a","width":"10","height":"0"}"#,
        &mut Session::new(&host),
        &JsonDecoder,
    )
    .expect("screenshot should succeed");
    assert_eq!(
        output,
        "{\"status\":\"success\",\"url\":\"http://a\",\"width\":10,\"height\":720,\"image_base64\":\"Zm9v\",\"format\":\"png\",\"message\":\"📸 Screenshot of http://a (10x720)\"}"
    );
}

#[test]
fn a_failed_request_is_answered_with_the_address() {
    let error = execute_with_host(
        r#"{"tool":"web_fetch","url":"https://a.example"}"#,
        &mut Session::new(&FakeHost::new()),
        &JsonDecoder,
    )
    .expect_err("no reply");
    assert_eq!(
        error,
        BrowserError::RequestFailed(
            "Failed to fetch https://a.example: request failed".to_string()
        )
    );
}

#[test]
fn an_error_is_reported_and_logged() {
    let error = BrowserError::MissingConfig("no \"key\"".to_string());
    assert_eq!(error_output(&error), "{\"error\":\"no \\\"key\\\"\"}");
    let refused = report(Err(error));
    assert_eq!(refused.output, "{\"error\":\"no \\\"key\\\"\"}");
    assert_eq!(refused.logged, Some("no \"key\"".to_string()));
    let answered = report(Ok("{}".to_string()));
    assert_eq!(answered.output, "{}");
    assert_eq!(answered.logged, None);
}

struct WatchedHost {
    host: FakeHost,
    calls: RefCell<Vec<String>>,
}

impl HostBridge for WatchedHost {
    fn kv_get(&self, key: &str) -> Option<String> {
        self.calls.borrow_mut().push(format!("key {key}"));
        self.host.kv_get(key)
    }

    fn http_request(&self, request: &HttpRequest<'_>) -> Option<String> {
        self.calls.borrow_mut().push(format!(
            "{} {} {} {}",
            request.method, request.url, request.headers, request.body
        ));
        self.host.http_request(request)
    }
}

fn calls_for(raw_input: &str, host: FakeHost) -> Vec<String> {
    let watched = WatchedHost {
        host,
        calls: RefCell::new(Vec::new()),
    };
    let answer = execute_with_host(raw_input, &mut Session::new(&watched), &JsonDecoder);
    let calls = watched.calls.into_inner();
    if calls.is_empty() {
        assert!(matches!(answer, Err(BrowserError::InvalidInput(_))));
    }
    calls
}

#[test]
fn nothing_is_asked_for_a_refused_request() {
    let host = || {
        FakeHost::new()
            .with_storage("brave_api_key", "k")
            .with_storage("screenshot_service_url", "https://shots")
    };
    let refused = [
        "{",
        "[]",
        "{}",
        r#"{"tool":"web"}"#,
        r#"{"tool":"web_fetch"}"#,
        r#"{"tool":"web_fetch","url":"ftp://a"}"#,
        r#"{"tool":"web_search","query":" "}"#,
        r#"{"tool":"web_screenshot","url":"a"}"#,
    ];
    for raw_input in refused {
        assert!(calls_for(raw_input, host()).is_empty(), "{raw_input}");
    }
}

#[test]
fn a_fetch_sends_one_request() {
    let fetch = r#"{"tool":"web_fetch","url":"http://a"}"#;
    assert_eq!(calls_for(fetch, FakeHost::new()), ["GET http://a {} "]);
    assert_eq!(
        calls_for(fetch, FakeHost::new().with_response("http://a", "x")),
        ["GET http://a {} "]
    );
}

#[test]
fn a_search_asks_for_its_key_and_sends_one_request() {
    let search = r#"{"tool":"web_search","query":"q","count":"2"}"#;
    assert_eq!(calls_for(search, FakeHost::new()), ["key brave_api_key"]);
    assert_eq!(
        calls_for(search, FakeHost::new().with_storage("brave_api_key", " k ")),
        [
            "key brave_api_key",
            "GET https://api.search.brave.com/res/v1/web/search?q=q&count=2 \
             {\"Accept\":\"application/json\",\"X-Subscription-Token\":\"k\"} ",
        ]
    );
}

#[test]
fn a_screenshot_asks_for_its_service_and_sends_one_request() {
    let shot = r#"{"tool":"web_screenshot","url":"http://a","width":"1","height":"2"}"#;
    assert_eq!(calls_for(shot, FakeHost::new()), ["key screenshot_service_url"]);
    assert_eq!(
        calls_for(shot, FakeHost::new().with_storage("screenshot_service_url", "http://s")),
        [
            "key screenshot_service_url",
            "GET http://s?url=http%3A%2F%2Fa&width=1&height=2 {} ",
        ]
    );
}
