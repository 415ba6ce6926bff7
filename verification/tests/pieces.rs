//! The building blocks: text, offsets, tags, attributes, lists, references,
//! encodings and numbers.

use browser_skill::attributes::{
    attribute_value, is_attribute_boundary, is_attribute_start, parse_attribute_value,
};
use browser_skill::encode::{
    base64_encode, comma_number, encode_url_component, response_binary_base64,
};
use browser_skill::entities::{decode_html_entities, decode_html_entity, decode_numeric_entity};
use browser_skill::format::OutputFormat;
use browser_skill::lists::{list_context_matches, ListContext, ListState};
use browser_skill::normalize::{
    collapse_blank_lines, normalize_line, normalize_text, truncate_content,
};
use browser_skill::tags::{
    find_closing_tag, find_opening_tag, find_tag, find_tag_bounds, is_tag_boundary,
    next_tag_bounds, tag_name,
};
use browser_skill::text::{ascii_lowercase, is_whitespace, parse_number, trimmed};

#[test]
fn white_space_is_that_of_the_standard_library() {
    for code in 0..=0x10FFFFu32 {
        if let Some(c) = char::from_u32(code) {
            assert_eq!(is_whitespace(c), c.is_whitespace(), "{code:x}");
        }
    }
}

#[test]
fn trimming_removes_all_white_space_at_the_ends() {
    assert_eq!(trimmed(" \t\r\n\u{a0}a b\u{3000}\u{85}"), "a b");
    assert_eq!(trimmed(" \n "), "");
    assert_eq!(trimmed("\u{200b}a"), "\u{200b}a");
}

#[test]
fn lower_case_is_for_ascii_letters_only() {
    assert_eq!(ascii_lowercase("<A HREF=\"ÄÖ[Z]@`\">"), "<a href=\"ÄÖ[z]@`\">");
}

#[test]
fn numbers_are_read_up_to_a_limit() {
    let digits = |text: &str| text.chars().collect::<Vec<char>>();
    assert_eq!(parse_number(&digits("0255"), 10, 255), Some(255));
    assert_eq!(parse_number(&digits("256"), 10, 255), None);
    assert_eq!(parse_number(&digits("+7"), 10, 255), Some(7));
    assert_eq!(parse_number(&digits("+"), 10, 255), None);
    assert_eq!(parse_number(&digits("-7"), 10, 255), None);
    assert_eq!(parse_number(&digits(""), 10, 255), None);
    assert_eq!(parse_number(&digits("fF"), 16, 255), Some(255));
    assert_eq!(parse_number(&digits("fg"), 16, 255), None);
    assert_eq!(
        parse_number(&digits("18446744073709551615"), 10, u64::MAX),
        Some(u64::MAX)
    );
    assert_eq!(parse_number(&digits("18446744073709551616"), 10, u64::MAX), None);
}

#[test]
fn tag_names_end_at_the_boundary_characters() {
    for c in ['>', ' ', '\n', '\r', '\t', '/'] {
        assert!(is_tag_boundary(Some(c)));
    }
    assert!(is_tag_boundary(None));
    assert!(!is_tag_boundary(Some('x')));
    assert!(!is_tag_boundary(Some('\u{a0}')));
}

#[test]
fn tags_are_found_at_their_byte_offsets() {
    let html = "éß<Article>a</ARTICLE >";
    assert_eq!(find_opening_tag(html, "article", 0), Some((4, 12)));
    assert_eq!(find_closing_tag(html, "article", 0), Some((14, 24)));
    assert_eq!(find_tag(html, "article", true, 5), Some((14, 24)));
    assert_eq!(find_tag(html, "article", false, 5), None);
    assert_eq!(next_tag_bounds(html, 5), Some((14, 24)));
    assert_eq!(next_tag_bounds(html, 25), None);
    assert_eq!(next_tag_bounds(html, 26), None);
}

#[test]
fn an_offset_inside_a_character_finds_nothing() {
    let html = "é<a>x</a>";
    assert_eq!(find_opening_tag(html, "a", 1), None);
    assert_eq!(next_tag_bounds(html, 1), None);
    assert_eq!(find_opening_tag(html, "a", 2), Some((2, 4)));
}

#[test]
fn longer_tag_names_are_passed_over() {
    assert_eq!(find_opening_tag("<aside><a>", "a", 0), Some((7, 9)));
    assert_eq!(find_opening_tag("<aside><abbr", "a", 0), None);
    assert_eq!(find_opening_tag("<a href", "a", 0), None);
    assert_eq!(find_tag_bounds("x<B/>", "<b", 0), Some((1, 4)));
    assert_eq!(find_tag_bounds(">", "", 0), Some((0, 0)));
}

#[test]
fn names_are_read_from_tags() {
    assert_eq!(tag_name("<p>"), Some((false, "p".to_string())));
    assert_eq!(tag_name("</ P >"), Some((true, "p".to_string())));
    assert_eq!(tag_name("< BR / >"), Some((false, "br".to_string())));
    assert_eq!(tag_name("<li class=\"x\">"), Some((false, "li".to_string())));
    assert_eq!(tag_name("<>"), None);
    assert_eq!(tag_name("</>"), None);
    assert_eq!(tag_name("p"), None);
    assert_eq!(tag_name("<"), None);
}

#[test]
fn attributes_are_read_in_all_notations() {
    assert_eq!(attribute_value("<a HREF='x y'>", "href"), Some("x y".to_string()));
    assert_eq!(attribute_value("<a href = x>", "href"), Some("x".to_string()));
    assert_eq!(attribute_value("<a\nhref=\"\">", "href"), Some(String::new()));
    assert_eq!(attribute_value("<a data-href=\"n\" href=\"y\">", "href"), Some("y".to_string()));
    assert_eq!(attribute_value("<a href=\"open>", "href"), None);
    assert_eq!(attribute_value("<a href>", "href"), None);
    assert_eq!(attribute_value("<a href x=\"y\">", "href"), None);
    assert_eq!(attribute_value("<a é=\"1\" href=ü>", "href"), Some("ü".to_string()));
}

#[test]
fn values_are_read_from_an_offset_on() {
    assert_eq!(parse_attribute_value("é=\"v\"", 2), Some("v".to_string()));
    assert_eq!(parse_attribute_value("é=\"v\"", 1), None);
    assert_eq!(parse_attribute_value("a=v w", 1), Some("v".to_string()));
    assert_eq!(parse_attribute_value("a=", 1), None);
    assert_eq!(parse_attribute_value("a=v", 9), None);
}

#[test]
fn attribute_names_stand_between_boundaries() {
    assert!(is_attribute_boundary(None));
    assert!(is_attribute_boundary(Some('<')));
    assert!(!is_attribute_boundary(Some('-')));
    let tag: Vec<char> = "<a href=x>".chars().collect();
    assert!(is_attribute_start(&tag, 3, 4));
    assert!(!is_attribute_start(&tag, 4, 3));
    assert!(!is_attribute_start(&tag, 3, 7));
}

#[test]
fn lists_count_their_items() {
    let mut state = ListState::default();
    assert_eq!(state.list_item_prefix(), "- ");
    state.open_list(true);
    assert_eq!(state.list_item_prefix(), "1. ");
    assert_eq!(state.list_item_prefix(), "2. ");
    state.open_list(false);
    assert_eq!(state.list_item_prefix(), "- ");
    state.open_list(true);
    assert_eq!(state.list_item_prefix(), "1. ");
    state.close_list(false);
    assert_eq!(state.stack.len(), 2);
    assert_eq!(state.list_item_prefix(), "2. ");
    state.close_list(true);
    assert_eq!(state.list_item_prefix(), "3. ");
    state.close_list(false);
    assert_eq!(state.stack, vec![ListContext::Ordered { next_index: 4 }]);
}

#[test]
fn a_list_is_of_one_kind() {
    let ordered = ListContext::Ordered { next_index: 3 };
    assert!(list_context_matches(ordered, true));
    assert!(!list_context_matches(ordered, false));
    assert!(list_context_matches(ListContext::Unordered, false));
    assert!(!list_context_matches(ListContext::Unordered, true));
}

#[test]
fn named_references_are_decoded() {
    assert_eq!(decode_html_entity("nbsp"), Some(' '));
    assert_eq!(decode_html_entity("apos"), Some('\''));
    assert_eq!(decode_html_entity("#39"), Some('\''));
    assert_eq!(decode_html_entity("quot"), Some('"'));
    assert_eq!(decode_html_entity("gt"), Some('>'));
    assert_eq!(decode_html_entity("lt"), Some('<'));
    assert_eq!(decode_html_entity("amp"), Some('&'));
    assert_eq!(decode_html_entity("AMP"), None);
    assert_eq!(decode_html_entity(""), None);
}

#[test]
fn numeric_references_are_decoded() {
    assert_eq!(decode_numeric_entity("#65"), Some('A'));
    assert_eq!(decode_numeric_entity("#+65"), Some('A'));
    assert_eq!(decode_numeric_entity("#x1F600"), Some('\u{1F600}'));
    assert_eq!(decode_numeric_entity("#Xe9"), Some('é'));
    assert_eq!(decode_numeric_entity("#xD800"), None);
    assert_eq!(decode_numeric_entity("#xDFFF"), None);
    assert_eq!(decode_numeric_entity("#xE000"), Some('\u{E000}'));
    assert_eq!(decode_numeric_entity("#1114111"), Some('\u{10FFFF}'));
    assert_eq!(decode_numeric_entity("#1114112"), None);
    assert_eq!(decode_numeric_entity("#4294967361"), None);
    assert_eq!(decode_numeric_entity("#"), None);
    assert_eq!(decode_numeric_entity("65"), None);
}

#[test]
fn unknown_references_stay() {
    assert_eq!(decode_html_entities("a &copy; b &lt;c&gt;"), "a &copy; b <c>");
    assert_eq!(decode_html_entities("a & b"), "a & b");
    assert_eq!(decode_html_entities("&amp;lt;"), "&lt;");
    assert_eq!(decode_html_entities("a && b;c&lt;"), "a && b;c<");
}

#[test]
fn white_space_is_normalized() {
    assert_eq!(normalize_line(" a \t\u{a0} b "), "a b");
    assert_eq!(normalize_text("\r\n a\rb\r\n\r\n\r\nc  d\n\n"), "a\nb\n\nc d");
    assert_eq!(normalize_text("\n \n"), "");
    assert_eq!(
        collapse_blank_lines(&[
            String::new(),
            "a".to_string(),
            String::new(),
            String::new(),
            "b".to_string(),
        ]),
        "a\n\nb"
    );
}

#[test]
fn content_is_cut_between_characters() {
    assert_eq!(truncate_content("héllo", 2), ("hé".to_string(), true));
    assert_eq!(truncate_content("héllo", 5), ("héllo".to_string(), false));
    assert_eq!(truncate_content("", 0), (String::new(), false));
    assert_eq!(truncate_content("a", 0), (String::new(), true));
}

#[test]
fn bytes_are_encoded_in_groups() {
    assert_eq!(base64_encode(b""), "");
    assert_eq!(base64_encode(b"f"), "Zg==");
    assert_eq!(base64_encode(b"fo"), "Zm8=");
    assert_eq!(base64_encode(b"foo"), "Zm9v");
    assert_eq!(base64_encode(b"foobar"), "Zm9vYmFy");
    assert_eq!(base64_encode(&[0, 16, 131, 16, 81, 135]), "ABCDEFGH");
    assert_eq!(base64_encode(&[0xfb, 0xff, 0xfe]), "+//+");
    assert_eq!(response_binary_base64("foo"), "Zm9v");
}

#[test]
fn components_are_percent_encoded() {
    assert_eq!(encode_url_component("AZaz09-_.~"), "AZaz09-_.~");
    assert_eq!(encode_url_component("é/?&=#+ %"), "%C3%A9%2F%3F%26%3D%23%2B%20%25");
}

#[test]
fn long_numbers_have_commas() {
    assert_eq!(comma_number(0), "0");
    assert_eq!(comma_number(999), "999");
    assert_eq!(comma_number(1000), "1,000");
    assert_eq!(comma_number(12345), "12,345");
    assert_eq!(comma_number(123456789), "123,456,789");
}

#[test]
fn formats_have_names() {
    assert_eq!(OutputFormat::parse(Some(" TEXT ")), OutputFormat::Text);
    assert_eq!(OutputFormat::parse(Some("html")), OutputFormat::Markdown);
    assert_eq!(OutputFormat::parse(None), OutputFormat::Markdown);
    assert_eq!(OutputFormat::Markdown.as_str(), "markdown");
    assert_eq!(OutputFormat::Text.as_str(), "text");
}
