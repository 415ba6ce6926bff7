//! Whole documents: what is removed, how elements are rendered, and what holds of
//! the extracted content.

use browser_skill::format::OutputFormat;
use browser_skill::html::{
    convert_code_tags, convert_links, convert_pre_tags, extract_content, extract_inline_text,
    render_block_tag, render_inline_code, render_link, render_preformatted, replace_block_tags,
    replace_heading_level, replace_heading_tags, replace_paired_tag, replace_tag,
    strip_html_comments, strip_ignored_blocks, strip_tag_block, strip_tags,
};
use browser_skill::lists::ListState;
use browser_skill::normalize::normalize_text;

const FORMATS: [OutputFormat; 2] = [OutputFormat::Markdown, OutputFormat::Text];

#[test]
fn comments_are_removed() {
    assert_eq!(strip_html_comments("a<!-- x -->b<!---->c"), "abc");
    assert_eq!(strip_html_comments("a<!-->b"), "a");
    assert_eq!(strip_html_comments("a<!-- b"), "a");
    assert_eq!(strip_html_comments("a-->b"), "a-->b");
}

#[test]
fn elements_are_removed_with_their_text() {
    assert_eq!(strip_tag_block("a<Nav x=1>b</NAV >c<nav>d</nav>e", "nav"), "ace");
    assert_eq!(strip_tag_block("a<nav>b", "nav"), "a");
    assert_eq!(strip_tag_block("a<navy>b</navy>", "nav"), "a<navy>b</navy>");
    assert_eq!(strip_tag_block("a<nav b", "nav"), "a<nav b");
    assert_eq!(
        strip_ignored_blocks("1<script>a</script>2<style>b</style>3<form>c</form>4<svg>d</svg>5"),
        "12345"
    );
}

#[test]
fn removing_one_element_can_leave_another() {
    assert_eq!(
        strip_tag_block("<scr<script></script>ipt>x</script>", "script"),
        "<script>x</script>"
    );
}

#[test]
fn paired_tags_are_replaced_by_their_text() {
    let shout = |inner: &str| format!("[{inner}]");
    assert_eq!(replace_paired_tag("a<b>x</b>c<B >y</b>", "b", shout), "a[x]c[y]");
    assert_eq!(replace_paired_tag("a<b>x", "b", shout), "a<b>x");
}

#[test]
fn paired_tags_may_be_rendered_differently_each_time() {
    let count = std::cell::Cell::new(0);
    let number = |inner: &str| {
        count.set(count.get() + 1);
        format!("{}{inner}", count.get())
    };
    assert_eq!(replace_paired_tag("a<b>x</b>c<b>x</b>d<b>", "b", number), "a1xc2xd<b>");
    assert_eq!(replace_paired_tag("no tag", "b", number), "no tag");
    assert_eq!(count.get(), 2);
}

#[test]
fn code_is_marked_in_markdown() {
    assert_eq!(render_preformatted(" x ", OutputFormat::Markdown), "\n```\nx\n```\n");
    assert_eq!(render_preformatted(" x ", OutputFormat::Text), "\nx\n");
    assert_eq!(render_preformatted(" ", OutputFormat::Markdown), "");
    assert_eq!(render_inline_code("<i>x</i>", OutputFormat::Markdown), "`x`");
    assert_eq!(render_inline_code("<i>x</i>", OutputFormat::Text), "x");
    assert_eq!(render_inline_code("<i></i>", OutputFormat::Markdown), "");
    assert_eq!(
        convert_pre_tags("a<pre>b</pre>c", OutputFormat::Markdown),
        "a\n```\nb\n```\nc"
    );
    assert_eq!(convert_code_tags("a<code>b</code>c", OutputFormat::Markdown), "a`b`c");
}

#[test]
fn links_are_written_with_their_target() {
    assert_eq!(render_link("t", Some("u"), OutputFormat::Markdown), "[t](u)");
    assert_eq!(render_link("t", Some(""), OutputFormat::Markdown), "t");
    assert_eq!(render_link("t", None, OutputFormat::Markdown), "t");
    assert_eq!(render_link("t", Some("u"), OutputFormat::Text), "t");
    assert_eq!(render_link("", Some("u"), OutputFormat::Markdown), "");
    assert_eq!(
        convert_links("a <A HREF='u'>b <b>c</b></A> d <a>e</a>", OutputFormat::Markdown),
        "a [b c](u) d e"
    );
    assert_eq!(convert_links("a <a href=u>b", OutputFormat::Markdown), "a <a href=u>b");
}

#[test]
fn headings_are_marked_by_level() {
    assert_eq!(replace_tag("<b>x<b/>", "b", false, "-"), "-x-");
    assert_eq!(replace_tag("<b>x</b>", "b", true, "-"), "<b>x-");
    assert_eq!(
        replace_heading_level("<H3 id=1>x</h3>", 3, OutputFormat::Markdown),
        "\n### x\n\n"
    );
    assert_eq!(replace_heading_level("<h3>x</h3>", 2, OutputFormat::Markdown), "<h3>x</h3>");
    assert_eq!(
        replace_heading_tags("<h1>a</h1><h6>b</h6><h7>c</h7>", OutputFormat::Text),
        "\na\n\n\nb\n\n<h7>c</h7>"
    );
}

#[test]
fn block_tags_are_rendered() {
    let mut state = ListState::default();
    assert_eq!(render_block_tag("</p>", &mut state), "\n\n");
    assert_eq!(render_block_tag("<p>", &mut state), "");
    assert_eq!(render_block_tag("<br/>", &mut state), "\n");
    assert_eq!(render_block_tag("</br>", &mut state), "");
    assert_eq!(render_block_tag("<ol start=3>", &mut state), "");
    assert_eq!(render_block_tag("<LI>", &mut state), "1. ");
    assert_eq!(render_block_tag("</li>", &mut state), "\n");
    assert_eq!(render_block_tag("</ol>", &mut state), "");
    assert_eq!(render_block_tag("<li>", &mut state), "- ");
    assert_eq!(render_block_tag("<>", &mut state), "");
}

#[test]
fn lists_are_numbered_and_nested() {
    assert_eq!(
        replace_block_tags("<ol><li>a</li><ul><li>b</li></ul><li>c</li></ol><li>d</li>"),
        "1. a\n- b\n2. c\n- d\n"
    );
    assert_eq!(replace_block_tags("a<i>b</i>c < d"), "abc < d");
}

#[test]
fn tags_are_stripped() {
    assert_eq!(strip_tags("a<b c='>'>d</b>e > f < g"), "a'>de  f ".replace('>', ""));
    assert_eq!(strip_tags("1 < 2"), "1 ");
    assert_eq!(extract_inline_text(" <b>a</b>\n&amp;\tb "), "a\n& b");
}

#[test]
fn plain_text_is_extracted_as_it_is() {
    for format in FORMATS {
        assert_eq!(extract_content("a  b\r\nc", format), "a b\nc");
        assert_eq!(extract_content("", format), "");
    }
}

#[test]
fn text_with_references_is_extracted_as_the_text() {
    for format in FORMATS {
        assert_eq!(
            extract_content("&lt;script&gt; &amp;amp; &quot;x&quot; &apos;y&apos;", format),
            "<script> &amp; \"x\" 'y'"
        );
    }
}

#[test]
fn comments_leave_nothing_behind() {
    for format in FORMATS {
        assert_eq!(
            extract_content("a <!-- <b>x</b> --> <i>b</i>", format),
            extract_content("a  <i>b</i>", format)
        );
    }
}

#[test]
fn ignored_elements_leave_nothing_behind() {
    let names = [
        "script", "style", "nav", "header", "footer", "noscript", "svg", "iframe", "form", "aside",
    ];
    for name in names {
        for format in FORMATS {
            let upper = name.to_uppercase();
            let html = format!("a <{name} x=\"1\">b</{upper}> <h2>c</h2>");
            assert_eq!(
                extract_content(&html, format),
                extract_content("a  <h2>c</h2>", format)
            );
        }
    }
}

#[test]
fn single_elements_are_extracted_in_both_formats() {
    let cases = [
        ("<h1>a b</h1>", "# a b", "a b"),
        ("<h6>a</h6>", "###### a", "a"),
        ("<code>a b</code>", "`a b`", "a b"),
        ("<pre>a b</pre>", "```\na b\n```", "a b"),
        ("<a href=\"http://x/y?z#w\">a b</a>", "[a b](http://x/y?z#w)", "a b"),
        ("<a href='u'>a</a>", "[a](u)", "a"),
        ("<ol><li>a</li><li>b c</li></ol>", "1. a\n2. b c", "1. a\n2. b c"),
        ("<ul><li>a</li><li>b c</li></ul>", "- a\n- b c", "- a\n- b c"),
    ];
    for (html, markdown, text) in cases {
        assert_eq!(extract_content(html, OutputFormat::Markdown), markdown);
        assert_eq!(extract_content(html, OutputFormat::Text), text);
    }
}

#[test]
fn normalizing_twice_is_normalizing_once() {
    for text in ["", " a ", "\r\n\r\na\t b\r\r\rc\u{a0}", "a\n \n\nb", "\u{2028}x"] {
        let once = normalize_text(text);
        assert_eq!(normalize_text(&once), once);
    }
}

#[test]
fn extracted_content_is_normalized() {
    let html = "<h1> A </h1><p>x<br>y</p><ul><li> 1 </li></ul>\n\n\n<pre> b\n\n\n c </pre>";
    for format in FORMATS {
        let content = extract_content(html, format);
        assert_eq!(normalize_text(&content), content);
    }
}
