//! From an HTML document to readable text.
//!
//! The document goes through a series of passes, each of which rewrites it as a
//! whole: blocks without content are removed, then code, links, headings and
//! block tags are rendered, the remaining tags are stripped, references are
//! decoded and white space is normalized.

use vstd::prelude::*;
use vstd::slice::slice_subrange;

use crate::attributes::{attribute_of, attribute_value};
use crate::entities::{decode_html_entities, entities_decoded};
use crate::format::OutputFormat;
use crate::lists::{can_count, closed, counted, item_marker, opened, ListContext, ListState};
use crate::normalize::{normalize_text, normalized};
use crate::tags::{
    closing_needle, closing_tag, find_needle, find_next_tag, lemma_named_tag, lemma_next_tag,
    name_of_tag, named_tag, next_tag, opening_needle, opening_tag, tag_name, tag_needle,
};
use crate::text::{
    as_text, ascii_lower, decimal, find_from, find_pattern, from_chars, lemma_find_from,
    lower_chars, opt_str, owned, push_decimal, push_range, rest, same_text, to_chars,
};

verus! {

/// The text from `from` on without its comments. A comment that is not closed
/// goes to the end.
pub open spec fn without_comments(s: Seq<char>, from: int) -> Seq<char>
    decreases s.len() - from,
    when 0 <= from
{
    match find_from(s, "<!--"@, from) {
        None => rest(s, from),
        Some(start) => match find_from(s, "-->"@, start + 4) {
            None => s.subrange(from, start),
            Some(end) => {
                proof {
                    reveal_strlit("-->");
                    lemma_find_from(s, "<!--"@, from);
                    lemma_find_from(s, "-->"@, start + 4);
                }
                s.subrange(from, start) + without_comments(s, end + 3)
            },
        },
    }
}

/// The text from `from` on without the elements of the given name: each opening
/// tag is removed with all that follows up to the next closing tag, or up to the
/// end if there is none.
pub open spec fn without_blocks(s: Seq<char>, tag: Seq<char>, from: int) -> Seq<char>
    decreases s.len() - from,
    when 0 <= from
{
    match opening_tag(s, tag, from) {
        None => rest(s, from),
        Some((start, open_end)) => match closing_tag(s, tag, open_end + 1) {
            None => s.subrange(from, start),
            Some((close_start, close_end)) => {
                proof {
                    lemma_named_tag(s, tag, false, from);
                    lemma_named_tag(s, tag, true, open_end + 1);
                }
                s.subrange(from, start) + without_blocks(s, tag, close_end + 1)
            },
        },
    }
}

/// The text from `from` on with each element of the given name replaced by what
/// `render` makes of the text between its tags. From an element that is not
/// closed on, the text stays as it is.
pub open spec fn paired_replaced(
    s: Seq<char>,
    tag: Seq<char>,
    render: spec_fn(Seq<char>) -> Seq<char>,
    from: int,
) -> Seq<char>
    decreases s.len() - from,
    when 0 <= from
{
    match opening_tag(s, tag, from) {
        None => rest(s, from),
        Some((start, open_end)) => match closing_tag(s, tag, open_end + 1) {
            None => rest(s, from),
            Some((close_start, close_end)) => {
                proof {
                    lemma_named_tag(s, tag, false, from);
                    lemma_named_tag(s, tag, true, open_end + 1);
                }
                s.subrange(from, start) + render(s.subrange(open_end + 1, close_start))
                    + paired_replaced(s, tag, render, close_end + 1)
            },
        },
    }
}

/// The text from `from` on with each tag of the given name and kind replaced.
pub open spec fn tags_replaced(
    s: Seq<char>,
    tag: Seq<char>,
    closing: bool,
    replacement: Seq<char>,
    from: int,
) -> Seq<char>
    decreases s.len() - from,
    when 0 <= from
{
    match named_tag(s, tag, closing, from) {
        None => rest(s, from),
        Some((start, end)) => {
            proof {
                lemma_named_tag(s, tag, closing, from);
            }
            s.subrange(from, start) + replacement + tags_replaced(
                s,
                tag,
                closing,
                replacement,
                end + 1,
            )
        },
    }
}

/// Whether a text ends inside a tag: its last angle bracket is a `<`.
pub open spec fn inside_tag(s: Seq<char>) -> bool
    decreases s.len(),
{
    if s.len() == 0 {
        false
    } else if s.last() == '<' {
        true
    } else if s.last() == '>' {
        false
    } else {
        inside_tag(s.drop_last())
    }
}

/// A text without its angle brackets and without what stands inside tags.
pub open spec fn tags_stripped(s: Seq<char>) -> Seq<char>
    decreases s.len(),
{
    if s.len() == 0 {
        s
    } else if s.last() == '<' || s.last() == '>' || inside_tag(s) {
        tags_stripped(s.drop_last())
    } else {
        tags_stripped(s.drop_last()).push(s.last())
    }
}

/// The readable text of a fragment: without tags, decoded and normalized.
pub open spec fn inline_text(s: Seq<char>) -> Seq<char> {
    normalized(entities_decoded(tags_stripped(s), 0))
}

/// What a preformatted element becomes: a fenced block in Markdown, else lines
/// of their own; nothing if it has no text.
pub open spec fn preformatted(inner: Seq<char>, format: OutputFormat) -> Seq<char> {
    let text = inline_text(inner);
    if text.len() == 0 {
        seq![]
    } else {
        match format {
            OutputFormat::Markdown => "\n```\n"@ + text + "\n```\n"@,
            OutputFormat::Text => "\n"@ + text + "\n"@,
        }
    }
}

/// What a code element becomes: its text, in backticks in Markdown; nothing if
/// it has no text.
pub open spec fn inline_code(inner: Seq<char>, format: OutputFormat) -> Seq<char> {
    let text = inline_text(inner);
    if text.len() == 0 {
        seq![]
    } else {
        match format {
            OutputFormat::Markdown => "`"@ + text + "`"@,
            OutputFormat::Text => text,
        }
    }
}

/// What a link becomes: in Markdown with a target, a link; else its text.
pub open spec fn link_text(
    text: Seq<char>,
    href: Option<Seq<char>>,
    format: OutputFormat,
) -> Seq<char> {
    if text.len() == 0 {
        seq![]
    } else {
        match href {
            Some(url) => if format == OutputFormat::Markdown && url.len() > 0 {
                "["@ + text + "]("@ + url + ")"@
            } else {
                text
            },
            None => text,
        }
    }
}

/// The text from `from` on with its links rendered. From a link that is not
/// closed on, the text stays as it is.
pub open spec fn links_converted(s: Seq<char>, format: OutputFormat, from: int) -> Seq<char>
    decreases s.len() - from,
    when 0 <= from
{
    match opening_tag(s, "a"@, from) {
        None => rest(s, from),
        Some((start, open_end)) => match closing_tag(s, "a"@, open_end + 1) {
            None => rest(s, from),
            Some((close_start, close_end)) => {
                proof {
                    lemma_named_tag(s, "a"@, false, from);
                    lemma_named_tag(s, "a"@, true, open_end + 1);
                }
                s.subrange(from, start) + link_text(
                    inline_text(s.subrange(open_end + 1, close_start)),
                    attribute_of(s.subrange(start, open_end + 1), "href"@),
                    format,
                ) + links_converted(s, format, close_end + 1)
            },
        },
    }
}

/// The name of the heading tag of a level.
pub open spec fn heading_tag(level: nat) -> Seq<char> {
    "h"@ + decimal(level)
}

/// What stands before a heading of a level: a line feed, and in Markdown as many
/// number signs as the level and a space.
pub open spec fn heading_prefix(level: nat, format: OutputFormat) -> Seq<char> {
    match format {
        OutputFormat::Markdown => "\n"@ + Seq::new(level, |i: int| '#') + " "@,
        OutputFormat::Text => "\n"@,
    }
}

/// A text with the headings of one level rendered.
pub open spec fn heading_replaced(s: Seq<char>, level: nat, format: OutputFormat) -> Seq<char> {
    let opened = tags_replaced(s, heading_tag(level), false, heading_prefix(level, format), 0);
    tags_replaced(opened, heading_tag(level), true, "\n\n"@, 0)
}

/// A text with the headings of all levels up to the given one rendered, from the
/// first level on.
pub open spec fn headings_replaced(s: Seq<char>, levels: nat, format: OutputFormat) -> Seq<char>
    decreases levels,
{
    if levels == 0 {
        s
    } else {
        heading_replaced(headings_replaced(s, (levels - 1) as nat, format), levels, format)
    }
}

/// What a tag of a block becomes, and the open lists after it.
pub open spec fn block_tag(tag: Seq<char>, stack: Seq<ListContext>) -> (
    Seq<char>,
    Seq<ListContext>,
) {
    match name_of_tag(tag) {
        None => (seq![], stack),
        Some((closing, name)) => if closing && name == "p"@ {
            ("\n\n"@, stack)
        } else if !closing && name == "br"@ {
            ("\n"@, stack)
        } else if !closing && name == "ol"@ {
            (seq![], opened(stack, true))
        } else if closing && name == "ol"@ {
            (seq![], closed(stack, true))
        } else if !closing && name == "ul"@ {
            (seq![], opened(stack, false))
        } else if closing && name == "ul"@ {
            (seq![], closed(stack, false))
        } else if !closing && name == "li"@ {
            (item_marker(stack), counted(stack))
        } else if closing && name == "li"@ {
            ("\n"@, stack)
        } else {
            (seq![], stack)
        },
    }
}

/// The text from `from` on with its block tags rendered and all other tags
/// removed, given the lists that are open there.
pub open spec fn blocks_replaced(s: Seq<char>, stack: Seq<ListContext>, from: int) -> Seq<char>
    decreases s.len() - from,
    when 0 <= from
{
    match next_tag(s, from) {
        None => rest(s, from),
        Some((start, end)) => {
            proof {
                lemma_next_tag(s, from);
            }
            let (text, after) = block_tag(s.subrange(start, end + 1), stack);
            s.subrange(from, start) + text + blocks_replaced(s, after, end + 1)
        },
    }
}

/// The names of the elements that hold no readable content.
pub open spec fn ignored_tags() -> Seq<Seq<char>> {
    seq![
        "script"@,
        "style"@,
        "nav"@,
        "header"@,
        "footer"@,
        "noscript"@,
        "svg"@,
        "iframe"@,
        "form"@,
        "aside"@,
    ]
}

/// A text without the elements of the given names, removed one name after the
/// other.
pub open spec fn without_all(s: Seq<char>, tags: Seq<Seq<char>>) -> Seq<char>
    decreases tags.len(),
{
    if tags.len() == 0 {
        s
    } else {
        without_blocks(without_all(s, tags.drop_last()), tags.last(), 0)
    }
}

/// A text without comments and without the elements that hold no readable
/// content.
pub open spec fn ignored_stripped(s: Seq<char>) -> Seq<char> {
    without_all(without_comments(s, 0), ignored_tags())
}

/// A document with code, links, headings and block tags rendered.
pub open spec fn rendered(s: Seq<char>, format: OutputFormat) -> Seq<char> {
    let with_pre = paired_replaced(s, "pre"@, |inner: Seq<char>| preformatted(inner, format), 0);
    let with_code = paired_replaced(
        with_pre,
        "code"@,
        |inner: Seq<char>| inline_code(inner, format),
        0,
    );
    let with_links = links_converted(with_code, format, 0);
    let with_headings = headings_replaced(with_links, 6, format);
    blocks_replaced(with_headings, seq![], 0)
}

/// The readable content of a document.
pub open spec fn content_of(html: Seq<char>, format: OutputFormat) -> Seq<char> {
    inline_text(rendered(ignored_stripped(html), format))
}

/// Removes comments.
pub fn strip_html_comments(input: &str) -> (stripped: String)
    ensures
        stripped@ == without_comments(input@, 0),
{
    let chars = to_chars(input);
    let s = chars.as_slice();
    let len: usize = s.len();
    let open = to_chars("<!--");
    let close = to_chars("-->");
    let mut result = String::new();
    let mut cursor: usize = 0;
    proof {
        reveal_strlit("<!--");
        reveal_strlit("-->");
        assert(result@ + without_comments(s@, 0) =~= without_comments(s@, 0));
    }
    loop
        invariant
            s@ == input@,
            len == s@.len(),
            open@ == "<!--"@,
            close@ == "-->"@,
            open@.len() == 4,
            close@.len() == 3,
            cursor <= len,
            result@ + without_comments(s@, cursor as int) == without_comments(s@, 0),
        decreases len - cursor,
    {
        proof {
            lemma_find_from(s@, open@, cursor as int);
        }
        let start: usize = match find_pattern(s, open.as_slice(), cursor) {
            Some(start) => start,
            None => {
                push_range(&mut result, s, cursor, len);
                return result;
            },
        };
        let ghost before = result@;
        push_range(&mut result, s, cursor, start);
        proof {
            lemma_find_from(s@, close@, start + 4);
        }
        let end: usize = match find_pattern(s, close.as_slice(), start + 4) {
            Some(end) => end,
            None => {
                return result;
            },
        };
        assert(result@ + without_comments(s@, end + 3) =~= before + without_comments(
            s@,
            cursor as int,
        ));
        cursor = end + 3;
    }
}

/// Removes the elements of the given name.
pub fn strip_tag_block(input: &str, tag: &str) -> (stripped: String)
    ensures
        stripped@ == without_blocks(input@, tag@, 0),
{
    let chars = to_chars(input);
    let s = chars.as_slice();
    let len: usize = s.len();
    let lower = lower_chars(s);
    let open = tag_needle(tag, false);
    let close = tag_needle(tag, true);
    let mut result = String::new();
    let mut cursor: usize = 0;
    assert(result@ + without_blocks(s@, tag@, 0) =~= without_blocks(s@, tag@, 0));
    loop
        invariant
            s@ == input@,
            len == s@.len(),
            lower@ == ascii_lower(s@),
            open@ == opening_needle(tag@),
            close@ == closing_needle(tag@),
            cursor <= len,
            result@ + without_blocks(s@, tag@, cursor as int) == without_blocks(s@, tag@, 0),
        decreases len - cursor,
    {
        proof {
            lemma_named_tag(s@, tag@, false, cursor as int);
        }
        let (start, open_end): (usize, usize) = match find_needle(
            lower.as_slice(),
            open.as_slice(),
            cursor,
        ) {
            Some(bounds) => bounds,
            None => {
                push_range(&mut result, s, cursor, len);
                return result;
            },
        };
        let ghost before = result@;
        push_range(&mut result, s, cursor, start);
        proof {
            lemma_named_tag(s@, tag@, true, open_end + 1);
        }
        let (_, close_end): (usize, usize) = match find_needle(
            lower.as_slice(),
            close.as_slice(),
            open_end + 1,
        ) {
            Some(bounds) => bounds,
            None => {
                return result;
            },
        };
        assert(result@ + without_blocks(s@, tag@, close_end + 1) =~= before + without_blocks(
            s@,
            tag@,
            cursor as int,
        ));
        cursor = close_end + 1;
    }
}

/// Removes comments and the elements that hold no readable content.
pub fn strip_ignored_blocks(input: &str) -> (stripped: String)
    ensures
        stripped@ == ignored_stripped(input@),
{
    let names: [&str; 10] = [
        "script",
        "style",
        "nav",
        "header",
        "footer",
        "noscript",
        "svg",
        "iframe",
        "form",
        "aside",
    ];
    let mut stripped = strip_html_comments(input);
    let ghost tags = ignored_tags();
    for i in 0..10
        invariant
            tags == ignored_tags(),
            forall|k: int| 0 <= k < 10 ==> #[trigger] names@[k]@ == tags[k],
            stripped@ == without_all(without_comments(input@, 0), tags.take(i as int)),
    {
        assert(tags.take(i + 1).drop_last() =~= tags.take(i as int));
        assert(names@[i as int]@ == tags[i as int]);
        stripped = strip_tag_block(stripped.as_str(), names[i]);
    }
    assert(tags.take(10) =~= tags);
    stripped
}

/// Whether an executable function on texts may turn `inner` into `out`.
pub open spec fn may_render<F: Fn(&str) -> String>(
    render: F,
    inner: Seq<char>,
    out: Seq<char>,
) -> bool {
    exists|given: &str, text: String| #[trigger]
        call_ensures(render, (given,), text) && given@ == inner && text@ == out
}

/// Whether `out` may be the text from `from` on with each element of the given
/// name replaced by what `render` may make of the text between its tags. Where no
/// element begins any more, or one that is not closed, the text stays as it is.
pub open spec fn may_replace<F: Fn(&str) -> String>(
    render: F,
    s: Seq<char>,
    tag: Seq<char>,
    from: int,
    out: Seq<char>,
) -> bool
    decreases s.len() - from,
    when 0 <= from
{
    match opening_tag(s, tag, from) {
        None => out == rest(s, from),
        Some((start, open_end)) => match closing_tag(s, tag, open_end + 1) {
            None => out == rest(s, from),
            Some((close_start, close_end)) => {
                proof {
                    lemma_named_tag(s, tag, false, from);
                    lemma_named_tag(s, tag, true, open_end + 1);
                }
                exists|text: Seq<char>| #[trigger]
                    may_render(render, s.subrange(open_end + 1, close_start), text) && {
                        let head = s.subrange(from, start) + text;
                        &&& head.is_prefix_of(out)
                        &&& may_replace(render, s, tag, close_end + 1, out.skip(head.len() as int))
                    }
            },
        },
    }
}

/// Whether a function on texts describes what an executable one returns.
pub open spec fn describes<F: Fn(&str) -> String>(
    render: F,
    model: spec_fn(Seq<char>) -> Seq<char>,
) -> bool {
    forall|inner: &str, out: String|
        #![trigger call_ensures(render, (inner,), out)]
        call_ensures(render, (inner,), out) ==> out@ == model(inner@)
}

/// If a function on texts describes what `render` returns, the elements are
/// replaced by what that function makes of them, and by nothing else.
pub proof fn described_rendering_is_exact<F: Fn(&str) -> String>(
    render: F,
    model: spec_fn(Seq<char>) -> Seq<char>,
    s: Seq<char>,
    tag: Seq<char>,
    from: int,
    out: Seq<char>,
)
    requires
        0 <= from,
        describes(render, model),
        may_replace(render, s, tag, from, out),
    ensures
        out == paired_replaced(s, tag, model, from),
    decreases s.len() - from,
{
    lemma_named_tag(s, tag, false, from);
    if let Some((start, open_end)) = opening_tag(s, tag, from) {
        lemma_named_tag(s, tag, true, open_end + 1);
        if let Some((close_start, close_end)) = closing_tag(s, tag, open_end + 1) {
            let inner = s.subrange(open_end + 1, close_start);
            let text = choose|text: Seq<char>| #[trigger]
                may_render(render, inner, text) && {
                    let head = s.subrange(from, start) + text;
                    &&& head.is_prefix_of(out)
                    &&& may_replace(render, s, tag, close_end + 1, out.skip(head.len() as int))
                };
            let head = s.subrange(from, start) + text;
            let tail = out.skip(head.len() as int);
            described_rendering_is_exact(render, model, s, tag, close_end + 1, tail);
            assert(text == model(inner));
            assert(out =~= head + tail);
        }
    }
}

/// Replaces the elements of the given name by what `render` makes of the text
/// between their tags.
pub fn replace_paired_tag<F>(input: &str, tag: &str, render: F) -> (replaced: String)
    where
        F: Fn(&str) -> String,

    requires
        forall|inner: &str| call_requires(render, (inner,)),
    ensures
        may_replace(render, input@, tag@, 0, replaced@),
        forall|model: spec_fn(Seq<char>) -> Seq<char>|
            #![trigger paired_replaced(input@, tag@, model, 0)]
            describes(render, model) ==> replaced@ == paired_replaced(input@, tag@, model, 0),
{
    let chars = to_chars(input);
    let s = chars.as_slice();
    let len: usize = s.len();
    let lower = lower_chars(s);
    let open = tag_needle(tag, false);
    let close = tag_needle(tag, true);
    let mut result = String::new();
    let mut cursor: usize = 0;
    proof {
        assert forall|tail: Seq<char>| #[trigger]
            may_replace(render, s@, tag@, 0, tail) implies may_replace(
            render,
            s@,
            tag@,
            0,
            result@ + tail,
        ) by {
            assert(result@ + tail =~= tail);
        }
    }
    loop
        invariant_except_break
            forall|inner: &str| call_requires(render, (inner,)),
            len == s@.len(),
            lower@ == ascii_lower(s@),
            open@ == opening_needle(tag@),
            close@ == closing_needle(tag@),
            cursor <= len,
            forall|tail: Seq<char>| #[trigger]
                may_replace(render, s@, tag@, cursor as int, tail) ==> may_replace(
                    render,
                    s@,
                    tag@,
                    0,
                    result@ + tail,
                ),
        invariant
            s@ == input@,
        ensures
            may_replace(render, s@, tag@, 0, result@),
        decreases len - cursor,
    {
        proof {
            lemma_named_tag(s@, tag@, false, cursor as int);
        }
        let ghost before = result@;
        let (start, open_end): (usize, usize) = match find_needle(
            lower.as_slice(),
            open.as_slice(),
            cursor,
        ) {
            Some(bounds) => bounds,
            None => {
                push_range(&mut result, s, cursor, len);
                assert(may_replace(render, s@, tag@, cursor as int, rest(s@, cursor as int)));
                break ;
            },
        };
        proof {
            lemma_named_tag(s@, tag@, true, open_end + 1);
        }
        let (close_start, close_end): (usize, usize) = match find_needle(
            lower.as_slice(),
            close.as_slice(),
            open_end + 1,
        ) {
            Some(bounds) => bounds,
            None => {
                push_range(&mut result, s, cursor, len);
                assert(may_replace(render, s@, tag@, cursor as int, rest(s@, cursor as int)));
                break ;
            },
        };
        push_range(&mut result, s, cursor, start);
        let inner = from_chars(slice_subrange(s, open_end + 1, close_start));
        let out = render(inner.as_str());
        result.append(out.as_str());
        proof {
            let head = s@.subrange(cursor as int, start as int) + out@;
            assert(may_render(render, inner@, out@));
            assert forall|tail: Seq<char>| #[trigger]
                may_replace(render, s@, tag@, close_end + 1, tail) implies may_replace(
                render,
                s@,
                tag@,
                0,
                result@ + tail,
            ) by {
                assert((head + tail).skip(head.len() as int) =~= tail);
                assert(head.is_prefix_of(head + tail));
                assert(may_replace(render, s@, tag@, cursor as int, head + tail));
                assert(result@ + tail =~= before + (head + tail));
            }
        }
        cursor = close_end + 1;
    }
    proof {
        assert forall|model: spec_fn(Seq<char>) -> Seq<char>|
            #![trigger paired_replaced(input@, tag@, model, 0)]
            describes(render, model) implies result@ == paired_replaced(
            input@,
            tag@,
            model,
            0,
        ) by {
            described_rendering_is_exact(render, model, input@, tag@, 0, result@);
        }
    }
    result
}

/// Renders a preformatted element.
pub fn render_preformatted(inner: &str, format: OutputFormat) -> (out: String)
    ensures
        out@ == preformatted(inner@, format),
{
    let text = extract_inline_text(inner);
    if text.as_str().is_empty() {
        assert(Seq::<char>::empty() =~= preformatted(inner@, format));
        return String::new();
    }
    match format {
        OutputFormat::Markdown => {
            let mut out = owned("\n```\n");
            out.append(text.as_str());
            out.append("\n```\n");
            out
        },
        OutputFormat::Text => {
            let mut out = owned("\n");
            out.append(text.as_str());
            out.append("\n");
            out
        },
    }
}

/// Renders a code element.
pub fn render_inline_code(inner: &str, format: OutputFormat) -> (out: String)
    ensures
        out@ == inline_code(inner@, format),
{
    let text = extract_inline_text(inner);
    if text.as_str().is_empty() {
        assert(Seq::<char>::empty() =~= inline_code(inner@, format));
        return String::new();
    }
    match format {
        OutputFormat::Markdown => {
            let mut out = owned("`");
            out.append(text.as_str());
            out.append("`");
            out
        },
        OutputFormat::Text => text,
    }
}

/// Renders the preformatted elements.
pub fn convert_pre_tags(input: &str, format: OutputFormat) -> (out: String)
    ensures
        out@ == paired_replaced(
            input@,
            "pre"@,
            |inner: Seq<char>| preformatted(inner, format),
            0,
        ),
{
    let ghost model = |inner: Seq<char>| preformatted(inner, format);
    let render = |inner: &str| -> (out: String)
        ensures
            out@ == preformatted(inner@, format),
        { render_preformatted(inner, format) };
    assert(describes(render, model));
    let out = replace_paired_tag(input, "pre", render);
    assert(out@ == paired_replaced(input@, "pre"@, model, 0));
    out
}

/// Renders the code elements.
pub fn convert_code_tags(input: &str, format: OutputFormat) -> (out: String)
    ensures
        out@ == paired_replaced(
            input@,
            "code"@,
            |inner: Seq<char>| inline_code(inner, format),
            0,
        ),
{
    let ghost model = |inner: Seq<char>| inline_code(inner, format);
    let render = |inner: &str| -> (out: String)
        ensures
            out@ == inline_code(inner@, format),
        { render_inline_code(inner, format) };
    assert(describes(render, model));
    let out = replace_paired_tag(input, "code", render);
    assert(out@ == paired_replaced(input@, "code"@, model, 0));
    out
}

/// Renders a link.
pub fn render_link(text: &str, href: Option<&str>, format: OutputFormat) -> (out: String)
    ensures
        out@ == link_text(text@, opt_str(href), format),
{
    if text.is_empty() {
        assert(Seq::<char>::empty() =~= link_text(text@, opt_str(href), format));
        return String::new();
    }
    match (format, href) {
        (OutputFormat::Markdown, Some(url)) => {
            if url.is_empty() {
                owned(text)
            } else {
                let mut out = owned("[");
                out.append(text);
                out.append("](");
                out.append(url);
                out.append(")");
                out
            }
        },
        _ => owned(text),
    }
}

/// Renders the links.
pub fn convert_links(input: &str, format: OutputFormat) -> (out: String)
    ensures
        out@ == links_converted(input@, format, 0),
{
    let chars = to_chars(input);
    let s = chars.as_slice();
    let len: usize = s.len();
    let lower = lower_chars(s);
    let open = tag_needle("a", false);
    let close = tag_needle("a", true);
    let mut result = String::new();
    let mut cursor: usize = 0;
    assert(result@ + links_converted(s@, format, 0) =~= links_converted(s@, format, 0));
    loop
        invariant
            s@ == input@,
            len == s@.len(),
            lower@ == ascii_lower(s@),
            open@ == opening_needle("a"@),
            close@ == closing_needle("a"@),
            cursor <= len,
            result@ + links_converted(s@, format, cursor as int) == links_converted(s@, format, 0),
        decreases len - cursor,
    {
        proof {
            lemma_named_tag(s@, "a"@, false, cursor as int);
        }
        let ghost before = result@;
        let (start, open_end): (usize, usize) = match find_needle(
            lower.as_slice(),
            open.as_slice(),
            cursor,
        ) {
            Some(bounds) => bounds,
            None => {
                push_range(&mut result, s, cursor, len);
                return result;
            },
        };
        proof {
            lemma_named_tag(s@, "a"@, true, open_end + 1);
        }
        let (close_start, close_end): (usize, usize) = match find_needle(
            lower.as_slice(),
            close.as_slice(),
            open_end + 1,
        ) {
            Some(bounds) => bounds,
            None => {
                push_range(&mut result, s, cursor, len);
                return result;
            },
        };
        push_range(&mut result, s, cursor, start);
        let tag = from_chars(slice_subrange(s, start, open_end + 1));
        let inner = from_chars(slice_subrange(s, open_end + 1, close_start));
        let text = extract_inline_text(inner.as_str());
        let href = attribute_value(tag.as_str(), "href");
        let link = render_link(text.as_str(), as_text(&href), format);
        result.append(link.as_str());
        assert(result@ + links_converted(s@, format, close_end + 1) =~= before + links_converted(
            s@,
            format,
            cursor as int,
        ));
        cursor = close_end + 1;
    }
}

/// Replaces each tag of the given name and kind.
pub fn replace_tag(input: &str, tag: &str, closing: bool, replacement: &str) -> (out: String)
    ensures
        out@ == tags_replaced(input@, tag@, closing, replacement@, 0),
{
    let chars = to_chars(input);
    let s = chars.as_slice();
    let len: usize = s.len();
    let lower = lower_chars(s);
    let needle = tag_needle(tag, closing);
    let mut result = String::new();
    let mut cursor: usize = 0;
    assert(result@ + tags_replaced(s@, tag@, closing, replacement@, 0) =~= tags_replaced(
        s@,
        tag@,
        closing,
        replacement@,
        0,
    ));
    loop
        invariant
            s@ == input@,
            len == s@.len(),
            lower@ == ascii_lower(s@),
            needle@ == (if closing {
                closing_needle(tag@)
            } else {
                opening_needle(tag@)
            }),
            cursor <= len,
            result@ + tags_replaced(s@, tag@, closing, replacement@, cursor as int)
                == tags_replaced(s@, tag@, closing, replacement@, 0),
        decreases len - cursor,
    {
        proof {
            lemma_named_tag(s@, tag@, closing, cursor as int);
        }
        let ghost before = result@;
        let (start, end): (usize, usize) = match find_needle(
            lower.as_slice(),
            needle.as_slice(),
            cursor,
        ) {
            Some(bounds) => bounds,
            None => {
                push_range(&mut result, s, cursor, len);
                return result;
            },
        };
        push_range(&mut result, s, cursor, start);
        result.append(replacement);
        assert(result@ + tags_replaced(s@, tag@, closing, replacement@, end + 1) =~= before
            + tags_replaced(s@, tag@, closing, replacement@, cursor as int));
        cursor = end + 1;
    }
}

/// Renders the headings of one level.
pub fn replace_heading_level(input: &str, level: usize, format: OutputFormat) -> (out: String)
    ensures
        out@ == heading_replaced(input@, level as nat, format),
{
    let mut tag = owned("h");
    push_decimal(&mut tag, level as u64);
    let mut prefix = owned("\n");
    match format {
        OutputFormat::Markdown => {
            for i in 0..level
                invariant
                    prefix@ == "\n"@ + Seq::new(i as nat, |k: int| '#'),
            {
                prefix.push('#');
                assert(prefix@ =~= "\n"@ + Seq::new((i + 1) as nat, |k: int| '#'));
            }
            prefix.append(" ");
        },
        OutputFormat::Text => {},
    }
    let opened = replace_tag(input, tag.as_str(), false, prefix.as_str());
    replace_tag(opened.as_str(), tag.as_str(), true, "\n\n")
}

/// Renders the headings of all six levels.
pub fn replace_heading_tags(input: &str, format: OutputFormat) -> (out: String)
    ensures
        out@ == headings_replaced(input@, 6, format),
{
    let mut out = owned(input);
    for level in 1usize..7
        invariant
            out@ == headings_replaced(input@, (level - 1) as nat, format),
    {
        out = replace_heading_level(out.as_str(), level, format);
    }
    out
}

/// Renders a tag of a block, and opens, closes or counts in the open lists.
pub fn render_block_tag(tag: &str, state: &mut ListState) -> (out: String)
    requires
        name_of_tag(tag@) == Some((false, "li"@)) ==> can_count(old(state)@),
    ensures
        out@ == block_tag(tag@, old(state)@).0,
        final(state)@ == block_tag(tag@, old(state)@).1,
{
    let (closing, name): (bool, Vec<char>) = match tag_name(tag) {
        Some((closing, name)) => (closing, to_chars(name.as_str())),
        None => {
            assert(Seq::<char>::empty() =~= block_tag(tag@, old(state)@).0);
            return String::new();
        },
    };
    let name = name.as_slice();
    if closing && same_text(name, "p") {
        owned("\n\n")
    } else if !closing && same_text(name, "br") {
        owned("\n")
    } else if !closing && same_text(name, "ol") {
        state.open_list(true);
        String::new()
    } else if closing && same_text(name, "ol") {
        state.close_list(true);
        String::new()
    } else if !closing && same_text(name, "ul") {
        state.open_list(false);
        String::new()
    } else if closing && same_text(name, "ul") {
        state.close_list(false);
        String::new()
    } else if !closing && same_text(name, "li") {
        state.list_item_prefix()
    } else if closing && same_text(name, "li") {
        owned("\n")
    } else {
        String::new()
    }
}

/// Whether no list has counted further than the given number.
pub open spec fn counts_to(stack: Seq<ListContext>, bound: int) -> bool {
    forall|i: int|
        0 <= i < stack.len() ==> (#[trigger] stack[i] matches ListContext::Ordered { next_index }
            ==> next_index <= bound)
}

proof fn lemma_closed_counts(stack: Seq<ListContext>, ordered: bool, bound: int)
    requires
        counts_to(stack, bound),
    ensures
        counts_to(closed(stack, ordered), bound),
    decreases stack.len(),
{
    if stack.len() > 0 {
        lemma_closed_counts(stack.drop_last(), ordered, bound);
    }
}

proof fn lemma_block_tag_counts(tag: Seq<char>, stack: Seq<ListContext>, bound: int)
    requires
        counts_to(stack, bound),
        1 <= bound < usize::MAX,
    ensures
        counts_to(block_tag(tag, stack).1, bound + 1),
{
    lemma_closed_counts(stack, true, bound);
    lemma_closed_counts(stack, false, bound);
}

/// Renders the block tags and removes all other tags.
pub fn replace_block_tags(input: &str) -> (out: String)
    ensures
        out@ == blocks_replaced(input@, seq![], 0),
{
    let chars = to_chars(input);
    let s = chars.as_slice();
    let len: usize = s.len();
    let mut result = String::new();
    let mut state: ListState = Default::default();
    let mut cursor: usize = 0;
    assert(result@ + blocks_replaced(s@, state@, 0) =~= blocks_replaced(s@, seq![], 0));
    loop
        invariant
            s@ == input@,
            len == s@.len(),
            cursor <= len,
            counts_to(state@, cursor + 1),
            result@ + blocks_replaced(s@, state@, cursor as int) == blocks_replaced(
                s@,
                seq![],
                0,
            ),
        decreases len - cursor,
    {
        proof {
            lemma_next_tag(s@, cursor as int);
        }
        let ghost before = result@;
        let ghost stack = state@;
        let (start, end): (usize, usize) = match find_next_tag(s, cursor) {
            Some(bounds) => bounds,
            None => {
                push_range(&mut result, s, cursor, len);
                return result;
            },
        };
        push_range(&mut result, s, cursor, start);
        let tag = from_chars(slice_subrange(s, start, end + 1));
        proof {
            if state@.len() > 0 {
                assert(state@[state@.len() - 1] == state@.last());
            }
            lemma_block_tag_counts(tag@, state@, cursor + 1);
        }
        let text = render_block_tag(tag.as_str(), &mut state);
        result.append(text.as_str());
        assert(result@ + blocks_replaced(s@, state@, end + 1) =~= before + blocks_replaced(
            s@,
            stack,
            cursor as int,
        ));
        cursor = end + 1;
    }
}

/// Removes angle brackets and what stands inside tags.
pub fn strip_tags(input: &str) -> (out: String)
    ensures
        out@ == tags_stripped(input@),
{
    let chars = to_chars(input);
    let mut result = String::new();
    let mut inside = false;
    for i in 0..chars.len()
        invariant
            chars@ == input@,
            inside == inside_tag(chars@.take(i as int)),
            result@ == tags_stripped(chars@.take(i as int)),
    {
        assert(chars@.take(i + 1).drop_last() =~= chars@.take(i as int));
        let c = chars[i];
        if c == '<' {
            inside = true;
        } else if c == '>' {
            inside = false;
        } else if !inside {
            result.push(c);
        }
    }
    assert(chars@.take(chars@.len() as int) =~= chars@);
    result
}

/// Extracts the readable text of a fragment.
pub fn extract_inline_text(input: &str) -> (out: String)
    ensures
        out@ == inline_text(input@),
{
    let stripped = strip_tags(input);
    let decoded = decode_html_entities(stripped.as_str());
    normalize_text(decoded.as_str())
}

/// Extracts the readable content of a document.
pub fn extract_content(html: &str, format: OutputFormat) -> (content: String)
    ensures
        content@ == content_of(html@, format),
{
    let without_blocks = strip_ignored_blocks(html);
    let with_pre = convert_pre_tags(without_blocks.as_str(), format);
    let with_code = convert_code_tags(with_pre.as_str(), format);
    let with_links = convert_links(with_code.as_str(), format);
    let with_headings = replace_heading_tags(with_links.as_str(), format);
    let with_blocks = replace_block_tags(with_headings.as_str());
    let stripped = strip_tags(with_blocks.as_str());
    let decoded = decode_html_entities(stripped.as_str());
    normalize_text(decoded.as_str())
}

} // verus!
