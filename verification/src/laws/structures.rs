//! Laws of extraction for documents with structure: preformatted text of any
//! length, line breaks, paragraphs, lists whose items have several lines, and
//! elements that have no rendering of their own.

use vstd::prelude::*;

use crate::entities::entities_decoded;
use crate::format::OutputFormat;
use crate::html::{
    block_tag, blocks_replaced, content_of, heading_prefix, heading_tag, headings_replaced,
    ignored_tags, inline_code, inline_text, link_text, links_converted, paired_replaced,
    preformatted, tags_stripped,
};
use crate::laws::encodings::decimal_holds_only_digits;
use crate::laws::extraction::{
    are_other_names, element_document, is_plain_line, lemma_element_among, lemma_empty_rest,
    lemma_end_tag_among, lemma_finished, lemma_heading_names, lemma_headings, lemma_inline_names,
    lemma_kept, lemma_lines_finished, lemma_no_other_closing, lemma_no_other_opening,
    lemma_start_tag_among, lemma_tags_concat, lemma_target_attribute, tags_among,
};
use crate::laws::links::{quoted_target_is_read, target_attribute};
use crate::laws::listing::{block_tag_is_rendered, lemma_name_chars, name_is_read_from_its_tags};
use crate::laws::markup::{
    are_attributes, element_is_rendered, end_tag, is_name, lemma_heading_tag, link_is_rendered,
    start_tag,
};
use crate::laws::passes::{
    breaks_are_line_feeds, code_is_quoted, ignored_elements_are_listed, items_are_marked,
    links_are_written, list_tags_open_and_close, other_tags_are_dropped,
    preformatted_text_is_fenced,
};
use crate::laws::plain_text::{
    lemma_no_headings, text_without_brackets_is_kept, text_without_references_is_kept,
};
use crate::laws::search::lacks;
use crate::laws::spacing::{
    begins_visibly, breaks, ends_visibly, lemma_joined_concat, visible_text_stays,
    white_space_at_the_ends_is_dropped, white_space_becomes_a_gap,
};
use crate::laws::tag_reading::name_is_the_first_word;
use crate::laws::whitespace::{
    line_feeds, normalized_text_has_plain_spaces, normalizing_twice_changes_nothing,
};
use crate::lists::ListContext;
use crate::normalize::{joined, normalized};
use crate::tags::{lemma_named_tag, lemma_next_tag, name_of_tag, named_tag};
use crate::text::{decimal, rest, white_space};

verus! {

/// Whether a text holds no character with a meaning in markup.
pub open spec fn is_plain(s: Seq<char>) -> bool {
    lacks(s, '<') && lacks(s, '>') && lacks(s, '&')
}

/// What is plain is not changed any more once pre and code elements are rendered.
proof fn lemma_plain_finished(s: Seq<char>, format: OutputFormat)
    requires
        is_plain(s),
    ensures
        links_converted(s, format, 0) == s,
        headings_replaced(s, 6, format) == s,
        blocks_replaced(s, Seq::empty(), 0) == s,
        inline_text(s) == normalized(s),
        named_tag(s, "code"@, false, 0) is None,
{
    lemma_named_tag(s, "a"@, false, 0);
    lemma_named_tag(s, "code"@, false, 0);
    assert(rest(s, 0) =~= s);
    lemma_no_headings(s, 6, format);
    lemma_finished(s);
    text_without_brackets_is_kept(s);
    text_without_references_is_kept(s);
}

/// A normalized text that is not empty begins and ends visibly, and normalizing it
/// changes nothing.
proof fn lemma_inline_text(inner: Seq<char>)
    ensures
        normalized(inline_text(inner)) == inline_text(inner),
        inline_text(inner).len() > 0 ==> begins_visibly(inline_text(inner)) && ends_visibly(
            inline_text(inner),
        ),
{
    let decoded = entities_decoded(tags_stripped(inner), 0);
    normalizing_twice_changes_nothing(decoded);
    normalized_text_has_plain_spaces(decoded);
}

proof fn lemma_fenced_text(text: Seq<char>)
    requires
        begins_visibly(text),
        ends_visibly(text),
        normalized(text) == text,
    ensures
        normalized(seq!['\n', '`', '`', '`', '\n'] + text + seq!['\n', '`', '`', '`', '\n'])
            == seq!['`', '`', '`', '\n'] + text + seq!['\n', '`', '`', '`'],
        normalized(seq!['\n'] + text + seq!['\n']) == text,
{
    let fence = seq!['`', '`', '`'];
    let feed = seq!['\n'];
    visible_text_stays(fence);
    assert(breaks(feed) == 1) by {
        reveal_with_fuel(breaks, 2);
    }
    let behind = text + feed + fence;
    white_space_becomes_a_gap(text, feed, fence);
    white_space_becomes_a_gap(fence, feed, behind);
    let all = fence + feed + behind;
    white_space_at_the_ends_is_dropped(feed, all);
    white_space_at_the_ends_is_dropped(feed, feed + all);
    assert((feed + all).last() == '`');
    assert(feed + all + feed =~= seq!['\n', '`', '`', '`', '\n'] + text + seq![
        '\n',
        '`',
        '`',
        '`',
        '\n',
    ]);
    assert(fence + feed + (text + feed + fence) =~= seq!['`', '`', '`', '\n'] + text + seq![
        '\n',
        '`',
        '`',
        '`',
    ]);
    white_space_at_the_ends_is_dropped(feed, text);
    white_space_at_the_ends_is_dropped(feed, feed + text);
    assert((feed + text).last() == text.last());
}

proof fn lemma_fenced_result(inner: Seq<char>, format: OutputFormat)
    requires
        inline_text(inner).len() > 0,
        is_plain(inline_text(inner)),
    ensures
        is_plain(preformatted(inner, format)),
        normalized(preformatted(inner, format)) == (match format {
            OutputFormat::Markdown => seq!['`', '`', '`', '\n'] + inline_text(inner) + seq![
                '\n',
                '`',
                '`',
                '`',
            ],
            OutputFormat::Text => inline_text(inner),
        }),
{
    preformatted_text_is_fenced(inner);
    lemma_inline_text(inner);
    lemma_fenced_text(inline_text(inner));
}

/// Preformatted text of any number of lines is extracted as a whole: in Markdown
/// between two fences, else by itself.
#[verifier::rlimit(30)]
pub proof fn preformatted_text_is_extracted(inner: Seq<char>, format: OutputFormat)
    requires
        lacks(inner, '<'),
        inline_text(inner).len() > 0,
        is_plain(inline_text(inner)),
    ensures
        content_of(element_document("pre"@, seq![], inner), format) == (match format {
            OutputFormat::Markdown => seq!['`', '`', '`', '\n'] + inline_text(inner) + seq![
                '\n',
                '`',
                '`',
                '`',
            ],
            OutputFormat::Text => inline_text(inner),
        }),
{
    let s = element_document("pre"@, seq![], inner);
    let render = |t: Seq<char>| preformatted(t, format);
    let r = preformatted(inner, format);
    let none = Seq::<char>::empty();
    lemma_inline_names();
    lemma_name_chars("pre"@);
    lemma_element_among("pre"@, seq![], inner);
    lemma_kept(s, seq!["pre"@]);
    element_is_rendered(seq![], "pre"@, seq![], inner, "pre"@, seq![], render);
    lemma_empty_rest(format);
    assert(none + r + paired_replaced(none, "pre"@, render, 0) =~= r);
    lemma_fenced_result(inner, format);
    lemma_plain_finished(r, format);
    assert(rest(r, 0) =~= r);
}

proof fn lemma_code_result(inner: Seq<char>, format: OutputFormat)
    requires
        inline_text(inner).len() > 0,
        is_plain(inline_text(inner)),
    ensures
        is_plain(inline_code(inner, format)),
        normalized(inline_code(inner, format)) == (match format {
            OutputFormat::Markdown => seq!['`'] + inline_text(inner) + seq!['`'],
            OutputFormat::Text => inline_text(inner),
        }),
{
    let text = inline_text(inner);
    let none = Seq::<char>::empty();
    let tick = seq!['`'];
    code_is_quoted(inner);
    lemma_inline_text(inner);
    visible_text_stays(tick);
    white_space_becomes_a_gap(text, none, tick);
    assert(text + none + tick =~= text + tick);
    white_space_becomes_a_gap(tick, none, text + tick);
    assert(tick + none + (text + tick) =~= tick + text + tick);
}

/// Code of any length is extracted as a whole: in Markdown between two backticks,
/// else by itself.
#[verifier::rlimit(30)]
pub proof fn code_text_is_extracted(inner: Seq<char>, format: OutputFormat)
    requires
        lacks(inner, '<'),
        inline_text(inner).len() > 0,
        is_plain(inline_text(inner)),
    ensures
        content_of(element_document("code"@, seq![], inner), format) == (match format {
            OutputFormat::Markdown => seq!['`'] + inline_text(inner) + seq!['`'],
            OutputFormat::Text => inline_text(inner),
        }),
{
    let s = element_document("code"@, seq![], inner);
    let render = |t: Seq<char>| inline_code(t, format);
    let r = inline_code(inner, format);
    let none = Seq::<char>::empty();
    lemma_inline_names();
    lemma_name_chars("code"@);
    lemma_element_among("code"@, seq![], inner);
    lemma_kept(s, seq!["code"@]);
    lemma_no_other_opening(s, seq!["code"@], "pre"@);
    assert(rest(s, 0) =~= s);
    element_is_rendered(seq![], "code"@, seq![], inner, "code"@, seq![], render);
    lemma_empty_rest(format);
    assert(none + r + paired_replaced(none, "code"@, render, 0) =~= r);
    lemma_code_result(inner, format);
    lemma_plain_finished(r, format);
}

/// The tags that only the block pass knows, and the line break.
proof fn lemma_block_name(name: Seq<char>, level: nat)
    requires
        name == "li"@ || name == "ol"@ || name == "ul"@ || name == "br"@ || name == "p"@,
    ensures
        is_name(name),
        name != "pre"@,
        name != "code"@,
        name != "a"@,
        name != heading_tag(level),
        !ignored_tags().contains(name),
{
    reveal_strlit("li");
    reveal_strlit("ol");
    reveal_strlit("ul");
    reveal_strlit("br");
    reveal_strlit("p");
    reveal_strlit("h");
    reveal_strlit("pre");
    reveal_strlit("code");
    reveal_strlit("a");
    reveal_strlit("script");
    reveal_strlit("style");
    reveal_strlit("nav");
    reveal_strlit("header");
    reveal_strlit("footer");
    reveal_strlit("noscript");
    reveal_strlit("svg");
    reveal_strlit("iframe");
    reveal_strlit("form");
    reveal_strlit("aside");
    assert(heading_tag(level)[0] == 'h');
    assert(name[0] != 'h' && name[0] != 'a');
    assert forall|k: int| 0 <= k < ignored_tags().len() implies #[trigger] ignored_tags()[k]
        != name by {
        assert(ignored_tags()[k].len() > 2);
    }
}

proof fn lemma_no_heading_tags(
    s: Seq<char>,
    names: Seq<Seq<char>>,
    levels: nat,
    format: OutputFormat,
)
    requires
        tags_among(s, names),
        forall|level: nat|
            1 <= level <= levels ==> #[trigger] are_other_names(names, heading_tag(level)),
    ensures
        headings_replaced(s, levels, format) == s,
    decreases levels,
{
    if levels > 0 {
        let tag = heading_tag(levels);
        lemma_no_heading_tags(s, names, (levels - 1) as nat, format);
        lemma_heading_tag(levels);
        assert(are_other_names(names, tag));
        lemma_no_other_opening(s, names, tag);
        lemma_no_other_closing(s, names, tag);
        assert(rest(s, 0) =~= s);
    }
}

/// A document with no other tags than those of blocks goes to the block pass as it
/// is.
proof fn lemma_blocks_only(s: Seq<char>, names: Seq<Seq<char>>, format: OutputFormat)
    requires
        tags_among(s, names),
        forall|k: int|
            0 <= k < names.len() ==> #[trigger] names[k] == "li"@ || names[k] == "ol"@ || names[k]
                == "ul"@ || names[k] == "br"@ || names[k] == "p"@,
    ensures
        content_of(s, format) == inline_text(blocks_replaced(s, Seq::empty(), 0)),
{
    assert forall|k: int| 0 <= k < names.len() implies is_name(#[trigger] names[k])
        && !ignored_tags().contains(names[k]) by {
        lemma_block_name(names[k], 1);
    }
    assert forall|k: int| 0 <= k < names.len() implies is_name(#[trigger] names[k]) && names[k]
        != "pre"@ && names[k] != "code"@ && names[k] != "a"@ by {
        lemma_block_name(names[k], 1);
    }
    lemma_inline_names();
    lemma_kept(s, names);
    lemma_no_other_opening(s, names, "pre"@);
    lemma_no_other_opening(s, names, "code"@);
    lemma_no_other_opening(s, names, "a"@);
    assert(rest(s, 0) =~= s);
    assert forall|level: nat| 1 <= level <= 6 implies #[trigger] are_other_names(
        names,
        heading_tag(level),
    ) by {
        assert forall|k: int| 0 <= k < names.len() implies is_name(#[trigger] names[k]) && names[k]
            != heading_tag(level) by {
            lemma_block_name(names[k], level);
        }
    }
    lemma_no_heading_tags(s, names, 6, format);
}

/// The block pass keeps the text before a tag and goes on behind the tag.
proof fn lemma_opening_rendered(
    before: Seq<char>,
    name: Seq<char>,
    after: Seq<char>,
    stack: Seq<ListContext>,
)
    requires
        lacks(before, '<'),
        is_name(name),
    ensures
        blocks_replaced(before + start_tag(name, seq![]) + after, stack, 0) == before + block_tag(
            start_tag(name, seq![]),
            stack,
        ).0 + blocks_replaced(after, block_tag(start_tag(name, seq![]), stack).1, 0),
{
    lemma_name_chars(name);
    assert(start_tag(name, seq![]) =~= seq!['<'] + name + seq!['>']);
    block_tag_is_rendered(before, name, after, stack);
}

proof fn lemma_closing_rendered(
    before: Seq<char>,
    name: Seq<char>,
    after: Seq<char>,
    stack: Seq<ListContext>,
)
    requires
        lacks(before, '<'),
        is_name(name),
    ensures
        blocks_replaced(before + end_tag(name) + after, stack, 0) == before + block_tag(
            end_tag(name),
            stack,
        ).0 + blocks_replaced(after, block_tag(end_tag(name), stack).1, 0),
{
    lemma_name_chars(name);
    assert(end_tag(name) =~= seq!['<'] + (seq!['/'] + name) + seq!['>']);
    block_tag_is_rendered(before, seq!['/'] + name, after, stack);
}

/// Lines as they stand in a document, with line breaks between them.
pub open spec fn broken_text(lines: Seq<Seq<char>>) -> Seq<char>
    decreases lines.len(),
{
    if lines.len() == 0 {
        seq![]
    } else if lines.len() == 1 {
        lines[0]
    } else {
        lines[0] + start_tag("br"@, seq![]) + broken_text(lines.subrange(1, lines.len() as int))
    }
}

/// Whatever lists are open, lines with line breaks between them come out of the
/// block pass as lines.
pub proof fn broken_text_is_rendered(
    lines: Seq<Seq<char>>,
    close: Seq<char>,
    after: Seq<char>,
    stack: Seq<ListContext>,
)
    requires
        lines.len() > 0,
        forall|i: int| 0 <= i < lines.len() ==> lacks(#[trigger] lines[i], '<'),
        is_name(close),
    ensures
        blocks_replaced(broken_text(lines) + end_tag(close) + after, stack, 0) == joined(lines)
            + block_tag(end_tag(close), stack).0 + blocks_replaced(
            after,
            block_tag(end_tag(close), stack).1,
            0,
        ),
    decreases lines.len(),
{
    let end = end_tag(close);
    assert(lacks(lines[0], '<'));
    if lines.len() == 1 {
        lemma_closing_rendered(lines[0], close, after, stack);
    } else {
        let tail = lines.subrange(1, lines.len() as int);
        let br = start_tag("br"@, seq![]);
        assert forall|i: int| 0 <= i < tail.len() implies lacks(#[trigger] tail[i], '<') by {
            assert(lacks(lines[i + 1], '<'));
        }
        broken_text_is_rendered(tail, close, after, stack);
        lemma_block_name("br"@, 1);
        name_is_read_from_its_tags("br"@);
        breaks_are_line_feeds(br, stack);
        let later = broken_text(tail) + end + after;
        lemma_opening_rendered(lines[0], "br"@, later, stack);
        assert(lines[0] + br + broken_text(tail) + end + after =~= lines[0] + br + later);
        lemma_joined_concat(seq![lines[0]], tail);
        assert(seq![lines[0]] + tail =~= lines);
        let ended = block_tag(end, stack);
        let rest = blocks_replaced(after, ended.1, 0);
        assert(lines[0] + seq!['\n'] + (joined(tail) + ended.0 + rest) =~= (lines[0] + seq!['\n']
            + joined(tail)) + ended.0 + rest);
    }
}

proof fn lemma_broken_among(lines: Seq<Seq<char>>, names: Seq<Seq<char>>, k: int)
    requires
        0 <= k < names.len(),
        names[k] == "br"@,
        forall|i: int| 0 <= i < lines.len() ==> lacks(#[trigger] lines[i], '<'),
    ensures
        tags_among(broken_text(lines), names),
    decreases lines.len(),
{
    if lines.len() > 0 {
        assert(lacks(lines[0], '<'));
    }
    if lines.len() > 1 {
        let tail = lines.subrange(1, lines.len() as int);
        let br = start_tag("br"@, seq![]);
        assert forall|i: int| 0 <= i < tail.len() implies lacks(#[trigger] tail[i], '<') by {
            assert(lacks(lines[i + 1], '<'));
        }
        lemma_broken_among(tail, names, k);
        lemma_block_name("br"@, 1);
        lemma_start_tag_among("br"@, seq![], names, k);
        lemma_tags_concat(lines[0], br, names);
        lemma_tags_concat(lines[0] + br, broken_text(tail), names);
    }
}

/// A list as it stands in a document, with items of several lines.
pub open spec fn broken_items(items: Seq<Seq<Seq<char>>>) -> Seq<char>
    decreases items.len(),
{
    if items.len() == 0 {
        seq![]
    } else {
        start_tag("li"@, seq![]) + broken_text(items[0]) + end_tag("li"@) + broken_items(
            items.subrange(1, items.len() as int),
        )
    }
}

/// The name of an ordered or unordered list.
pub open spec fn kind_name(ordered: bool) -> Seq<char> {
    if ordered {
        "ol"@
    } else {
        "ul"@
    }
}

/// The mark of an item: its number and a full stop, or a dash.
pub open spec fn mark(ordered: bool, number: nat) -> Seq<char> {
    if ordered {
        decimal(number) + seq!['.', ' ']
    } else {
        seq!['-', ' ']
    }
}

/// The lines of items of which the first has the given number: each item begins
/// with its mark, and its further lines follow.
pub open spec fn marked_lines(ordered: bool, items: Seq<Seq<Seq<char>>>, number: nat) -> Seq<
    Seq<char>,
>
    decreases items.len(),
{
    if items.len() == 0 {
        seq![]
    } else {
        seq![mark(ordered, number) + items[0][0]] + items[0].subrange(1, items[0].len() as int)
            + marked_lines(ordered, items.subrange(1, items.len() as int), number + 1)
    }
}

/// The open lists in a list of which the next item has the given number.
pub open spec fn in_list(stack: Seq<ListContext>, ordered: bool, number: nat) -> Seq<ListContext> {
    stack.push(
        if ordered {
            ListContext::Ordered { next_index: number as usize }
        } else {
            ListContext::Unordered
        },
    )
}

/// Whether items have at least one line each, and no line holds a `<`.
pub open spec fn are_items(items: Seq<Seq<Seq<char>>>) -> bool {
    forall|i: int|
        #![trigger items[i]]
        0 <= i < items.len() ==> items[i].len() > 0 && forall|k: int|
            0 <= k < items[i].len() ==> is_plain_line(#[trigger] items[i][k])
}

proof fn lemma_joined_mark(m: Seq<char>, lines: Seq<Seq<char>>)
    requires
        lines.len() > 0,
    ensures
        m + joined(lines) == joined(
            seq![m + lines[0]] + lines.subrange(1, lines.len() as int),
        ),
{
    let tail = lines.subrange(1, lines.len() as int);
    if lines.len() == 1 {
        assert(seq![m + lines[0]] + tail =~= seq![m + lines[0]]);
        assert(joined(lines) == lines[0]);
    } else {
        lemma_joined_concat(seq![lines[0]], tail);
        assert(seq![lines[0]] + tail =~= lines);
        lemma_joined_concat(seq![m + lines[0]], tail);
        assert(m + (lines[0] + seq!['\n'] + joined(tail)) =~= m + lines[0] + seq!['\n'] + joined(
            tail,
        ));
    }
}

/// One item of several lines in the block pass.
proof fn lemma_item(
    ordered: bool,
    lines: Seq<Seq<char>>,
    number: nat,
    after: Seq<char>,
    stack: Seq<ListContext>,
)
    requires
        lines.len() > 0,
        forall|k: int| 0 <= k < lines.len() ==> is_plain_line(#[trigger] lines[k]),
        number < usize::MAX,
    ensures
        blocks_replaced(
            start_tag("li"@, seq![]) + broken_text(lines) + end_tag("li"@) + after,
            in_list(stack, ordered, number),
            0,
        ) == mark(ordered, number) + joined(lines) + seq!['\n'] + blocks_replaced(
            after,
            in_list(stack, ordered, number + 1),
            0,
        ),
{
    let open = start_tag("li"@, seq![]);
    let close = end_tag("li"@);
    let none = Seq::<char>::empty();
    let now = in_list(stack, ordered, number);
    let next = in_list(stack, ordered, number + 1);
    lemma_block_name("li"@, 1);
    name_is_read_from_its_tags("li"@);
    items_are_marked(open, stack, number as usize);
    items_are_marked(close, stack, number as usize);
    items_are_marked(close, next, number as usize);
    assert(block_tag(open, now) == (mark(ordered, number), next));
    assert(block_tag(close, next) == (seq!['\n'], next));
    assert forall|k: int| 0 <= k < lines.len() implies lacks(#[trigger] lines[k], '<') by {
        assert(is_plain_line(lines[k]));
    }
    broken_text_is_rendered(lines, "li"@, after, next);
    let inner = broken_text(lines) + close + after;
    lemma_opening_rendered(none, "li"@, inner, now);
    assert(none + open + inner =~= open + broken_text(lines) + close + after);
    let tail = blocks_replaced(after, next, 0);
    assert(none + mark(ordered, number) + (joined(lines) + seq!['\n'] + tail) =~= mark(
        ordered,
        number,
    ) + joined(lines) + seq!['\n'] + tail);
}

proof fn lemma_items_to_lines(
    ordered: bool,
    items: Seq<Seq<Seq<char>>>,
    number: nat,
    after: Seq<char>,
    stack: Seq<ListContext>,
)
    requires
        items.len() > 0,
        are_items(items),
        number + items.len() <= usize::MAX,
    ensures
        blocks_replaced(broken_items(items) + after, in_list(stack, ordered, number), 0) == joined(
            marked_lines(ordered, items, number),
        ) + seq!['\n'] + blocks_replaced(after, in_list(stack, ordered, number + items.len()), 0),
    decreases items.len(),
{
    let first = items[0];
    let tail = items.subrange(1, items.len() as int);
    let m = mark(ordered, number);
    let head = seq![m + first[0]] + first.subrange(1, first.len() as int);
    let last = in_list(stack, ordered, number + items.len());
    let item = start_tag("li"@, seq![]) + broken_text(first) + end_tag("li"@);
    assert(items[0].len() > 0);
    assert forall|i: int|
        #![trigger tail[i]]
        0 <= i < tail.len() implies tail[i].len() > 0 && forall|k: int|
        0 <= k < tail[i].len() ==> is_plain_line(#[trigger] tail[i][k]) by {
        assert(items[i + 1] == tail[i]);
    }
    lemma_item(ordered, first, number, broken_items(tail) + after, stack);
    lemma_joined_mark(m, first);
    assert(item + broken_items(tail) + after =~= item + (broken_items(tail) + after));
    if tail.len() == 0 {
        assert(broken_items(tail) + after =~= after);
        assert(marked_lines(ordered, tail, number + 1) =~= Seq::<Seq<char>>::empty());
        assert(marked_lines(ordered, items, number) =~= head);
    } else {
        lemma_items_to_lines(ordered, tail, number + 1, after, stack);
        let later = marked_lines(ordered, tail, number + 1);
        assert(later.len() > 0);
        lemma_joined_concat(head, later);
        assert(number + 1 + tail.len() == number + items.len());
        let end = blocks_replaced(after, last, 0);
        assert(joined(head) + seq!['\n'] + (joined(later) + seq!['\n'] + end) =~= joined(head)
            + seq!['\n'] + joined(later) + seq!['\n'] + end);
    }
}

proof fn lemma_marked_plain(ordered: bool, items: Seq<Seq<Seq<char>>>, number: nat)
    requires
        are_items(items),
    ensures
        forall|i: int|
            0 <= i < marked_lines(ordered, items, number).len() ==> is_plain_line(
                #[trigger] marked_lines(ordered, items, number)[i],
            ),
        items.len() > 0 ==> marked_lines(ordered, items, number).len() > 0,
    decreases items.len(),
{
    if items.len() > 0 {
        let first = items[0];
        let tail = items.subrange(1, items.len() as int);
        let m = mark(ordered, number);
        let later = marked_lines(ordered, tail, number + 1);
        assert(first.len() > 0 && is_plain_line(first[0]));
        assert forall|i: int|
            #![trigger tail[i]]
            0 <= i < tail.len() implies tail[i].len() > 0 && forall|k: int|
            0 <= k < tail[i].len() ==> is_plain_line(#[trigger] tail[i][k]) by {
            assert(items[i + 1] == tail[i]);
        }
        lemma_marked_plain(ordered, tail, number + 1);
        lemma_marked_line(ordered, number, first[0]);
        let all = marked_lines(ordered, items, number);
        assert forall|i: int| 0 <= i < all.len() implies is_plain_line(#[trigger] all[i]) by {
            if i == 0 {
                assert(all[i] == m + first[0]);
            } else if i < first.len() {
                assert(all[i] == first[i]);
            } else {
                assert(all[i] == later[i - first.len()]);
            }
        }
    }
}

proof fn lemma_marked_line(ordered: bool, number: nat, line: Seq<char>)
    requires
        is_plain_line(line),
    ensures
        is_plain_line(mark(ordered, number) + line),
{
    let m = mark(ordered, number);
    let all = m + line;
    let digits = decimal(number);
    decimal_holds_only_digits(number);
    assert forall|k: int| 0 <= k < all.len() implies #[trigger] all[k] != '<' && all[k] != '>'
        && all[k] != '&' && (white_space(all[k]) ==> all[k] == ' ' && (k > 0 ==> !white_space(
        all[k - 1],
    ))) by {
        if k < m.len() {
            assert(all[k] == m[k]);
            if ordered && k < digits.len() {
                assert(all[k] == digits[k]);
            }
        } else {
            assert(all[k] == line[k - m.len()]);
        }
    }
    assert(all.last() == line.last());
    assert(all[0] == m[0]);
    if ordered {
        assert(m[0] == digits[0]);
    }
}

proof fn lemma_items_among(items: Seq<Seq<Seq<char>>>, names: Seq<Seq<char>>)
    requires
        names.len() == 3,
        names[1] == "li"@,
        names[2] == "br"@,
        are_items(items),
    ensures
        tags_among(broken_items(items), names),
    decreases items.len(),
{
    if items.len() > 0 {
        let first = items[0];
        let tail = items.subrange(1, items.len() as int);
        let open = start_tag("li"@, seq![]);
        assert(first.len() > 0);
        assert forall|k: int| 0 <= k < first.len() implies lacks(#[trigger] first[k], '<') by {
            assert(is_plain_line(first[k]));
        }
        assert forall|i: int|
            #![trigger tail[i]]
            0 <= i < tail.len() implies tail[i].len() > 0 && forall|k: int|
            0 <= k < tail[i].len() ==> is_plain_line(#[trigger] tail[i][k]) by {
            assert(items[i + 1] == tail[i]);
        }
        lemma_items_among(tail, names);
        lemma_broken_among(first, names, 2);
        lemma_block_name("li"@, 1);
        lemma_start_tag_among("li"@, seq![], names, 1);
        lemma_end_tag_among("li"@, names, 1);
        lemma_tags_concat(open, broken_text(first), names);
        lemma_tags_concat(open + broken_text(first), end_tag("li"@), names);
        lemma_tags_concat(
            open + broken_text(first) + end_tag("li"@),
            broken_items(tail),
            names,
        );
    }
}

/// A list whose items have line breaks in them is extracted, in either format, with
/// every line on its own: the first line of each item behind its number or dash,
/// and the further ones below it.
#[verifier::rlimit(30)]
pub proof fn list_of_broken_items_is_extracted(
    ordered: bool,
    items: Seq<Seq<Seq<char>>>,
    format: OutputFormat,
)
    requires
        0 < items.len() < usize::MAX,
        are_items(items),
    ensures
        content_of(
            start_tag(kind_name(ordered), seq![]) + broken_items(items) + end_tag(
                kind_name(ordered),
            ),
            format,
        ) == joined(marked_lines(ordered, items, 1)),
{
    let name = kind_name(ordered);
    let open = start_tag(name, seq![]);
    let close = end_tag(name);
    let s = open + broken_items(items) + close;
    let names = seq![name, "li"@, "br"@];
    let none = Seq::<char>::empty();
    let stack = Seq::<ListContext>::empty();
    let lines = marked_lines(ordered, items, 1);
    lemma_block_name(name, 1);
    lemma_items_among(items, names);
    lemma_start_tag_among(name, seq![], names, 0);
    lemma_end_tag_among(name, names, 0);
    lemma_tags_concat(open, broken_items(items), names);
    lemma_tags_concat(open + broken_items(items), close, names);
    lemma_blocks_only(s, names, format);
    name_is_read_from_its_tags(name);
    list_tags_open_and_close(open, stack);
    let inner = broken_items(items) + close;
    lemma_opening_rendered(none, name, inner, stack);
    assert(none + open + inner =~= s);
    assert(block_tag(open, stack) == (none, in_list(stack, ordered, 1)));
    lemma_items_to_lines(ordered, items, 1, close, stack);
    let last = in_list(stack, ordered, 1 + items.len());
    list_tags_open_and_close(close, last);
    lemma_closing_rendered(none, name, none, last);
    assert(none + close + none =~= close);
    let after = block_tag(close, last);
    lemma_next_tag(none, 0);
    assert(blocks_replaced(none, after.1, 0) =~= none);
    assert(blocks_replaced(close, last, 0) =~= none);
    assert(blocks_replaced(s, stack, 0) =~= line_feeds(0) + joined(lines) + line_feeds(1));
    lemma_marked_plain(ordered, items, 1);
    lemma_lines_finished(0, lines, 1);
}

proof fn lemma_broken_paragraph(lines: Seq<Seq<char>>, stack: Seq<ListContext>)
    requires
        lines.len() > 0,
        forall|i: int| 0 <= i < lines.len() ==> lacks(#[trigger] lines[i], '<'),
    ensures
        blocks_replaced(
            start_tag("p"@, seq![]) + broken_text(lines) + end_tag("p"@),
            stack,
            0,
        ) == joined(lines) + seq!['\n', '\n'],
{
    let open = start_tag("p"@, seq![]);
    let close = end_tag("p"@);
    let text = broken_text(lines);
    let none = Seq::<char>::empty();
    lemma_block_name("p"@, 1);
    name_is_read_from_its_tags("p"@);
    breaks_are_line_feeds(close, stack);
    lemma_paragraph_opening(open, stack);
    broken_text_is_rendered(lines, "p"@, none, stack);
    let inner = text + close + none;
    lemma_opening_rendered(none, "p"@, inner, stack);
    assert(none + open + inner =~= open + text + close);
    lemma_next_tag(none, 0);
    assert(blocks_replaced(none, stack, 0) =~= none);
    assert(none + none + (joined(lines) + seq!['\n', '\n'] + none) =~= joined(lines) + seq![
        '\n',
        '\n',
    ]);
}

proof fn lemma_broken_paragraph_among(lines: Seq<Seq<char>>)
    requires
        forall|i: int| 0 <= i < lines.len() ==> lacks(#[trigger] lines[i], '<'),
    ensures
        tags_among(
            start_tag("p"@, seq![]) + broken_text(lines) + end_tag("p"@),
            seq!["p"@, "br"@],
        ),
{
    let open = start_tag("p"@, seq![]);
    let close = end_tag("p"@);
    let text = broken_text(lines);
    let names = seq!["p"@, "br"@];
    lemma_block_name("p"@, 1);
    lemma_broken_among(lines, names, 1);
    lemma_start_tag_among("p"@, seq![], names, 0);
    lemma_end_tag_among("p"@, names, 0);
    lemma_tags_concat(open, text, names);
    lemma_tags_concat(open + text, close, names);
}

/// A paragraph with line breaks in it is extracted, in either format, with every
/// line on its own.
#[verifier::rlimit(30)]
pub proof fn broken_paragraph_is_extracted(lines: Seq<Seq<char>>, format: OutputFormat)
    requires
        lines.len() > 0,
        forall|i: int| 0 <= i < lines.len() ==> is_plain_line(#[trigger] lines[i]),
    ensures
        content_of(start_tag("p"@, seq![]) + broken_text(lines) + end_tag("p"@), format) == joined(
            lines,
        ),
{
    let s = start_tag("p"@, seq![]) + broken_text(lines) + end_tag("p"@);
    assert forall|i: int| 0 <= i < lines.len() implies lacks(#[trigger] lines[i], '<') by {
        assert(is_plain_line(lines[i]));
    }
    lemma_broken_paragraph_among(lines);
    lemma_broken_paragraph(lines, Seq::empty());
    lemma_blocks_only(s, seq!["p"@, "br"@], format);
    assert(joined(lines) + seq!['\n', '\n'] =~= line_feeds(0) + joined(lines) + line_feeds(2));
    lemma_lines_finished(0, lines, 2);
}

/// Paragraphs as they stand in a document.
pub open spec fn paragraphs(texts: Seq<Seq<char>>) -> Seq<char>
    decreases texts.len(),
{
    if texts.len() == 0 {
        seq![]
    } else {
        start_tag("p"@, seq![]) + texts[0] + end_tag("p"@) + paragraphs(
            texts.subrange(1, texts.len() as int),
        )
    }
}

/// Texts with an empty line between each two.
pub open spec fn set_apart(texts: Seq<Seq<char>>) -> Seq<char>
    decreases texts.len(),
{
    if texts.len() == 0 {
        seq![]
    } else if texts.len() == 1 {
        normalized(texts[0])
    } else {
        normalized(texts[0]) + seq!['\n', '\n'] + set_apart(
            texts.subrange(1, texts.len() as int),
        )
    }
}

/// Whether texts hold no markup and begin and end visibly.
pub open spec fn are_texts(texts: Seq<Seq<char>>) -> bool {
    forall|i: int|
        0 <= i < texts.len() ==> is_plain(#[trigger] texts[i]) && begins_visibly(texts[i])
            && ends_visibly(texts[i])
}

spec fn with_ends(texts: Seq<Seq<char>>) -> Seq<char>
    decreases texts.len(),
{
    if texts.len() == 0 {
        seq![]
    } else {
        texts[0] + seq!['\n', '\n'] + with_ends(texts.subrange(1, texts.len() as int))
    }
}

proof fn lemma_texts_behind(texts: Seq<Seq<char>>)
    requires
        are_texts(texts),
        texts.len() > 0,
    ensures
        are_texts(texts.subrange(1, texts.len() as int)),
{
    let tail = texts.subrange(1, texts.len() as int);
    assert forall|i: int| 0 <= i < tail.len() implies is_plain(#[trigger] tail[i])
        && begins_visibly(tail[i]) && ends_visibly(tail[i]) by {
        assert(is_plain(texts[i + 1]));
    }
}

proof fn lemma_paragraphs(texts: Seq<Seq<char>>, stack: Seq<ListContext>)
    requires
        are_texts(texts),
    ensures
        blocks_replaced(paragraphs(texts), stack, 0) == with_ends(texts),
    decreases texts.len(),
{
    let none = Seq::<char>::empty();
    if texts.len() == 0 {
        lemma_next_tag(none, 0);
        assert(blocks_replaced(none, stack, 0) =~= none);
    } else {
        let tail = texts.subrange(1, texts.len() as int);
        let text = texts[0];
        assert(is_plain(text));
        lemma_texts_behind(texts);
        lemma_paragraphs(tail, stack);
        lemma_paragraph(text, paragraphs(tail), stack);
    }
}

proof fn lemma_paragraph(text: Seq<char>, after: Seq<char>, stack: Seq<ListContext>)
    requires
        lacks(text, '<'),
    ensures
        blocks_replaced(start_tag("p"@, seq![]) + text + end_tag("p"@) + after, stack, 0) == text
            + seq!['\n', '\n'] + blocks_replaced(after, stack, 0),
{
    let none = Seq::<char>::empty();
    let open = start_tag("p"@, seq![]);
    let close = end_tag("p"@);
    lemma_block_name("p"@, 1);
    name_is_read_from_its_tags("p"@);
    breaks_are_line_feeds(close, stack);
    lemma_paragraph_opening(open, stack);
    let inner = text + close + after;
    lemma_opening_rendered(none, "p"@, inner, stack);
    lemma_closing_rendered(text, "p"@, after, stack);
    assert(none + open + inner =~= open + text + close + after);
    let end = blocks_replaced(after, stack, 0);
    assert(none + none + (text + seq!['\n', '\n'] + end) =~= text + seq!['\n', '\n'] + end);
}

proof fn lemma_paragraphs_among(texts: Seq<Seq<char>>)
    requires
        are_texts(texts),
    ensures
        tags_among(paragraphs(texts), seq!["p"@]),
        is_plain(with_ends(texts)),
    decreases texts.len(),
{
    let names = seq!["p"@];
    if texts.len() > 0 {
        let tail = texts.subrange(1, texts.len() as int);
        let open = start_tag("p"@, seq![]);
        let close = end_tag("p"@);
        let text = texts[0];
        assert(is_plain(text));
        lemma_texts_behind(texts);
        lemma_paragraphs_among(tail);
        lemma_block_name("p"@, 1);
        lemma_start_tag_among("p"@, seq![], names, 0);
        lemma_end_tag_among("p"@, names, 0);
        lemma_tags_concat(open, text, names);
        lemma_tags_concat(open + text, close, names);
        lemma_tags_concat(open + text + close, paragraphs(tail), names);
    }
}

proof fn lemma_paragraph_opening(open: Seq<char>, stack: Seq<ListContext>)
    requires
        open == start_tag("p"@, seq![]),
    ensures
        block_tag(open, stack) == (Seq::<char>::empty(), stack),
{
    lemma_block_name("p"@, 1);
    name_is_read_from_its_tags("p"@);
    reveal_strlit("p");
    reveal_strlit("br");
    reveal_strlit("ol");
    reveal_strlit("ul");
    reveal_strlit("li");
    other_tags_are_dropped(open, stack);
}

proof fn lemma_apart(texts: Seq<Seq<char>>)
    requires
        are_texts(texts),
        texts.len() > 0,
    ensures
        normalized(with_ends(texts)) == set_apart(texts),
        begins_visibly(with_ends(texts)),
    decreases texts.len(),
{
    let white = seq!['\n', '\n'];
    let text = texts[0];
    let tail = texts.subrange(1, texts.len() as int);
    assert(is_plain(text));
    assert(breaks(white) == 2) by {
        reveal_with_fuel(breaks, 3);
        assert(white.drop_last() =~= seq!['\n']);
    }
    if texts.len() == 1 {
        assert(with_ends(tail) =~= Seq::<char>::empty());
        assert(with_ends(texts) =~= text + white);
        white_space_at_the_ends_is_dropped(white, text);
    } else {
        lemma_texts_behind(texts);
        lemma_apart(tail);
        white_space_becomes_a_gap(text, white, with_ends(tail));
    }
}

/// Paragraphs are extracted, in either format, with an empty line between each two
/// of them.
#[verifier::rlimit(30)]
pub proof fn paragraphs_are_set_apart(texts: Seq<Seq<char>>, format: OutputFormat)
    requires
        texts.len() > 0,
        are_texts(texts),
    ensures
        content_of(paragraphs(texts), format) == set_apart(texts),
{
    lemma_paragraphs(texts, Seq::empty());
    lemma_paragraphs_among(texts);
    lemma_blocks_only(paragraphs(texts), seq!["p"@], format);
    lemma_plain_finished(with_ends(texts), format);
    lemma_apart(texts);
}

/// An element that has no rendering of its own is extracted as its text, with its
/// white space normalized.
#[verifier::rlimit(30)]
pub proof fn other_elements_are_their_text(
    name: Seq<char>,
    attributes: Seq<char>,
    inner: Seq<char>,
    format: OutputFormat,
)
    requires
        is_name(name),
        are_attributes(attributes),
        is_plain(inner),
        name != "script"@ && name != "style"@ && name != "nav"@ && name != "header"@ && name
            != "footer"@ && name != "noscript"@ && name != "svg"@ && name != "iframe"@ && name
            != "form"@ && name != "aside"@,
        name != "pre"@ && name != "code"@ && name != "a"@,
        name != "p"@ && name != "br"@ && name != "ol"@ && name != "ul"@ && name != "li"@,
        forall|level: nat| 1 <= level <= 6 ==> name != #[trigger] heading_tag(level),
    ensures
        content_of(element_document(name, attributes, inner), format) == normalized(inner),
{
    let s = element_document(name, attributes, inner);
    let names = seq![name];
    let none = Seq::<char>::empty();
    let stack = Seq::<ListContext>::empty();
    let open = start_tag(name, attributes);
    let close = end_tag(name);
    lemma_inline_names();
    lemma_element_among(name, attributes, inner);
    ignored_elements_are_listed(name);
    lemma_kept(s, names);
    lemma_no_other_opening(s, names, "pre"@);
    lemma_no_other_opening(s, names, "code"@);
    lemma_no_other_opening(s, names, "a"@);
    assert(rest(s, 0) =~= s);
    assert forall|level: nat| 1 <= level <= 6 implies #[trigger] are_other_names(
        names,
        heading_tag(level),
    ) by {
        assert(name != heading_tag(level));
    }
    lemma_no_heading_tags(s, names, 6, format);
    lemma_name_chars(name);
    lemma_attributed_name(name, attributes);
    name_is_read_from_its_tags(name);
    other_tags_are_dropped(open, stack);
    other_tags_are_dropped(close, stack);
    let body = name + attributes;
    assert(lacks(body, '>'));
    assert(open =~= seq!['<'] + body + seq!['>']);
    block_tag_is_rendered(none, body, inner + close, stack);
    assert(none + open + (inner + close) =~= s);
    lemma_closing_rendered(inner, name, none, stack);
    assert(inner + close + none =~= inner + close);
    lemma_next_tag(none, 0);
    assert(blocks_replaced(none, stack, 0) =~= none);
    assert(blocks_replaced(s, stack, 0) =~= inner);
    text_without_brackets_is_kept(inner);
    text_without_references_is_kept(inner);
}

proof fn lemma_attributed_name(name: Seq<char>, attributes: Seq<char>)
    requires
        is_name(name),
        are_attributes(attributes),
    ensures
        name_of_tag(start_tag(name, attributes)) == Some((false, name)),
{
    let none = Seq::<char>::empty();
    lemma_name_chars(name);
    assert forall|i: int| 0 <= i < name.len() implies !white_space(#[trigger] name[i]) by {
        assert(('a' <= name[i] && name[i] <= 'z') || ('0' <= name[i] && name[i] <= '9'));
    }
    name_is_the_first_word(none, none, name, attributes);
    assert(seq!['<'] + none + name + attributes + seq!['>'] =~= start_tag(name, attributes));
}

proof fn lemma_heading_result(level: nat, inner: Seq<char>, format: OutputFormat)
    requires
        1 <= level,
        is_plain(inner),
        begins_visibly(inner),
        ends_visibly(inner),
    ensures
        is_plain(heading_prefix(level, format) + inner + "\n\n"@),
        normalized(heading_prefix(level, format) + inner + "\n\n"@) == (match format {
            OutputFormat::Markdown => Seq::new(level, |i: int| '#') + seq![' '] + normalized(inner),
            OutputFormat::Text => normalized(inner),
        }),
{
    let signs = Seq::new(level, |i: int| '#');
    let feed = seq!['\n'];
    let feeds = seq!['\n', '\n'];
    let r = heading_prefix(level, format) + inner + "\n\n"@;
    reveal_strlit("\n");
    reveal_strlit("\n\n");
    reveal_strlit(" ");
    if format == OutputFormat::Markdown {
        let line = signs + seq![' '] + inner;
        assert(r =~= feed + line + feeds);
        visible_text_stays(signs);
        assert(breaks(seq![' ']) == 0) by {
            reveal_with_fuel(breaks, 2);
        }
        white_space_becomes_a_gap(signs, seq![' '], inner);
        white_space_at_the_ends_is_dropped(feed, line);
        assert((feed + line).last() == inner.last());
        white_space_at_the_ends_is_dropped(feeds, feed + line);
    } else {
        assert(r =~= feed + inner + feeds);
        white_space_at_the_ends_is_dropped(feed, inner);
        assert((feed + inner).last() == inner.last());
        white_space_at_the_ends_is_dropped(feeds, feed + inner);
    }
}

/// A heading of any length is extracted with its marks before it: in Markdown as
/// many number signs as its level and a space, else none.
#[verifier::rlimit(30)]
pub proof fn heading_text_is_extracted(level: nat, inner: Seq<char>, format: OutputFormat)
    requires
        1 <= level <= 6,
        is_plain(inner),
        begins_visibly(inner),
        ends_visibly(inner),
    ensures
        content_of(element_document(heading_tag(level), seq![], inner), format) == (match format {
            OutputFormat::Markdown => Seq::new(level, |i: int| '#') + seq![' '] + normalized(inner),
            OutputFormat::Text => normalized(inner),
        }),
{
    let tag = heading_tag(level);
    let s = element_document(tag, seq![], inner);
    let r = heading_prefix(level, format) + inner + "\n\n"@;
    lemma_heading_names(level, level);
    lemma_inline_names();
    lemma_element_among(tag, seq![], inner);
    lemma_kept(s, seq![tag]);
    lemma_no_other_opening(s, seq![tag], "pre"@);
    lemma_no_other_opening(s, seq![tag], "code"@);
    lemma_no_other_opening(s, seq![tag], "a"@);
    assert(rest(s, 0) =~= s);
    lemma_headings(level, inner, 6, format);
    lemma_heading_result(level, inner, format);
    lemma_plain_finished(r, format);
}

proof fn lemma_link_result(target: Seq<char>, text: Seq<char>, format: OutputFormat)
    requires
        target.len() > 0,
        is_plain(target),
        forall|i: int| 0 <= i < target.len() ==> !white_space(#[trigger] target[i]),
        begins_visibly(text),
        ends_visibly(text),
        normalized(text) == text,
        is_plain(text),
    ensures
        is_plain(link_text(text, Some(target), format)),
        normalized(link_text(text, Some(target), format)) == (match format {
            OutputFormat::Markdown => seq!['['] + text + seq![']', '('] + target + seq![')'],
            OutputFormat::Text => text,
        }),
{
    let r = link_text(text, Some(target), format);
    let none = Seq::<char>::empty();
    links_are_written(text, target);
    if format == OutputFormat::Markdown {
        let open = seq!['['];
        let behind = seq![']', '('] + target + seq![')'];
        assert forall|i: int| 0 <= i < behind.len() implies !white_space(#[trigger] behind[i]) by {
            if 2 <= i < behind.len() - 1 {
                assert(behind[i] == target[i - 2]);
            }
        }
        visible_text_stays(open);
        visible_text_stays(behind);
        white_space_becomes_a_gap(text, none, behind);
        assert(text + none + behind =~= text + behind);
        white_space_becomes_a_gap(open, none, text + behind);
        assert(open + none + (text + behind) =~= r);
        assert(open + (text + behind) =~= seq!['['] + text + seq![']', '('] + target + seq![')']);
    }
}

/// A link with text of any length is extracted with the text and the target in
/// Markdown, and as its text else.
#[verifier::rlimit(30)]
pub proof fn link_text_is_extracted(
    target: Seq<char>,
    quote: char,
    inner: Seq<char>,
    format: OutputFormat,
)
    requires
        quote == '"' || quote == '\'',
        lacks(target, quote),
        target.len() > 0,
        is_plain(target),
        forall|i: int| 0 <= i < target.len() ==> !white_space(#[trigger] target[i]),
        lacks(inner, '<'),
        inline_text(inner).len() > 0,
        is_plain(inline_text(inner)),
    ensures
        content_of(
            element_document("a"@, target_attribute(target, quote), inner),
            format,
        ) == (match format {
            OutputFormat::Markdown => seq!['['] + inline_text(inner) + seq![']', '('] + target
                + seq![')'],
            OutputFormat::Text => inline_text(inner),
        }),
{
    let attributes = target_attribute(target, quote);
    let s = element_document("a"@, attributes, inner);
    let text = inline_text(inner);
    let none = Seq::<char>::empty();
    lemma_target_attribute(target, quote);
    lemma_inline_names();
    lemma_name_chars("a"@);
    lemma_element_among("a"@, attributes, inner);
    lemma_kept(s, seq!["a"@]);
    lemma_no_other_opening(s, seq!["a"@], "pre"@);
    lemma_no_other_opening(s, seq!["a"@], "code"@);
    assert(rest(s, 0) =~= s);
    quoted_target_is_read(target, quote);
    link_is_rendered(seq![], "a"@, attributes, inner, "a"@, seq![], format);
    lemma_empty_rest(format);
    let r = link_text(text, Some(target), format);
    assert(none + r + links_converted(none, format, 0) =~= r);
    lemma_inline_text(inner);
    lemma_link_result(target, text, format);
    lemma_plain_finished(r, format);
}

} // verus!
