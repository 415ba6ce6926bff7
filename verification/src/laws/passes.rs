//! Laws of the passes over a document: what each of them does with the first thing
//! that it finds, that it goes on behind it as if the document began there, and
//! what it does when it finds nothing. Together they say what each pass does with
//! any document.

use vstd::prelude::*;

use crate::attributes::attribute_of;
use crate::entities::entities_decoded;
use crate::format::OutputFormat;
use crate::html::{
    block_tag, blocks_replaced, content_of, heading_replaced, headings_replaced, ignored_stripped,
    ignored_tags, inline_code, inline_text, inside_tag, link_text, links_converted, paired_replaced,
    preformatted, tags_replaced, tags_stripped, without_all, without_blocks, without_comments,
};
use crate::laws::listing::lemma_blocks_behind;
use crate::laws::markup::{
    lemma_links_behind, lemma_paired_behind, lemma_tags_behind, lemma_without_blocks_behind,
};
use crate::laws::plain_text::text_without_brackets_is_kept;
use crate::laws::removal::lemma_without_comments_behind;
use crate::laws::search::lacks;
use crate::lists::{closed, counted, ListContext};
use crate::normalize::normalized;
use crate::tags::{
    closing_tag, lemma_named_tag, lemma_next_tag, name_of_tag, named_tag, next_tag, opening_tag,
};
use crate::text::{decimal, find_from, lemma_find_from, rest};

verus! {

proof fn lemma_split(s: Seq<char>, at: int)
    requires
        0 <= at <= s.len(),
    ensures
        s.take(at) + s.skip(at) == s,
        s.take(at).len() == at,
{
    assert(s.take(at) + s.skip(at) =~= s);
}

/// A comment is removed from its opening to the end of its closing mark; one that
/// is not closed to the end of the document. The rest is kept.
pub proof fn first_comment_is_removed(s: Seq<char>)
    ensures
        match find_from(s, "<!--"@, 0) {
            None => without_comments(s, 0) == s,
            Some(start) => match find_from(s, "-->"@, start + 4) {
                None => without_comments(s, 0) == s.take(start),
                Some(end) => without_comments(s, 0) == s.take(start) + without_comments(
                    s.skip(end + 3),
                    0,
                ),
            },
        },
{
    reveal_strlit("<!--");
    reveal_strlit("-->");
    lemma_find_from(s, "<!--"@, 0);
    assert(rest(s, 0) =~= s);
    if let Some(start) = find_from(s, "<!--"@, 0) {
        lemma_find_from(s, "-->"@, start + 4);
        assert(s.subrange(0, start) =~= s.take(start));
        if let Some(end) = find_from(s, "-->"@, start + 4) {
            lemma_split(s, end + 3);
            lemma_without_comments_behind(s.take(end + 3), s.skip(end + 3), 0);
        }
    }
}

/// An element is removed from its opening tag to the end of its closing tag; one
/// that is not closed to the end of the document. The rest is kept.
pub proof fn first_block_is_removed(s: Seq<char>, tag: Seq<char>)
    ensures
        match opening_tag(s, tag, 0) {
            None => without_blocks(s, tag, 0) == s,
            Some((start, open_end)) => match closing_tag(s, tag, open_end + 1) {
                None => without_blocks(s, tag, 0) == s.take(start),
                Some((close_start, close_end)) => without_blocks(s, tag, 0) == s.take(start)
                    + without_blocks(s.skip(close_end + 1), tag, 0),
            },
        },
{
    lemma_named_tag(s, tag, false, 0);
    assert(rest(s, 0) =~= s);
    if let Some((start, open_end)) = opening_tag(s, tag, 0) {
        lemma_named_tag(s, tag, true, open_end + 1);
        assert(s.subrange(0, start) =~= s.take(start));
        if let Some((close_start, close_end)) = closing_tag(s, tag, open_end + 1) {
            lemma_split(s, close_end + 1);
            lemma_without_blocks_behind(s.take(close_end + 1), s.skip(close_end + 1), tag, 0);
        }
    }
}

/// An element is replaced, from its opening tag to the end of its closing tag, by
/// what is made of the text between them; from one that is not closed on, all is
/// kept.
pub proof fn first_element_is_replaced(
    s: Seq<char>,
    tag: Seq<char>,
    render: spec_fn(Seq<char>) -> Seq<char>,
)
    ensures
        match opening_tag(s, tag, 0) {
            None => paired_replaced(s, tag, render, 0) == s,
            Some((start, open_end)) => match closing_tag(s, tag, open_end + 1) {
                None => paired_replaced(s, tag, render, 0) == s,
                Some((close_start, close_end)) => paired_replaced(s, tag, render, 0) == s.take(
                    start,
                ) + render(s.subrange(open_end + 1, close_start)) + paired_replaced(
                    s.skip(close_end + 1),
                    tag,
                    render,
                    0,
                ),
            },
        },
{
    lemma_named_tag(s, tag, false, 0);
    assert(rest(s, 0) =~= s);
    if let Some((start, open_end)) = opening_tag(s, tag, 0) {
        lemma_named_tag(s, tag, true, open_end + 1);
        assert(s.subrange(0, start) =~= s.take(start));
        if let Some((close_start, close_end)) = closing_tag(s, tag, open_end + 1) {
            lemma_split(s, close_end + 1);
            lemma_paired_behind(s.take(close_end + 1), s.skip(close_end + 1), tag, render, 0);
        }
    }
}

/// A link is replaced, from its opening tag to the end of its closing tag, by what
/// is made of the text between them and of the target in the opening tag; from one
/// that is not closed on, all is kept.
pub proof fn first_link_is_replaced(s: Seq<char>, format: OutputFormat)
    ensures
        match opening_tag(s, "a"@, 0) {
            None => links_converted(s, format, 0) == s,
            Some((start, open_end)) => match closing_tag(s, "a"@, open_end + 1) {
                None => links_converted(s, format, 0) == s,
                Some((close_start, close_end)) => links_converted(s, format, 0) == s.take(start)
                    + link_text(
                    inline_text(s.subrange(open_end + 1, close_start)),
                    attribute_of(s.subrange(start, open_end + 1), "href"@),
                    format,
                ) + links_converted(s.skip(close_end + 1), format, 0),
            },
        },
{
    let tag = "a"@;
    lemma_named_tag(s, tag, false, 0);
    assert(rest(s, 0) =~= s);
    if let Some((start, open_end)) = opening_tag(s, tag, 0) {
        lemma_named_tag(s, tag, true, open_end + 1);
        assert(s.subrange(0, start) =~= s.take(start));
        if let Some((close_start, close_end)) = closing_tag(s, tag, open_end + 1) {
            lemma_split(s, close_end + 1);
            lemma_links_behind(s.take(close_end + 1), s.skip(close_end + 1), format, 0);
        }
    }
}

/// A tag is replaced from its start to its end, and the rest is kept.
pub proof fn first_tag_is_replaced(
    s: Seq<char>,
    tag: Seq<char>,
    closing: bool,
    replacement: Seq<char>,
)
    ensures
        match named_tag(s, tag, closing, 0) {
            None => tags_replaced(s, tag, closing, replacement, 0) == s,
            Some((start, end)) => tags_replaced(s, tag, closing, replacement, 0) == s.take(start)
                + replacement + tags_replaced(s.skip(end + 1), tag, closing, replacement, 0),
        },
{
    lemma_named_tag(s, tag, closing, 0);
    assert(rest(s, 0) =~= s);
    if let Some((start, end)) = named_tag(s, tag, closing, 0) {
        assert(s.subrange(0, start) =~= s.take(start));
        lemma_split(s, end + 1);
        lemma_tags_behind(s.take(end + 1), s.skip(end + 1), tag, closing, replacement, 0);
    }
}

/// A tag of any name is replaced by what is due for it in the open lists, and the
/// rest is rendered with the lists that are open then; what holds no tag is kept.
pub proof fn first_block_tag_is_rendered(s: Seq<char>, stack: Seq<ListContext>)
    ensures
        match next_tag(s, 0) {
            None => blocks_replaced(s, stack, 0) == s,
            Some((start, end)) => blocks_replaced(s, stack, 0) == s.take(start) + block_tag(
                s.subrange(start, end + 1),
                stack,
            ).0 + blocks_replaced(
                s.skip(end + 1),
                block_tag(s.subrange(start, end + 1), stack).1,
                0,
            ),
        },
{
    lemma_next_tag(s, 0);
    assert(rest(s, 0) =~= s);
    if let Some((start, end)) = next_tag(s, 0) {
        let after = block_tag(s.subrange(start, end + 1), stack).1;
        assert(s.subrange(0, start) =~= s.take(start));
        lemma_split(s, end + 1);
        lemma_blocks_behind(s.take(end + 1), s.skip(end + 1), after, 0);
    }
}

/// A heading of a level begins on a new line, in Markdown with as many number signs
/// as its level and a space, and a blank line follows it.
pub proof fn headings_are_marked(s: Seq<char>, level: nat)
    ensures
        heading_replaced(s, level, OutputFormat::Markdown) == tags_replaced(
            tags_replaced(
                s,
                seq!['h'] + decimal(level),
                false,
                seq!['\n'] + Seq::new(level, |i: int| '#') + seq![' '],
                0,
            ),
            seq!['h'] + decimal(level),
            true,
            seq!['\n', '\n'],
            0,
        ),
        heading_replaced(s, level, OutputFormat::Text) == tags_replaced(
            tags_replaced(s, seq!['h'] + decimal(level), false, seq!['\n'], 0),
            seq!['h'] + decimal(level),
            true,
            seq!['\n', '\n'],
            0,
        ),
{
    reveal_strlit("\n");
    reveal_strlit("\n\n");
    reveal_strlit(" ");
    reveal_strlit("h");
    assert("\n"@ =~= seq!['\n']);
    assert("\n\n"@ =~= seq!['\n', '\n']);
    assert(" "@ =~= seq![' ']);
    assert("h"@ =~= seq!['h']);
}

/// The headings of the levels one to six are rendered, one level after the other,
/// and those of no other level.
pub proof fn six_levels_are_rendered(s: Seq<char>, format: OutputFormat)
    ensures
        ({
            let one = heading_replaced(s, 1, format);
            let two = heading_replaced(one, 2, format);
            let three = heading_replaced(two, 3, format);
            let four = heading_replaced(three, 4, format);
            let five = heading_replaced(four, 5, format);
            headings_replaced(s, 6, format) == heading_replaced(five, 6, format)
        }),
{
    reveal_with_fuel(headings_replaced, 7);
}

/// Whether a tag has the given name, and is a closing one or not.
pub open spec fn is_tag(tag: Seq<char>, closing: bool, name: Seq<char>) -> bool {
    name_of_tag(tag) == Some((closing, name))
}

/// In every stack of open lists, a line break is one line feed and the end of a
/// paragraph two, and neither touches the lists.
pub proof fn breaks_are_line_feeds(tag: Seq<char>, stack: Seq<ListContext>)
    ensures
        is_tag(tag, false, "br"@) ==> block_tag(tag, stack) == (seq!['\n'], stack),
        is_tag(tag, true, "p"@) ==> block_tag(tag, stack) == (seq!['\n', '\n'], stack),
{
    reveal_strlit("\n");
    reveal_strlit("\n\n");
    reveal_strlit("p");
    reveal_strlit("br");
    assert("\n"@ =~= seq!['\n']);
    assert("\n\n"@ =~= seq!['\n', '\n']);
}

proof fn lemma_names_differ()
    ensures
        "p"@ != "br"@ && "p"@ != "ol"@ && "p"@ != "ul"@ && "p"@ != "li"@,
        "br"@ != "ol"@ && "br"@ != "ul"@ && "br"@ != "li"@,
        "ol"@ != "ul"@ && "ol"@ != "li"@ && "ul"@ != "li"@,
{
    reveal_strlit("p");
    reveal_strlit("br");
    reveal_strlit("ol");
    reveal_strlit("ul");
    reveal_strlit("li");
    assert("br"@[0] == 'b' && "ol"@[0] == 'o' && "ul"@[0] == 'u' && "li"@[0] == 'l');
}

/// In every stack of open lists, an opening list tag puts a list on the stack, and
/// a closing one takes the innermost list of its kind off it. Neither writes
/// anything.
pub proof fn list_tags_open_and_close(tag: Seq<char>, stack: Seq<ListContext>)
    ensures
        is_tag(tag, false, "ol"@) ==> block_tag(tag, stack) == (
            Seq::<char>::empty(),
            stack.push(ListContext::Ordered { next_index: 1 }),
        ),
        is_tag(tag, false, "ul"@) ==> block_tag(tag, stack) == (
            Seq::<char>::empty(),
            stack.push(ListContext::Unordered),
        ),
        is_tag(tag, true, "ol"@) ==> block_tag(tag, stack) == (
            Seq::<char>::empty(),
            closed(stack, true),
        ),
        is_tag(tag, true, "ul"@) ==> block_tag(tag, stack) == (
            Seq::<char>::empty(),
            closed(stack, false),
        ),
{
    lemma_names_differ();
}

/// In every stack of open lists, an item begins with the number that is due in an
/// ordered list, which then counts on, and with a dash elsewhere; it ends with a
/// line feed.
pub proof fn items_are_marked(tag: Seq<char>, outer: Seq<ListContext>, number: usize)
    requires
        number < usize::MAX,
    ensures
        is_tag(tag, false, "li"@) ==> block_tag(
            tag,
            outer.push(ListContext::Ordered { next_index: number }),
        ) == (
            decimal(number as nat) + seq!['.', ' '],
            outer.push(ListContext::Ordered { next_index: (number + 1) as usize }),
        ),
        is_tag(tag, false, "li"@) ==> block_tag(tag, outer.push(ListContext::Unordered)) == (
            seq!['-', ' '],
            outer.push(ListContext::Unordered),
        ),
        is_tag(tag, false, "li"@) ==> block_tag(tag, Seq::empty()) == (
            seq!['-', ' '],
            Seq::<ListContext>::empty(),
        ),
        is_tag(tag, true, "li"@) ==> block_tag(tag, outer) == (seq!['\n'], outer),
{
    lemma_names_differ();
    reveal_strlit("\n");
    reveal_strlit(". ");
    reveal_strlit("- ");
    assert("\n"@ =~= seq!['\n']);
    assert(". "@ =~= seq!['.', ' ']);
    assert("- "@ =~= seq!['-', ' ']);
    let stack = outer.push(ListContext::Ordered { next_index: number });
    assert(counted(stack) =~= outer.push(
        ListContext::Ordered { next_index: (number + 1) as usize },
    ));
}

/// In every stack of open lists, every other tag, and one without a name, is
/// dropped without a trace.
pub proof fn other_tags_are_dropped(tag: Seq<char>, stack: Seq<ListContext>)
    requires
        !is_tag(tag, true, "p"@),
        !is_tag(tag, false, "br"@),
        !is_tag(tag, false, "ol"@),
        !is_tag(tag, true, "ol"@),
        !is_tag(tag, false, "ul"@),
        !is_tag(tag, true, "ul"@),
        !is_tag(tag, false, "li"@),
        !is_tag(tag, true, "li"@),
    ensures
        block_tag(tag, stack) == (Seq::<char>::empty(), stack),
{
}

/// Preformatted text of any number of lines stands, as a whole, between two fences
/// in Markdown, and between line feeds in plain text. An element without text
/// leaves nothing.
pub proof fn preformatted_text_is_fenced(inner: Seq<char>)
    ensures
        inline_text(inner).len() > 0 ==> preformatted(inner, OutputFormat::Markdown) == seq![
            '\n',
            '`',
            '`',
            '`',
            '\n',
        ] + inline_text(inner) + seq!['\n', '`', '`', '`', '\n'],
        inline_text(inner).len() > 0 ==> preformatted(inner, OutputFormat::Text) == seq!['\n']
            + inline_text(inner) + seq!['\n'],
        inline_text(inner).len() == 0 ==> preformatted(inner, OutputFormat::Markdown).len() == 0
            && preformatted(inner, OutputFormat::Text).len() == 0,
{
    reveal_strlit("\n```\n");
    reveal_strlit("\n");
    assert("\n```\n"@ =~= seq!['\n', '`', '`', '`', '\n']);
    assert("\n"@ =~= seq!['\n']);
}

/// Code of any length stands, as a whole, between two backticks in Markdown, and by
/// itself in plain text.
pub proof fn code_is_quoted(inner: Seq<char>)
    ensures
        inline_text(inner).len() > 0 ==> inline_code(inner, OutputFormat::Markdown) == seq!['`']
            + inline_text(inner) + seq!['`'],
        inline_text(inner).len() > 0 ==> inline_code(inner, OutputFormat::Text) == inline_text(
            inner,
        ),
        inline_text(inner).len() == 0 ==> inline_code(inner, OutputFormat::Markdown).len() == 0
            && inline_code(inner, OutputFormat::Text).len() == 0,
{
    reveal_strlit("`");
    assert("`"@ =~= seq!['`']);
}

/// A link with a text and a target is written with both in Markdown; without a
/// target, and in plain text, it is its text; without a text it is nothing.
pub proof fn links_are_written(text: Seq<char>, target: Seq<char>)
    ensures
        text.len() > 0 && target.len() > 0 ==> link_text(
            text,
            Some(target),
            OutputFormat::Markdown,
        ) == seq!['['] + text + seq![']', '('] + target + seq![')'],
        target.len() == 0 ==> link_text(text, Some(target), OutputFormat::Markdown) == text,
        link_text(text, None, OutputFormat::Markdown) == text,
        link_text(text, Some(target), OutputFormat::Text) == text,
        link_text(text, None, OutputFormat::Text) == text,
        text.len() == 0 ==> link_text(text, Some(target), OutputFormat::Markdown).len() == 0,
{
    reveal_strlit("[");
    reveal_strlit("](");
    reveal_strlit(")");
    assert("["@ =~= seq!['[']);
    assert("]("@ =~= seq![']', '(']);
    assert(")"@ =~= seq![')']);
    if text.len() == 0 {
        assert(text =~= Seq::<char>::empty());
    }
}

/// Exactly these ten elements hold no readable content.
pub proof fn ignored_elements_are_listed(name: Seq<char>)
    ensures
        ignored_tags().contains(name) <==> name == "script"@ || name == "style"@ || name == "nav"@
            || name == "header"@ || name == "footer"@ || name == "noscript"@ || name == "svg"@
            || name == "iframe"@ || name == "form"@ || name == "aside"@,
{
    let tags = ignored_tags();
    assert(tags[0] == "script"@ && tags[1] == "style"@ && tags[2] == "nav"@ && tags[3]
        == "header"@ && tags[4] == "footer"@ && tags[5] == "noscript"@ && tags[6] == "svg"@
        && tags[7] == "iframe"@ && tags[8] == "form"@ && tags[9] == "aside"@);
}

/// What holds no readable content is removed in this order: the comments, then the
/// ten elements, each with all of its occurrences.
pub proof fn ignored_elements_are_removed_in_turn(s: Seq<char>)
    ensures
        ({
            let s0 = without_comments(s, 0);
            let s1 = without_blocks(s0, "script"@, 0);
            let s2 = without_blocks(s1, "style"@, 0);
            let s3 = without_blocks(s2, "nav"@, 0);
            let s4 = without_blocks(s3, "header"@, 0);
            let s5 = without_blocks(s4, "footer"@, 0);
            let s6 = without_blocks(s5, "noscript"@, 0);
            let s7 = without_blocks(s6, "svg"@, 0);
            let s8 = without_blocks(s7, "iframe"@, 0);
            let s9 = without_blocks(s8, "form"@, 0);
            ignored_stripped(s) == without_blocks(s9, "aside"@, 0)
        }),
{
    let tags = ignored_tags();
    let s0 = without_comments(s, 0);
    assert(without_all(s0, tags.take(0)) == s0);
    lemma_next_removed(s0, tags, 0);
    lemma_next_removed(s0, tags, 1);
    lemma_next_removed(s0, tags, 2);
    lemma_next_removed(s0, tags, 3);
    lemma_next_removed(s0, tags, 4);
    lemma_next_removed(s0, tags, 5);
    lemma_next_removed(s0, tags, 6);
    lemma_next_removed(s0, tags, 7);
    lemma_next_removed(s0, tags, 8);
    lemma_next_removed(s0, tags, 9);
    assert(tags.take(10) =~= tags);
}

proof fn lemma_next_removed(s: Seq<char>, tags: Seq<Seq<char>>, k: int)
    requires
        0 <= k < tags.len(),
    ensures
        without_all(s, tags.take(k + 1)) == without_blocks(without_all(s, tags.take(k)), tags[k], 0),
{
    assert(tags.take(k + 1).drop_last() =~= tags.take(k));
}

/// The content of a document is what is left of it when the elements without
/// content are removed and code, links, headings and block tags are rendered, in
/// this order, and the text of the outcome is taken.
pub proof fn content_comes_out_of_the_passes(html: Seq<char>, format: OutputFormat)
    ensures
        ({
            let fenced = paired_replaced(
                ignored_stripped(html),
                "pre"@,
                |inner: Seq<char>| preformatted(inner, format),
                0,
            );
            let quoted = paired_replaced(
                fenced,
                "code"@,
                |inner: Seq<char>| inline_code(inner, format),
                0,
            );
            let linked = links_converted(quoted, format, 0);
            let headed = headings_replaced(linked, 6, format);
            let blocks = blocks_replaced(headed, Seq::empty(), 0);
            content_of(html, format) == normalized(entities_decoded(tags_stripped(blocks), 0))
        }),
        inline_text(html) == normalized(entities_decoded(tags_stripped(html), 0)),
{
}

proof fn lemma_stripped_concat(p: Seq<char>, q: Seq<char>)
    requires
        !inside_tag(p),
    ensures
        tags_stripped(p + q) == tags_stripped(p) + tags_stripped(q),
        inside_tag(p + q) == inside_tag(q),
    decreases q.len(),
{
    if q.len() == 0 {
        assert(p + q =~= p);
        assert(tags_stripped(p) + tags_stripped(q) =~= tags_stripped(p));
    } else {
        lemma_stripped_concat(p, q.drop_last());
        assert((p + q).drop_last() =~= p + q.drop_last());
        assert(tags_stripped(p + q) =~= tags_stripped(p) + tags_stripped(q));
    }
}

proof fn lemma_inside(p: Seq<char>, q: Seq<char>)
    requires
        lacks(q, '>'),
    ensures
        inside_tag(p.push('<') + q),
        tags_stripped(p.push('<') + q) == tags_stripped(p),
    decreases q.len(),
{
    let s = p.push('<') + q;
    if q.len() == 0 {
        assert(s =~= p.push('<'));
        assert(p.push('<').drop_last() =~= p);
    } else {
        assert(q[q.len() - 1] != '>');
        lemma_inside(p, q.drop_last());
        assert(s.drop_last() =~= p.push('<') + q.drop_last());
    }
}

/// A tag is stripped from its `<` to its `>`, whatever stands between them, and the
/// rest of the text is stripped by itself.
pub proof fn tag_is_stripped(before: Seq<char>, inner: Seq<char>, after: Seq<char>)
    requires
        lacks(before, '<'),
        lacks(before, '>'),
        lacks(inner, '>'),
    ensures
        tags_stripped(before.push('<') + inner + seq!['>'] + after) == before + tags_stripped(
            after,
        ),
{
    let open = before.push('<') + inner;
    let tag = open + seq!['>'];
    text_without_brackets_is_kept(before);
    lemma_inside(before, inner);
    assert(tag.drop_last() =~= open);
    assert(tag.last() == '>');
    lemma_stripped_concat(tag, after);
}

/// A `<` that no `>` follows takes the rest of the text with it, and a `>` that no
/// `<` goes before is taken out by itself.
pub proof fn lone_brackets_are_stripped(before: Seq<char>, after: Seq<char>)
    requires
        lacks(before, '<'),
        lacks(before, '>'),
    ensures
        lacks(after, '>') ==> tags_stripped(before.push('<') + after) == before,
        tags_stripped(before.push('>') + after) == before + tags_stripped(after),
{
    text_without_brackets_is_kept(before);
    if lacks(after, '>') {
        lemma_inside(before, after);
    }
    assert(before.push('>').drop_last() =~= before);
    lemma_stripped_concat(before.push('>'), after);
}

} // verus!
