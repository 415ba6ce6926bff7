//! Laws of documents with elements: what becomes of a comment, of an element
//! without readable content, of code, links, headings and lists.

use vstd::prelude::*;

use crate::attributes::attribute_of;
use crate::format::OutputFormat;
use crate::html::{
    heading_prefix, heading_replaced, heading_tag, inline_text, link_text, links_converted,
    paired_replaced, tags_replaced, without_blocks,
};
use crate::laws::encodings::decimal_holds_only_digits;
use crate::laws::search::{
    is_needle, lacks, lemma_lower_char, lemma_named_tag_behind, lemma_tag_bounds_skips, tag_stands,
};

use crate::tags::{
    closing_needle, closing_tag, lemma_named_tag, named_tag, opening_needle, opening_tag,
};
use crate::text::{
    ascii_lower, char_at, decimal, find_char, lemma_find_char, lemma_find_from, lower_char,
    matches_at, rest,
};

verus! {

/// Whether a text is the name of a tag: lower case letters and digits.
pub open spec fn is_name(tag: Seq<char>) -> bool {
    &&& tag.len() > 0
    &&& forall|i: int|
        0 <= i < tag.len() ==> ('a' <= #[trigger] tag[i] && tag[i] <= 'z') || ('0' <= tag[i]
            && tag[i] <= '9')
}

/// Whether a text can stand between the name of a tag and its `>`.
pub open spec fn are_attributes(attributes: Seq<char>) -> bool {
    &&& attributes.len() > 0 ==> attributes[0] == ' '
    &&& lacks(attributes, '<')
    &&& lacks(attributes, '>')
}

/// An opening tag.
pub open spec fn start_tag(name: Seq<char>, attributes: Seq<char>) -> Seq<char> {
    seq!['<'] + name + attributes + seq!['>']
}

/// A closing tag.
pub open spec fn end_tag(name: Seq<char>) -> Seq<char> {
    seq!['<', '/'] + name + seq!['>']
}

/// What a tag begins with holds a `<` at its start and nowhere else.
pub proof fn lemma_is_needle(tag: Seq<char>)
    requires
        is_name(tag),
    ensures
        is_needle(opening_needle(tag)),
        is_needle(closing_needle(tag)),
{
    let opening = opening_needle(tag);
    let closing = closing_needle(tag);
    assert forall|k: int| 0 < k < opening.len() implies #[trigger] opening[k] != opening[0] by {
        assert(opening[k] == tag[k - 1]);
    }
    assert forall|k: int| 0 < k < closing.len() implies #[trigger] closing[k] != closing[0] by {
        if k > 1 {
            assert(closing[k] == tag[k - 2]);
        }
    }
}

/// No tag stands where there is no `<`.
pub proof fn lemma_no_tag_at(s: Seq<char>, needle: Seq<char>, i: int)
    requires
        0 <= i < s.len(),
        s[i] != '<',
        needle.len() > 0,
        needle[0] == '<',
    ensures
        !tag_stands(ascii_lower(s), needle, i),
{
    let lower = ascii_lower(s);
    lemma_lower_char(s[i], '<');
    if matches_at(lower, needle, i) {
        assert(lower.subrange(i, i + needle.len())[0] == needle[0]);
    }
}

/// Whether the opening tag of an element stands at a position: the name, then a
/// space or a `>`.
pub open spec fn starts_element(s: Seq<char>, name: Seq<char>, i: int) -> bool {
    &&& 0 <= i
    &&& i + 1 + name.len() < s.len()
    &&& s[i] == '<'
    &&& forall|k: int| 0 <= k < name.len() ==> lower_char(s[i + 1 + k]) == #[trigger] name[k]
    &&& s[i + 1 + name.len()] == ' ' || s[i + 1 + name.len()] == '>'
}

/// Where an element of one name begins, no tag of another name stands.
pub proof fn lemma_other_tag_at(s: Seq<char>, name: Seq<char>, tag: Seq<char>, i: int)
    requires
        starts_element(s, name, i),
        is_name(name),
        is_name(tag),
        name != tag,
    ensures
        !tag_stands(ascii_lower(s), opening_needle(tag), i),
{
    let lower = ascii_lower(s);
    let needle = opening_needle(tag);
    if tag_stands(lower, needle, i) {
        let found = lower.subrange(i, i + needle.len());
        assert forall|k: int| 0 <= k < tag.len() implies lower[i + 1 + k] == #[trigger] tag[k] by {
            assert(found[k + 1] == needle[k + 1]);
        }
        if tag.len() < name.len() {
            assert(lower[i + 1 + tag.len()] == name[tag.len() as int]);
            assert(char_at(lower, i + needle.len()) == Some(name[tag.len() as int]));
        } else if tag.len() > name.len() {
            lemma_lower_char(s[i + 1 + name.len()], ' ');
            assert(lower[i + 1 + name.len()] == tag[name.len() as int]);
        } else {
            assert forall|k: int| 0 <= k < tag.len() implies name[k] == tag[k] by {
                assert(lower[i + 1 + k] == tag[k]);
            }
            assert(name =~= tag);
        }
    }
}

proof fn lemma_own_tag_at(s: Seq<char>, name: Seq<char>, i: int)
    requires
        starts_element(s, name, i),
    ensures
        tag_stands(ascii_lower(s), opening_needle(name), i),
{
    let lower = ascii_lower(s);
    let needle = opening_needle(name);
    let found = lower.subrange(i, i + needle.len());
    assert forall|k: int| 0 <= k < needle.len() implies found[k] == needle[k] by {
        if k > 0 {
            assert(needle[k] == name[k - 1]);
            assert(lower[i + k] == lower_char(s[i + 1 + (k - 1)]));
        }
    }
    assert(found =~= needle);
}

/// Whether the closing tag of an element stands at a position.
pub open spec fn ends_element(s: Seq<char>, name: Seq<char>, i: int) -> bool {
    &&& 0 <= i
    &&& i + 2 + name.len() < s.len()
    &&& s[i] == '<'
    &&& s[i + 1] == '/'
    &&& forall|k: int| 0 <= k < name.len() ==> lower_char(s[i + 2 + k]) == #[trigger] name[k]
    &&& s[i + 2 + name.len()] == '>'
}

/// Where a closing tag stands, no opening tag does.
pub proof fn lemma_closing_is_not_opening(s: Seq<char>, name: Seq<char>, tag: Seq<char>, i: int)
    requires
        ends_element(s, name, i),
        is_name(tag),
    ensures
        !tag_stands(ascii_lower(s), opening_needle(tag), i),
{
    let lower = ascii_lower(s);
    let needle = opening_needle(tag);
    if matches_at(lower, needle, i) {
        assert(lower.subrange(i, i + needle.len())[1] == needle[1]);
        assert(needle[1] == tag[0]);
        assert(lower[i + 1] == '/');
    }
}

proof fn lemma_own_closing_at(s: Seq<char>, name: Seq<char>, i: int)
    requires
        ends_element(s, name, i),
    ensures
        tag_stands(ascii_lower(s), closing_needle(name), i),
{
    let lower = ascii_lower(s);
    let needle = closing_needle(name);
    let found = lower.subrange(i, i + needle.len());
    assert forall|k: int| 0 <= k < needle.len() implies found[k] == needle[k] by {
        if k > 1 {
            assert(needle[k] == name[k - 2]);
            assert(lower[i + k] == lower_char(s[i + 2 + (k - 2)]));
        }
    }
    assert(found =~= needle);
}

proof fn lemma_first_end(lower: Seq<char>, start: int, end: int)
    requires
        0 <= start <= end < lower.len(),
        lower[end] == '>',
        forall|k: int| start <= k < end ==> lower[k] != '>',
    ensures
        find_char(lower, '>', start) == Some(end),
{
    lemma_find_char(lower, '>', start);
}

/// An element as it stands in a document, between two other parts of it.
pub open spec fn with_element(
    before: Seq<char>,
    open_name: Seq<char>,
    attributes: Seq<char>,
    inner: Seq<char>,
    close_name: Seq<char>,
    after: Seq<char>,
) -> Seq<char> {
    before + start_tag(open_name, attributes) + inner + end_tag(close_name) + after
}

/// The opening tag of an element is found where it stands.
pub proof fn lemma_opening_found(
    before: Seq<char>,
    name: Seq<char>,
    attributes: Seq<char>,
    after: Seq<char>,
)
    requires
        lacks(before, '<'),
        is_name(ascii_lower(name)),
        are_attributes(attributes),
    ensures
        starts_element(
            before + start_tag(name, attributes) + after,
            ascii_lower(name),
            before.len() as int,
        ),
        opening_tag(before + start_tag(name, attributes) + after, ascii_lower(name), 0) == Some(
            (before.len() as int, before.len() + start_tag(name, attributes).len() - 1),
        ),
{
    let tag = ascii_lower(name);
    let open = start_tag(name, attributes);
    let s = before + open + after;
    let lower = ascii_lower(s);
    let needle = opening_needle(tag);
    let start = before.len() as int;
    let end = before.len() + open.len() - 1;
    assert forall|k: int| 0 <= k < tag.len() implies lower_char(s[start + 1 + k])
        == #[trigger] tag[k] by {
        assert(s[start + 1 + k] == name[k]);
    }
    if attributes.len() > 0 {
        assert(s[start + 1 + tag.len()] == attributes[0]);
    }
    assert(starts_element(s, tag, start));
    lemma_own_tag_at(s, tag, start);
    assert forall|i: int| 0 <= i < start implies !tag_stands(lower, needle, i) by {
        assert(s[i] == before[i]);
        lemma_no_tag_at(s, needle, i);
    }
    lemma_is_needle(tag);
    lemma_tag_bounds_skips(lower, needle, 0, start);
    assert forall|k: int| start <= k < end implies lower[k] != '>' by {
        lemma_lower_char(s[k], '>');
        if k > start && k <= start + name.len() {
            assert(tag[k - start - 1] == lower[k]);
        } else if k > start {
            assert(s[k] == attributes[k - start - 1 - name.len()]);
        }
    }
    lemma_first_end(lower, start, end);
    lemma_find_from(lower, needle, start);
}

/// The closing tag of an element is found where it stands.
proof fn lemma_closing_found(p: Seq<char>, inner: Seq<char>, name: Seq<char>, after: Seq<char>)
    requires
        lacks(inner, '<'),
        is_name(ascii_lower(name)),
    ensures
        closing_tag(p + inner + end_tag(name) + after, ascii_lower(name), p.len() as int) == Some(
            (
                (p.len() + inner.len()) as int,
                p.len() + inner.len() + end_tag(name).len() - 1,
            ),
        ),
{
    let tag = ascii_lower(name);
    let close = end_tag(name);
    let s = p + inner + close + after;
    let lower = ascii_lower(s);
    let needle = closing_needle(tag);
    let start = (p.len() + inner.len()) as int;
    let end = start + close.len() - 1;
    assert forall|k: int| 0 <= k < tag.len() implies lower_char(s[start + 2 + k])
        == #[trigger] tag[k] by {
        assert(s[start + 2 + k] == name[k]);
    }
    assert(ends_element(s, tag, start));
    lemma_own_closing_at(s, tag, start);
    assert forall|i: int| p.len() <= i < start implies !tag_stands(lower, needle, i) by {
        assert(s[i] == inner[i - p.len()]);
        lemma_no_tag_at(s, needle, i);
    }
    lemma_is_needle(tag);
    lemma_tag_bounds_skips(lower, needle, p.len() as int, start);
    assert forall|k: int| start <= k < end implies lower[k] != '>' by {
        lemma_lower_char(s[k], '>');
        if k > start + 1 {
            assert(tag[k - start - 2] == lower[k]);
        }
    }
    lemma_first_end(lower, start, end);
    lemma_find_from(lower, needle, start);
}

/// Elements are removed behind a prefix as they are without the prefix.
pub proof fn lemma_without_blocks_behind(p: Seq<char>, q: Seq<char>, tag: Seq<char>, from: int)
    requires
        0 <= from <= q.len(),
    ensures
        without_blocks(p + q, tag, p.len() + from) == without_blocks(q, tag, from),
    decreases q.len() - from,
{
    let s = p + q;
    lemma_named_tag_behind(p, q, tag, false, from);
    lemma_named_tag(q, tag, false, from);
    assert(rest(s, p.len() + from) =~= rest(q, from));
    if let Some((start, open_end)) = opening_tag(q, tag, from) {
        lemma_named_tag_behind(p, q, tag, true, open_end + 1);
        lemma_named_tag(q, tag, true, open_end + 1);
        assert(s.subrange(p.len() + from, p.len() + start) =~= q.subrange(from, start));
        if let Some((close_start, close_end)) = closing_tag(q, tag, open_end + 1) {
            lemma_without_blocks_behind(p, q, tag, close_end + 1);
        }
    }
}

/// Text in which no opening tag stands is kept when elements are removed.
pub proof fn lemma_without_blocks_prefix(p: Seq<char>, q: Seq<char>, tag: Seq<char>)
    requires
        is_name(tag),
        forall|i: int|
            0 <= i < p.len() ==> !tag_stands(ascii_lower(p + q), opening_needle(tag), i),
    ensures
        without_blocks(p + q, tag, 0) == p + without_blocks(q, tag, 0),
{
    let s = p + q;
    lemma_is_needle(tag);
    lemma_tag_bounds_skips(ascii_lower(s), opening_needle(tag), 0, p.len() as int);
    lemma_without_blocks_behind(p, q, tag, 0);
    lemma_named_tag(s, tag, false, 0);
    assert(opening_tag(s, tag, 0) == opening_tag(s, tag, p.len() as int));
    lemma_named_tag(s, tag, false, p.len() as int);
    assert(rest(s, 0) =~= p + rest(s, p.len() as int));
    if let Some((start, open_end)) = opening_tag(s, tag, 0) {
        assert(s.subrange(0, start) =~= p + s.subrange(p.len() as int, start));
        assert(without_blocks(s, tag, 0) =~= p + without_blocks(s, tag, p.len() as int));
    }
}

proof fn lemma_removed_between(
    before: Seq<char>,
    open: Seq<char>,
    inner: Seq<char>,
    close: Seq<char>,
    after: Seq<char>,
    tag: Seq<char>,
)
    requires
        open.len() > 0,
        close.len() > 0,
        opening_tag(before + open + inner + close + after, tag, 0) == Some(
            (before.len() as int, before.len() + open.len() - 1),
        ),
        closing_tag(
            before + open + inner + close + after,
            tag,
            (before.len() + open.len()) as int,
        ) == Some(
            (
                (before.len() + open.len() + inner.len()) as int,
                before.len() + open.len() + inner.len() + close.len() - 1,
            ),
        ),
    ensures
        without_blocks(before + open + inner + close + after, tag, 0) == before + without_blocks(
            after,
            tag,
            0,
        ),
{
    let s = before + open + inner + close + after;
    lemma_without_blocks_behind(before + open + inner + close, after, tag, 0);
    assert(s.subrange(0, before.len() as int) =~= before);
}

/// An element is removed with its tags and its text, and nothing else is.
pub proof fn element_is_removed(
    before: Seq<char>,
    open_name: Seq<char>,
    attributes: Seq<char>,
    inner: Seq<char>,
    close_name: Seq<char>,
    after: Seq<char>,
)
    requires
        lacks(before, '<'),
        lacks(inner, '<'),
        is_name(ascii_lower(open_name)),
        ascii_lower(close_name) == ascii_lower(open_name),
        are_attributes(attributes),
    ensures
        without_blocks(
            with_element(before, open_name, attributes, inner, close_name, after),
            ascii_lower(open_name),
            0,
        ) == before + without_blocks(after, ascii_lower(open_name), 0),
{
    let tag = ascii_lower(open_name);
    let s = with_element(before, open_name, attributes, inner, close_name, after);
    let opened = before + start_tag(open_name, attributes);
    lemma_opening_found(before, open_name, attributes, inner + end_tag(close_name) + after);
    assert(opened + (inner + end_tag(close_name) + after) =~= s);
    lemma_closing_found(opened, inner, close_name, after);
    lemma_removed_between(
        before,
        start_tag(open_name, attributes),
        inner,
        end_tag(close_name),
        after,
        tag,
    );
}

/// Elements are replaced behind a prefix as they are without the prefix.
pub proof fn lemma_paired_behind(
    p: Seq<char>,
    q: Seq<char>,
    tag: Seq<char>,
    render: spec_fn(Seq<char>) -> Seq<char>,
    from: int,
)
    requires
        0 <= from <= q.len(),
    ensures
        paired_replaced(p + q, tag, render, p.len() + from) == paired_replaced(
            q,
            tag,
            render,
            from,
        ),
    decreases q.len() - from,
{
    let s = p + q;
    lemma_named_tag_behind(p, q, tag, false, from);
    lemma_named_tag(q, tag, false, from);
    assert(rest(s, p.len() + from) =~= rest(q, from));
    if let Some((start, open_end)) = opening_tag(q, tag, from) {
        lemma_named_tag_behind(p, q, tag, true, open_end + 1);
        lemma_named_tag(q, tag, true, open_end + 1);
        if let Some((close_start, close_end)) = closing_tag(q, tag, open_end + 1) {
            assert(s.subrange(p.len() + from, p.len() + start) =~= q.subrange(from, start));
            assert(s.subrange(p.len() + open_end + 1, p.len() + close_start) =~= q.subrange(
                open_end + 1,
                close_start,
            ));
            lemma_paired_behind(p, q, tag, render, close_end + 1);
        }
    }
}

proof fn lemma_rendered_between(
    before: Seq<char>,
    open: Seq<char>,
    inner: Seq<char>,
    close: Seq<char>,
    after: Seq<char>,
    tag: Seq<char>,
    render: spec_fn(Seq<char>) -> Seq<char>,
)
    requires
        open.len() > 0,
        close.len() > 0,
        opening_tag(before + open + inner + close + after, tag, 0) == Some(
            (before.len() as int, before.len() + open.len() - 1),
        ),
        closing_tag(
            before + open + inner + close + after,
            tag,
            (before.len() + open.len()) as int,
        ) == Some(
            (
                (before.len() + open.len() + inner.len()) as int,
                before.len() + open.len() + inner.len() + close.len() - 1,
            ),
        ),
    ensures
        paired_replaced(before + open + inner + close + after, tag, render, 0) == before + render(
            inner,
        ) + paired_replaced(after, tag, render, 0),
{
    let s = before + open + inner + close + after;
    let from = (before.len() + open.len()) as int;
    lemma_paired_behind(before + open + inner + close, after, tag, render, 0);
    assert(s.subrange(0, before.len() as int) =~= before);
    assert(s.subrange(from, from + inner.len()) =~= inner);
}

/// An element is replaced, with its tags, by what is made of its text, and
/// nothing else is.
pub proof fn element_is_rendered(
    before: Seq<char>,
    open_name: Seq<char>,
    attributes: Seq<char>,
    inner: Seq<char>,
    close_name: Seq<char>,
    after: Seq<char>,
    render: spec_fn(Seq<char>) -> Seq<char>,
)
    requires
        lacks(before, '<'),
        lacks(inner, '<'),
        is_name(ascii_lower(open_name)),
        ascii_lower(close_name) == ascii_lower(open_name),
        are_attributes(attributes),
    ensures
        paired_replaced(
            with_element(before, open_name, attributes, inner, close_name, after),
            ascii_lower(open_name),
            render,
            0,
        ) == before + render(inner) + paired_replaced(after, ascii_lower(open_name), render, 0),
{
    let tag = ascii_lower(open_name);
    let s = with_element(before, open_name, attributes, inner, close_name, after);
    let opened = before + start_tag(open_name, attributes);
    lemma_opening_found(before, open_name, attributes, inner + end_tag(close_name) + after);
    assert(opened + (inner + end_tag(close_name) + after) =~= s);
    lemma_closing_found(opened, inner, close_name, after);
    lemma_rendered_between(
        before,
        start_tag(open_name, attributes),
        inner,
        end_tag(close_name),
        after,
        tag,
        render,
    );
}

/// Links are rendered behind a prefix as they are without the prefix.
pub proof fn lemma_links_behind(p: Seq<char>, q: Seq<char>, format: OutputFormat, from: int)
    requires
        0 <= from <= q.len(),
    ensures
        links_converted(p + q, format, p.len() + from) == links_converted(q, format, from),
    decreases q.len() - from,
{
    let s = p + q;
    lemma_named_tag_behind(p, q, "a"@, false, from);
    lemma_named_tag(q, "a"@, false, from);
    assert(rest(s, p.len() + from) =~= rest(q, from));
    if let Some((start, open_end)) = opening_tag(q, "a"@, from) {
        lemma_named_tag_behind(p, q, "a"@, true, open_end + 1);
        lemma_named_tag(q, "a"@, true, open_end + 1);
        if let Some((close_start, close_end)) = closing_tag(q, "a"@, open_end + 1) {
            assert(s.subrange(p.len() + from, p.len() + start) =~= q.subrange(from, start));
            assert(s.subrange(p.len() + start, p.len() + open_end + 1) =~= q.subrange(
                start,
                open_end + 1,
            ));
            assert(s.subrange(p.len() + open_end + 1, p.len() + close_start) =~= q.subrange(
                open_end + 1,
                close_start,
            ));
            lemma_links_behind(p, q, format, close_end + 1);
        }
    }
}

proof fn lemma_link_between(
    before: Seq<char>,
    open: Seq<char>,
    inner: Seq<char>,
    close: Seq<char>,
    after: Seq<char>,
    format: OutputFormat,
)
    requires
        open.len() > 0,
        close.len() > 0,
        opening_tag(before + open + inner + close + after, "a"@, 0) == Some(
            (before.len() as int, before.len() + open.len() - 1),
        ),
        closing_tag(
            before + open + inner + close + after,
            "a"@,
            (before.len() + open.len()) as int,
        ) == Some(
            (
                (before.len() + open.len() + inner.len()) as int,
                before.len() + open.len() + inner.len() + close.len() - 1,
            ),
        ),
    ensures
        links_converted(before + open + inner + close + after, format, 0) == before + link_text(
            inline_text(inner),
            attribute_of(open, "href"@),
            format,
        ) + links_converted(after, format, 0),
{
    let s = before + open + inner + close + after;
    let from = (before.len() + open.len()) as int;
    lemma_links_behind(before + open + inner + close, after, format, 0);
    assert(s.subrange(0, before.len() as int) =~= before);
    assert(s.subrange(before.len() as int, from) =~= open);
    assert(s.subrange(from, from + inner.len()) =~= inner);
}

/// A link is rendered from the text between its tags and from the target in its
/// opening tag, and nothing else is changed.
pub proof fn link_is_rendered(
    before: Seq<char>,
    open_name: Seq<char>,
    attributes: Seq<char>,
    inner: Seq<char>,
    close_name: Seq<char>,
    after: Seq<char>,
    format: OutputFormat,
)
    requires
        lacks(before, '<'),
        lacks(inner, '<'),
        ascii_lower(open_name) == "a"@,
        ascii_lower(close_name) == "a"@,
        are_attributes(attributes),
    ensures
        links_converted(
            with_element(before, open_name, attributes, inner, close_name, after),
            format,
            0,
        ) == before + link_text(
            inline_text(inner),
            attribute_of(start_tag(open_name, attributes), "href"@),
            format,
        ) + links_converted(after, format, 0),
{
    let s = with_element(before, open_name, attributes, inner, close_name, after);
    let opened = before + start_tag(open_name, attributes);
    reveal_strlit("a");
    lemma_opening_found(before, open_name, attributes, inner + end_tag(close_name) + after);
    assert(opened + (inner + end_tag(close_name) + after) =~= s);
    lemma_closing_found(opened, inner, close_name, after);
    lemma_link_between(
        before,
        start_tag(open_name, attributes),
        inner,
        end_tag(close_name),
        after,
        format,
    );
}

/// Tags are replaced behind a prefix as they are without the prefix.
pub proof fn lemma_tags_behind(
    p: Seq<char>,
    q: Seq<char>,
    tag: Seq<char>,
    closing: bool,
    replacement: Seq<char>,
    from: int,
)
    requires
        0 <= from <= q.len(),
    ensures
        tags_replaced(p + q, tag, closing, replacement, p.len() + from) == tags_replaced(
            q,
            tag,
            closing,
            replacement,
            from,
        ),
    decreases q.len() - from,
{
    let s = p + q;
    lemma_named_tag_behind(p, q, tag, closing, from);
    lemma_named_tag(q, tag, closing, from);
    assert(rest(s, p.len() + from) =~= rest(q, from));
    if let Some((start, end)) = named_tag(q, tag, closing, from) {
        assert(s.subrange(p.len() + from, p.len() + start) =~= q.subrange(from, start));
        lemma_tags_behind(p, q, tag, closing, replacement, end + 1);
    }
}

/// Text in which no opening tag of the name stands is kept when those tags are
/// replaced.
proof fn lemma_opening_tags_prefix(
    p: Seq<char>,
    q: Seq<char>,
    tag: Seq<char>,
    replacement: Seq<char>,
)
    requires
        is_name(tag),
        forall|i: int|
            0 <= i < p.len() ==> !tag_stands(ascii_lower(p + q), opening_needle(tag), i),
    ensures
        tags_replaced(p + q, tag, false, replacement, 0) == p + tags_replaced(
            q,
            tag,
            false,
            replacement,
            0,
        ),
{
    let s = p + q;
    lemma_is_needle(tag);
    lemma_tag_bounds_skips(ascii_lower(s), opening_needle(tag), 0, p.len() as int);
    lemma_tags_behind(p, q, tag, false, replacement, 0);
    assert(named_tag(s, tag, false, 0) == named_tag(s, tag, false, p.len() as int));
    lemma_named_tag(s, tag, false, p.len() as int);
    assert(rest(s, 0) =~= p + rest(s, p.len() as int));
    if let Some((start, end)) = named_tag(s, tag, false, 0) {
        assert(s.subrange(0, start) =~= p + s.subrange(p.len() as int, start));
        assert(tags_replaced(s, tag, false, replacement, 0) =~= p + tags_replaced(
            s,
            tag,
            false,
            replacement,
            p.len() as int,
        ));
    }
}

/// The tags of headings have names.
pub proof fn lemma_heading_tag(level: nat)
    ensures
        is_name(heading_tag(level)),
{
    reveal_strlit("h");
    decimal_holds_only_digits(level);
    let tag = heading_tag(level);
    assert forall|i: int| 0 <= i < tag.len() implies ('a' <= #[trigger] tag[i] && tag[i] <= 'z')
        || ('0' <= tag[i] && tag[i] <= '9') by {
        if i > 0 {
            assert(tag[i] == decimal(level)[i - 1]);
        }
    }
}

proof fn lemma_heading_prefix(level: nat, format: OutputFormat)
    ensures
        lacks(heading_prefix(level, format), '<'),
{
    reveal_strlit("\n");
    reveal_strlit(" ");
}

/// A heading becomes a line with the marks of its level before its text and a
/// blank line after it, and nothing else is changed.
pub proof fn heading_is_rendered(
    before: Seq<char>,
    open_name: Seq<char>,
    attributes: Seq<char>,
    inner: Seq<char>,
    close_name: Seq<char>,
    after: Seq<char>,
    level: nat,
    format: OutputFormat,
)
    requires
        lacks(before, '<'),
        lacks(inner, '<'),
        ascii_lower(open_name) == heading_tag(level),
        ascii_lower(close_name) == heading_tag(level),
        are_attributes(attributes),
    ensures
        heading_replaced(
            with_element(before, open_name, attributes, inner, close_name, after),
            level,
            format,
        ) == before + heading_prefix(level, format) + inner + "\n\n"@ + heading_replaced(
            after,
            level,
            format,
        ),
{
    let tag = heading_tag(level);
    let prefix = heading_prefix(level, format);
    let s = with_element(before, open_name, attributes, inner, close_name, after);
    let open = start_tag(open_name, attributes);
    let close = end_tag(close_name);
    let after_opened = tags_replaced(after, tag, false, prefix, 0);
    lemma_heading_tag(level);
    lemma_heading_prefix(level, format);
    lemma_opening_found(before, open_name, attributes, inner + close + after);
    assert(before + open + (inner + close + after) =~= s);
    lemma_heading_opened(inner, close_name, after, tag, prefix);
    lemma_tag_between(before, open, inner + close + after, tag, false, prefix);
    let start = before + prefix + inner;
    lemma_lacks_concat(before, prefix, inner);
    let opened = tags_replaced(s, tag, false, prefix, 0);
    assert(opened =~= start + close + after_opened);
    lemma_closing_found(seq![], start, close_name, after_opened);
    assert(seq![] + start + close + after_opened =~= start + close + after_opened);
    lemma_tag_between(start, close, after_opened, tag, true, "\n\n"@);
}

proof fn lemma_lacks_concat(a: Seq<char>, b: Seq<char>, c: Seq<char>)
    requires
        lacks(a, '<'),
        lacks(b, '<'),
        lacks(c, '<'),
    ensures
        lacks(a + b + c, '<'),
{
}

proof fn lemma_tag_between(
    before: Seq<char>,
    found: Seq<char>,
    after: Seq<char>,
    tag: Seq<char>,
    closing: bool,
    replacement: Seq<char>,
)
    requires
        found.len() > 0,
        named_tag(before + found + after, tag, closing, 0) == Some(
            (before.len() as int, before.len() + found.len() - 1),
        ),
    ensures
        tags_replaced(before + found + after, tag, closing, replacement, 0) == before + replacement
            + tags_replaced(after, tag, closing, replacement, 0),
{
    let s = before + found + after;
    lemma_tags_behind(before + found, after, tag, closing, replacement, 0);
    assert(s.subrange(0, before.len() as int) =~= before);
}

/// In the text of an element and its closing tag, opening tags are not replaced.
proof fn lemma_heading_opened(
    inner: Seq<char>,
    close_name: Seq<char>,
    after: Seq<char>,
    tag: Seq<char>,
    replacement: Seq<char>,
)
    requires
        lacks(inner, '<'),
        is_name(tag),
        ascii_lower(close_name) == tag,
    ensures
        tags_replaced(inner + end_tag(close_name) + after, tag, false, replacement, 0) == inner
            + end_tag(close_name) + tags_replaced(after, tag, false, replacement, 0),
{
    let middle = inner + end_tag(close_name);
    let t = middle + after;
    assert forall|i: int| 0 <= i < middle.len() implies !tag_stands(
        ascii_lower(t),
        opening_needle(tag),
        i,
    ) by {
        if i < inner.len() {
            assert(t[i] == inner[i]);
            lemma_no_tag_at(t, opening_needle(tag), i);
        } else if i == inner.len() {
            assert forall|k: int| 0 <= k < tag.len() implies lower_char(t[i + 2 + k])
                == #[trigger] tag[k] by {
                assert(t[i + 2 + k] == close_name[k]);
            }
            assert(ends_element(t, tag, i));
            lemma_closing_is_not_opening(t, tag, tag, i);
        } else {
            if i > inner.len() + 1 && i < middle.len() - 1 {
                assert(t[i] == close_name[i - inner.len() - 2]);
                assert(tag[i - inner.len() - 2] == lower_char(t[i]));
            }
            lemma_no_tag_at(t, opening_needle(tag), i);
        }
    }
    lemma_opening_tags_prefix(middle, after, tag, replacement);
}

} // verus!
