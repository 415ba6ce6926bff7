//! Laws of what leaves no trace in the extracted content: comments, and the
//! elements that hold no readable content.

use vstd::prelude::*;

use crate::format::OutputFormat;
use crate::html::{content_of, ignored_stripped, ignored_tags, without_all, without_comments};
use crate::laws::markup::{
    are_attributes, element_is_removed, end_tag, ends_element, is_name,
    lemma_closing_is_not_opening, lemma_no_tag_at, lemma_opening_found, lemma_other_tag_at,
    lemma_without_blocks_prefix, start_tag, with_element,
};
use crate::laws::search::{lacks, lemma_find_from_behind, lemma_find_from_skips, tag_stands};
use crate::tags::opening_needle;
use crate::text::{ascii_lower, find_from, lemma_find_from, lower_char, matches_at, rest};

verus! {

/// Comments are removed behind a prefix as they are without the prefix.
pub proof fn lemma_without_comments_behind(p: Seq<char>, q: Seq<char>, from: int)
    requires
        0 <= from <= q.len(),
    ensures
        without_comments(p + q, p.len() + from) == without_comments(q, from),
    decreases q.len() - from,
{
    let s = p + q;
    reveal_strlit("<!--");
    reveal_strlit("-->");
    lemma_find_from_behind(p, q, "<!--"@, from);
    lemma_find_from(q, "<!--"@, from);
    assert(rest(s, p.len() + from) =~= rest(q, from));
    if let Some(start) = find_from(q, "<!--"@, from) {
        lemma_find_from_behind(p, q, "-->"@, start + 4);
        lemma_find_from(q, "-->"@, start + 4);
        assert(s.subrange(p.len() + from, p.len() + start) =~= q.subrange(from, start));
        if let Some(end) = find_from(q, "-->"@, start + 4) {
            lemma_without_comments_behind(p, q, end + 3);
        }
    }
}

proof fn lemma_without_comments_prefix(p: Seq<char>, q: Seq<char>)
    requires
        forall|i: int| 0 <= i < p.len() ==> !matches_at(p + q, "<!--"@, i),
    ensures
        without_comments(p + q, 0) == p + without_comments(q, 0),
{
    let s = p + q;
    lemma_find_from_skips(s, "<!--"@, 0, p.len() as int);
    lemma_without_comments_behind(p, q, 0);
    lemma_find_from(s, "<!--"@, p.len() as int);
    assert(rest(s, 0) =~= p + rest(s, p.len() as int));
    if let Some(start) = find_from(s, "<!--"@, 0) {
        reveal_strlit("<!--");
        assert(s.subrange(0, start) =~= p + s.subrange(p.len() as int, start));
        assert(without_comments(s, 0) =~= p + without_comments(s, p.len() as int));
    }
}

proof fn lemma_no_comment_at(s: Seq<char>, i: int)
    requires
        0 <= i < s.len(),
        s[i] != '<' || (i + 1 < s.len() && s[i + 1] != '!'),
    ensures
        !matches_at(s, "<!--"@, i),
{
    reveal_strlit("<!--");
    if matches_at(s, "<!--"@, i) {
        assert(s.subrange(i, i + 4)[0] == '<');
        assert(s.subrange(i, i + 4)[1] == '!');
    }
}

/// The elements without readable content have names.
pub proof fn lemma_ignored_names()
    ensures
        forall|k: int| 0 <= k < ignored_tags().len() ==> is_name(#[trigger] ignored_tags()[k]),
{
    reveal_strlit("script");
    reveal_strlit("style");
    reveal_strlit("nav");
    reveal_strlit("header");
    reveal_strlit("footer");
    reveal_strlit("noscript");
    reveal_strlit("svg");
    reveal_strlit("iframe");
    reveal_strlit("form");
    reveal_strlit("aside");
}

proof fn lemma_all_prefix(before: Seq<char>, after: Seq<char>, tags: Seq<Seq<char>>)
    requires
        lacks(before, '<'),
        forall|k: int| 0 <= k < tags.len() ==> is_name(#[trigger] tags[k]),
    ensures
        without_all(before + after, tags) == before + without_all(after, tags),
    decreases tags.len(),
{
    if tags.len() > 0 {
        let tag = tags.last();
        let q = without_all(after, tags.drop_last());
        lemma_all_prefix(before, after, tags.drop_last());
        assert(is_name(tags[tags.len() - 1]));
        assert forall|i: int| 0 <= i < before.len() implies !tag_stands(
            ascii_lower(before + q),
            opening_needle(tag),
            i,
        ) by {
            assert((before + q)[i] == before[i]);
            lemma_no_tag_at(before + q, opening_needle(tag), i);
        }
        lemma_without_blocks_prefix(before, q, tag);
    }
}

/// Text without `<` before the rest of a document stays, and does not change
/// what is removed from the rest.
pub proof fn text_before_markup_is_kept(before: Seq<char>, after: Seq<char>)
    requires
        lacks(before, '<'),
    ensures
        ignored_stripped(before + after) == before + ignored_stripped(after),
{
    assert forall|i: int| 0 <= i < before.len() implies !matches_at(
        before + after,
        "<!--"@,
        i,
    ) by {
        assert((before + after)[i] == before[i]);
        lemma_no_comment_at(before + after, i);
    }
    lemma_without_comments_prefix(before, after);
    lemma_ignored_names();
    lemma_all_prefix(before, without_comments(after, 0), ignored_tags());
}

/// A comment leaves nothing behind: the content is that of the document without
/// it. The comment ends with its first `-->`.
pub proof fn comment_leaves_nothing(
    before: Seq<char>,
    inner: Seq<char>,
    after: Seq<char>,
    format: OutputFormat,
)
    requires
        lacks(before, '<'),
        find_from(inner + "-->"@, "-->"@, 0) == Some(inner.len() as int),
    ensures
        content_of(before + "<!--"@ + inner + "-->"@ + after, format) == content_of(
            before + after,
            format,
        ),
{
    reveal_strlit("<!--");
    reveal_strlit("-->");
    let opened = before + "<!--"@;
    let tail = inner + "-->"@ + after;
    let s = before + "<!--"@ + inner + "-->"@ + after;
    assert(s =~= opened + tail);
    assert forall|i: int| 0 <= i < before.len() implies !matches_at(s, "<!--"@, i) by {
        assert(s[i] == before[i]);
        lemma_no_comment_at(s, i);
    }
    lemma_find_from_skips(s, "<!--"@, 0, before.len() as int);
    assert(s.subrange(before.len() as int, (before.len() + 4) as int) =~= "<!--"@);
    assert(find_from(s, "<!--"@, 0) == Some(before.len() as int));
    lemma_find_from(inner + "-->"@, "-->"@, 0);
    assert forall|i: int| 0 <= i < inner.len() implies !matches_at(tail, "-->"@, i) by {
        assert(tail.subrange(i, i + 3) =~= (inner + "-->"@).subrange(i, i + 3));
        assert(!matches_at(inner + "-->"@, "-->"@, i));
    }
    lemma_find_from_skips(tail, "-->"@, 0, inner.len() as int);
    assert(tail.subrange(inner.len() as int, (inner.len() + 3) as int) =~= "-->"@);
    assert(find_from(tail, "-->"@, 0) == Some(inner.len() as int));
    lemma_find_from_behind(opened, tail, "-->"@, 0);
    let comment = opened + inner + "-->"@;
    assert(s =~= comment + after);
    lemma_without_comments_behind(comment, after, 0);
    assert(s.subrange(0, before.len() as int) =~= before);
    assert(without_comments(s, 0) == before + without_comments(after, 0));
    lemma_ignored_names();
    lemma_all_prefix(before, without_comments(after, 0), ignored_tags());
    text_before_markup_is_kept(before, after);
}

/// An element with text holds a `<` only where its tags begin.
pub proof fn lemma_text_of_element(
    before: Seq<char>,
    open_name: Seq<char>,
    attributes: Seq<char>,
    inner: Seq<char>,
    close_name: Seq<char>,
    after: Seq<char>,
    i: int,
)
    requires
        lacks(before, '<'),
        lacks(inner, '<'),
        is_name(ascii_lower(open_name)),
        ascii_lower(close_name) == ascii_lower(open_name),
        are_attributes(attributes),
        0 <= i < with_element(before, open_name, attributes, inner, close_name, seq![]).len(),
        i != before.len(),
        i != before.len() + start_tag(open_name, attributes).len() + inner.len(),
    ensures
        with_element(before, open_name, attributes, inner, close_name, after)[i] != '<',
{
    let s = with_element(before, open_name, attributes, inner, close_name, after);
    let name = ascii_lower(open_name);
    let open = before.len() as int;
    let close = (before.len() + start_tag(open_name, attributes).len() + inner.len()) as int;
    if i < open {
        assert(s[i] == before[i]);
    } else if i <= open + open_name.len() {
        assert(s[i] == open_name[i - open - 1]);
        assert(lower_char(s[i]) == name[i - open - 1]);
    } else if i < open + start_tag(open_name, attributes).len() - 1 {
        assert(s[i] == attributes[i - open - 1 - open_name.len()]);
    } else if i == open + start_tag(open_name, attributes).len() - 1 {
        assert(s[i] == '>');
    } else if i < close {
        assert(s[i] == inner[i - open - start_tag(open_name, attributes).len()]);
    } else if i > close + 1 && i <= close + 1 + close_name.len() {
        assert(s[i] == close_name[i - close - 2]);
        assert(lower_char(s[i]) == ascii_lower(close_name)[i - close - 2]);
    }
}

/// In an element with text and the text before it, no comment begins.
pub proof fn lemma_no_comments_in_element(
    before: Seq<char>,
    open_name: Seq<char>,
    attributes: Seq<char>,
    inner: Seq<char>,
    close_name: Seq<char>,
    after: Seq<char>,
    i: int,
)
    requires
        lacks(before, '<'),
        lacks(inner, '<'),
        is_name(ascii_lower(open_name)),
        ascii_lower(close_name) == ascii_lower(open_name),
        are_attributes(attributes),
        0 <= i < with_element(before, open_name, attributes, inner, close_name, seq![]).len(),
    ensures
        !matches_at(
            with_element(before, open_name, attributes, inner, close_name, after),
            "<!--"@,
            i,
        ),
{
    let s = with_element(before, open_name, attributes, inner, close_name, after);
    let name = ascii_lower(open_name);
    let open = before.len() as int;
    let close = (before.len() + start_tag(open_name, attributes).len() + inner.len()) as int;
    if i == open {
        assert(s[i + 1] == open_name[0]);
        assert(lower_char(s[i + 1]) == name[0]);
    } else if i == close {
        assert(s[i + 1] == '/');
    } else {
        lemma_text_of_element(before, open_name, attributes, inner, close_name, after, i);
    }
    lemma_no_comment_at(s, i);
}

/// In an element with text and the text before it, no opening tag of another
/// name stands.
pub proof fn lemma_no_other_tags(
    before: Seq<char>,
    open_name: Seq<char>,
    attributes: Seq<char>,
    inner: Seq<char>,
    close_name: Seq<char>,
    after: Seq<char>,
    tag: Seq<char>,
    i: int,
)
    requires
        lacks(before, '<'),
        lacks(inner, '<'),
        is_name(ascii_lower(open_name)),
        ascii_lower(close_name) == ascii_lower(open_name),
        are_attributes(attributes),
        is_name(tag),
        tag != ascii_lower(open_name),
        0 <= i < with_element(before, open_name, attributes, inner, close_name, seq![]).len(),
    ensures
        !tag_stands(
            ascii_lower(with_element(before, open_name, attributes, inner, close_name, after)),
            opening_needle(tag),
            i,
        ),
{
    let s = with_element(before, open_name, attributes, inner, close_name, after);
    let name = ascii_lower(open_name);
    let open = before.len() as int;
    let close = (before.len() + start_tag(open_name, attributes).len() + inner.len()) as int;
    if i == open {
        lemma_opening_found(before, open_name, attributes, inner + end_tag(close_name) + after);
        assert(before + start_tag(open_name, attributes) + (inner + end_tag(close_name) + after)
            =~= s);
        lemma_other_tag_at(s, name, tag, i);
    } else if i == close {
        assert forall|k: int| 0 <= k < name.len() implies lower_char(s[i + 2 + k])
            == #[trigger] name[k] by {
            assert(s[i + 2 + k] == close_name[k]);
            assert(ascii_lower(close_name)[k] == name[k]);
        }
        assert(ends_element(s, name, i));
        lemma_closing_is_not_opening(s, name, tag, i);
    } else {
        lemma_text_of_element(before, open_name, attributes, inner, close_name, after, i);
        lemma_no_tag_at(s, opening_needle(tag), i);
    }
}

proof fn lemma_all_element(
    before: Seq<char>,
    open_name: Seq<char>,
    attributes: Seq<char>,
    inner: Seq<char>,
    close_name: Seq<char>,
    after: Seq<char>,
    tags: Seq<Seq<char>>,
)
    requires
        lacks(before, '<'),
        lacks(inner, '<'),
        is_name(ascii_lower(open_name)),
        ascii_lower(close_name) == ascii_lower(open_name),
        are_attributes(attributes),
        forall|k: int| 0 <= k < tags.len() ==> is_name(#[trigger] tags[k]),
    ensures
        without_all(
            with_element(before, open_name, attributes, inner, close_name, after),
            tags,
        ) == (if tags.contains(ascii_lower(open_name)) {
            before + without_all(after, tags)
        } else {
            with_element(
                before,
                open_name,
                attributes,
                inner,
                close_name,
                without_all(after, tags),
            )
        }),
    decreases tags.len(),
{
    let name = ascii_lower(open_name);
    if tags.len() > 0 {
        let head = tags.drop_last();
        let tag = tags.last();
        let q = without_all(after, head);
        lemma_all_element(before, open_name, attributes, inner, close_name, after, head);
        assert(is_name(tags[tags.len() - 1]));
        if head.contains(name) {
            let k = choose|k: int| 0 <= k < head.len() && head[k] == name;
            assert(tags[k] == name);
            assert forall|i: int| 0 <= i < before.len() implies !tag_stands(
                ascii_lower(before + q),
                opening_needle(tag),
                i,
            ) by {
                assert((before + q)[i] == before[i]);
                lemma_no_tag_at(before + q, opening_needle(tag), i);
            }
            lemma_without_blocks_prefix(before, q, tag);
        } else if tag == name {
            assert(tags[tags.len() - 1] == name);
            element_is_removed(before, open_name, attributes, inner, close_name, q);
        } else {
            assert(!tags.contains(name)) by {
                if tags.contains(name) {
                    let k = choose|k: int| 0 <= k < tags.len() && tags[k] == name;
                    assert(head[k] == name);
                }
            }
            let x = with_element(before, open_name, attributes, inner, close_name, seq![]);
            let s = with_element(before, open_name, attributes, inner, close_name, q);
            assert(s =~= x + q);
            assert forall|i: int| 0 <= i < x.len() implies !tag_stands(
                ascii_lower(x + q),
                opening_needle(tag),
                i,
            ) by {
                lemma_no_other_tags(
                    before,
                    open_name,
                    attributes,
                    inner,
                    close_name,
                    q,
                    tag,
                    i,
                );
            }
            lemma_without_blocks_prefix(x, q, tag);
            assert(without_all(
                with_element(before, open_name, attributes, inner, close_name, after),
                tags,
            ) =~= with_element(
                before,
                open_name,
                attributes,
                inner,
                close_name,
                without_all(after, tags),
            ));
        }
    }
}

/// An element that holds no readable content leaves nothing behind, neither its
/// tags nor its text: the content is that of the document without it. The case
/// of the tag names does not matter.
pub proof fn ignored_element_leaves_nothing(
    before: Seq<char>,
    open_name: Seq<char>,
    attributes: Seq<char>,
    inner: Seq<char>,
    close_name: Seq<char>,
    after: Seq<char>,
    format: OutputFormat,
)
    requires
        lacks(before, '<'),
        lacks(inner, '<'),
        ignored_tags().contains(ascii_lower(open_name)),
        ascii_lower(close_name) == ascii_lower(open_name),
        are_attributes(attributes),
    ensures
        content_of(
            with_element(before, open_name, attributes, inner, close_name, after),
            format,
        ) == content_of(before + after, format),
{
    let name = ascii_lower(open_name);
    let s = with_element(before, open_name, attributes, inner, close_name, after);
    let x = with_element(before, open_name, attributes, inner, close_name, seq![]);
    let q = without_comments(after, 0);
    lemma_ignored_names();
    assert(is_name(name)) by {
        let k = choose|k: int| 0 <= k < ignored_tags().len() && ignored_tags()[k] == name;
        assert(is_name(ignored_tags()[k]));
    }
    assert(s =~= x + after);
    assert forall|i: int| 0 <= i < x.len() implies !matches_at(x + after, "<!--"@, i) by {
        lemma_no_comments_in_element(before, open_name, attributes, inner, close_name, after, i);
    }
    lemma_without_comments_prefix(x, after);
    assert(x + q =~= with_element(before, open_name, attributes, inner, close_name, q));
    lemma_all_element(before, open_name, attributes, inner, close_name, q, ignored_tags());
    text_before_markup_is_kept(before, after);
}

} // verus!
