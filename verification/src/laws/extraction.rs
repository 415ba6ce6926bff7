//! Laws of extraction as a whole: what documents that consist of one element
//! become.

use vstd::prelude::*;

use crate::format::OutputFormat;
use crate::html::{
    blocks_replaced, content_of, heading_prefix, heading_replaced, heading_tag, headings_replaced,
    ignored_stripped, ignored_tags, inline_code, inline_text, link_text, links_converted,
    paired_replaced, preformatted, without_all,
};
use crate::laws::encodings::{decimal_holds_only_digits, decimal_is_readable};
use crate::laws::links::{quoted_target_is_read, target_attribute};
use crate::laws::listing::{
    item_lines, lemma_list_names, lemma_name_chars, list_document, list_is_rendered, list_items,
    list_name,
};
use crate::laws::markup::{
    are_attributes, element_is_rendered, end_tag, ends_element, heading_is_rendered, is_name,
    lemma_closing_is_not_opening, lemma_heading_tag, lemma_is_needle, lemma_no_tag_at,
    lemma_other_tag_at, link_is_rendered, start_tag, starts_element, with_element,
};
use crate::laws::plain_text::{
    lemma_no_headings, text_without_brackets_is_kept, text_without_references_is_kept,
};
use crate::laws::removal::lemma_ignored_names;
use crate::laws::search::{lacks, lemma_tag_bounds_skips, tag_stands};
use crate::laws::whitespace::{clean_lines_are_kept, is_clean_line, lemma_joined_front, line_feeds};
use crate::normalize::{joined, normalized};
use crate::tags::{closing_needle, lemma_named_tag, lemma_next_tag, named_tag, opening_needle};
use crate::text::{
    ascii_lower, char_at, decimal, find_from, lemma_find_from, lower_char, rest, white_space,
};

verus! {

/// A document that consists of one element.
pub open spec fn element_document(
    name: Seq<char>,
    attributes: Seq<char>,
    inner: Seq<char>,
) -> Seq<char> {
    with_element(seq![], name, attributes, inner, name, seq![])
}

/// Whether a text is a line that holds no markup: not empty, with single spaces,
/// without angle brackets and ampersands.
pub open spec fn is_plain_line(line: Seq<char>) -> bool {
    &&& line.len() > 0
    &&& is_clean_line(line)
    &&& lacks(line, '<')
    &&& lacks(line, '>')
    &&& lacks(line, '&')
}

/// Whether a tag of an element stands at a position.
pub open spec fn tag_at(s: Seq<char>, name: Seq<char>, i: int) -> bool {
    starts_element(s, name, i) || ends_element(s, name, i)
}

/// Whether a tag with one of the given names stands at a position.
pub open spec fn is_tag_among(s: Seq<char>, names: Seq<Seq<char>>, i: int) -> bool {
    exists|k: int| 0 <= k < names.len() && tag_at(s, #[trigger] names[k], i)
}

/// Whether each `<` of a text begins a tag with one of the given names.
pub open spec fn tags_among(s: Seq<char>, names: Seq<Seq<char>>) -> bool {
    forall|i: int| 0 <= i < s.len() && #[trigger] s[i] == '<' ==> is_tag_among(s, names, i)
}

/// Whether texts are names of tags, all but the given one.
pub open spec fn are_other_names(names: Seq<Seq<char>>, tag: Seq<char>) -> bool {
    forall|k: int| 0 <= k < names.len() ==> is_name(#[trigger] names[k]) && names[k] != tag
}

proof fn lemma_tag_before(p: Seq<char>, q: Seq<char>, name: Seq<char>, i: int)
    requires
        tag_at(p, name, i),
    ensures
        tag_at(p + q, name, i),
{
    let s = p + q;
    if starts_element(p, name, i) {
        assert forall|k: int| 0 <= k < name.len() implies lower_char(s[i + 1 + k])
            == #[trigger] name[k] by {
            assert(s[i + 1 + k] == p[i + 1 + k]);
        }
        assert(starts_element(s, name, i));
    } else {
        assert forall|k: int| 0 <= k < name.len() implies lower_char(s[i + 2 + k])
            == #[trigger] name[k] by {
            assert(s[i + 2 + k] == p[i + 2 + k]);
        }
        assert(ends_element(s, name, i));
    }
}

proof fn lemma_tag_behind(p: Seq<char>, q: Seq<char>, name: Seq<char>, i: int)
    requires
        tag_at(q, name, i),
    ensures
        tag_at(p + q, name, p.len() + i),
{
    let s = p + q;
    let j = p.len() + i;
    if starts_element(q, name, i) {
        assert forall|k: int| 0 <= k < name.len() implies lower_char(s[j + 1 + k])
            == #[trigger] name[k] by {
            assert(s[j + 1 + k] == q[i + 1 + k]);
        }
        assert(starts_element(s, name, j));
    } else {
        assert forall|k: int| 0 <= k < name.len() implies lower_char(s[j + 2 + k])
            == #[trigger] name[k] by {
            assert(s[j + 2 + k] == q[i + 2 + k]);
        }
        assert(ends_element(s, name, j));
    }
}

/// Texts with tags among the same names have, together, tags among them.
pub proof fn lemma_tags_concat(p: Seq<char>, q: Seq<char>, names: Seq<Seq<char>>)
    requires
        tags_among(p, names),
        tags_among(q, names),
    ensures
        tags_among(p + q, names),
{
    let s = p + q;
    assert forall|i: int| 0 <= i < s.len() && #[trigger] s[i] == '<' implies is_tag_among(
        s,
        names,
        i,
    ) by {
        if i < p.len() {
            assert(p[i] == '<');
            let k = choose|k: int| 0 <= k < names.len() && tag_at(p, #[trigger] names[k], i);
            lemma_tag_before(p, q, names[k], i);
        } else {
            let j = i - p.len();
            assert(q[j] == '<');
            let k = choose|k: int| 0 <= k < names.len() && tag_at(q, #[trigger] names[k], j);
            lemma_tag_behind(p, q, names[k], j);
        }
    }
}

/// An opening tag is a tag with its name.
pub proof fn lemma_start_tag_among(
    name: Seq<char>,
    attributes: Seq<char>,
    names: Seq<Seq<char>>,
    k: int,
)
    requires
        is_name(name),
        are_attributes(attributes),
        0 <= k < names.len(),
        names[k] == name,
    ensures
        tags_among(start_tag(name, attributes), names),
{
    let s = start_tag(name, attributes);
    lemma_name_chars(name);
    assert forall|i: int| 0 <= i < s.len() && #[trigger] s[i] == '<' implies is_tag_among(
        s,
        names,
        i,
    ) by {
        if i == 0 {
            assert forall|j: int| 0 <= j < name.len() implies lower_char(s[1 + j])
                == #[trigger] name[j] by {
                assert(s[1 + j] == name[j]);
                assert(ascii_lower(name)[j] == name[j]);
            }
            if attributes.len() > 0 {
                assert(s[1 + name.len() as int] == attributes[0]);
            } else {
                assert(s[1 + name.len() as int] == '>');
            }
            assert(starts_element(s, names[k], 0));
            assert(tag_at(s, names[k], 0));
        } else if i <= name.len() {
            assert(s[i] == name[i - 1]);
        } else if i < s.len() - 1 {
            assert(s[i] == attributes[i - 1 - name.len()]);
        }
    }
}

/// A closing tag is a tag with its name.
pub proof fn lemma_end_tag_among(name: Seq<char>, names: Seq<Seq<char>>, k: int)
    requires
        is_name(name),
        0 <= k < names.len(),
        names[k] == name,
    ensures
        tags_among(end_tag(name), names),
{
    let s = end_tag(name);
    lemma_name_chars(name);
    assert forall|i: int| 0 <= i < s.len() && #[trigger] s[i] == '<' implies is_tag_among(
        s,
        names,
        i,
    ) by {
        if i == 0 {
            assert forall|j: int| 0 <= j < name.len() implies lower_char(s[2 + j])
                == #[trigger] name[j] by {
                assert(s[2 + j] == name[j]);
                assert(ascii_lower(name)[j] == name[j]);
            }
            assert(s[2 + name.len() as int] == '>');
            assert(ends_element(s, names[k], 0));
            assert(tag_at(s, names[k], 0));
        } else if 2 <= i < s.len() - 1 {
            assert(s[i] == name[i - 2]);
        }
    }
}

/// An element with text holds its own tags and no others.
pub proof fn lemma_element_among(name: Seq<char>, attributes: Seq<char>, inner: Seq<char>)
    requires
        is_name(name),
        are_attributes(attributes),
        lacks(inner, '<'),
    ensures
        tags_among(element_document(name, attributes, inner), seq![name]),
{
    let names = seq![name];
    let none = Seq::<char>::empty();
    lemma_start_tag_among(name, attributes, names, 0);
    lemma_end_tag_among(name, names, 0);
    lemma_tags_concat(none, start_tag(name, attributes), names);
    lemma_tags_concat(none + start_tag(name, attributes), inner, names);
    lemma_tags_concat(none + start_tag(name, attributes) + inner, end_tag(name), names);
    lemma_tags_concat(
        none + start_tag(name, attributes) + inner + end_tag(name),
        none,
        names,
    );
}

/// A tag of another name than those in a document is not found in it.
pub proof fn lemma_no_other_opening(s: Seq<char>, names: Seq<Seq<char>>, tag: Seq<char>)
    requires
        tags_among(s, names),
        are_other_names(names, tag),
        is_name(tag),
    ensures
        named_tag(s, tag, false, 0) is None,
{
    let needle = opening_needle(tag);
    lemma_is_needle(tag);
    assert forall|i: int| 0 <= i < s.len() implies !tag_stands(ascii_lower(s), needle, i) by {
        if s[i] == '<' {
            let k = choose|k: int| 0 <= k < names.len() && tag_at(s, #[trigger] names[k], i);
            assert(is_name(names[k]));
            if starts_element(s, names[k], i) {
                lemma_other_tag_at(s, names[k], tag, i);
            } else {
                lemma_closing_is_not_opening(s, names[k], tag, i);
            }
        } else {
            lemma_no_tag_at(s, needle, i);
        }
    }
    lemma_tag_bounds_skips(ascii_lower(s), needle, 0, s.len() as int);
}

proof fn lemma_other_closing_at(s: Seq<char>, name: Seq<char>, tag: Seq<char>, i: int)
    requires
        tag_at(s, name, i),
        is_name(name),
        is_name(tag),
        name != tag,
    ensures
        !tag_stands(ascii_lower(s), closing_needle(tag), i),
{
    let lower = ascii_lower(s);
    let needle = closing_needle(tag);
    if tag_stands(lower, needle, i) {
        let found = lower.subrange(i, i + needle.len());
        assert(found[1] == needle[1]);
        assert(lower[i + 1] == '/');
        if starts_element(s, name, i) {
            assert(lower_char(s[i + 1 + 0]) == name[0]);
        } else {
            assert forall|k: int| 0 <= k < tag.len() implies lower[i + 2 + k]
                == #[trigger] tag[k] by {
                assert(found[k + 2] == needle[k + 2]);
            }
            if tag.len() < name.len() {
                assert(lower[i + 2 + tag.len()] == name[tag.len() as int]);
                assert(char_at(lower, i + needle.len()) == Some(name[tag.len() as int]));
            } else if tag.len() > name.len() {
                assert(lower[i + 2 + name.len()] == tag[name.len() as int]);
            } else {
                assert forall|k: int| 0 <= k < tag.len() implies name[k] == tag[k] by {
                    assert(lower[i + 2 + k] == tag[k]);
                }
                assert(name =~= tag);
            }
        }
    }
}

/// A closing tag of another name than those in a document is not found in it.
pub proof fn lemma_no_other_closing(s: Seq<char>, names: Seq<Seq<char>>, tag: Seq<char>)
    requires
        tags_among(s, names),
        are_other_names(names, tag),
        is_name(tag),
    ensures
        named_tag(s, tag, true, 0) is None,
{
    let needle = closing_needle(tag);
    lemma_is_needle(tag);
    assert forall|i: int| 0 <= i < s.len() implies !tag_stands(ascii_lower(s), needle, i) by {
        if s[i] == '<' {
            let k = choose|k: int| 0 <= k < names.len() && tag_at(s, #[trigger] names[k], i);
            assert(is_name(names[k]));
            lemma_other_closing_at(s, names[k], tag, i);
        } else {
            lemma_no_tag_at(s, needle, i);
        }
    }
    lemma_tag_bounds_skips(ascii_lower(s), needle, 0, s.len() as int);
}

proof fn lemma_all_kept(s: Seq<char>, names: Seq<Seq<char>>, tags: Seq<Seq<char>>)
    requires
        tags_among(s, names),
        forall|k: int|
            0 <= k < tags.len() ==> is_name(#[trigger] tags[k]) && are_other_names(names, tags[k]),
    ensures
        without_all(s, tags) == s,
    decreases tags.len(),
{
    if tags.len() > 0 {
        lemma_all_kept(s, names, tags.drop_last());
        assert(is_name(tags[tags.len() - 1]));
        lemma_no_other_opening(s, names, tags.last());
        assert(rest(s, 0) =~= s);
    }
}

/// Nothing is removed from a document without comments and without elements that
/// hold no readable content.
pub proof fn lemma_kept(s: Seq<char>, names: Seq<Seq<char>>)
    requires
        tags_among(s, names),
        forall|k: int|
            0 <= k < names.len() ==> is_name(#[trigger] names[k]) && !ignored_tags().contains(
                names[k],
            ),
    ensures
        ignored_stripped(s) == s,
{
    let open = "<!--"@;
    reveal_strlit("<!--");
    lemma_find_from(s, open, 0);
    if let Some(start) = find_from(s, open, 0) {
        assert(s.subrange(start, start + 4)[0] == '<');
        assert(s.subrange(start, start + 4)[1] == '!');
        assert(s[start] == '<');
        let k = choose|k: int| 0 <= k < names.len() && tag_at(s, #[trigger] names[k], start);
        assert(is_name(names[k]));
        if starts_element(s, names[k], start) {
            assert(lower_char(s[start + 1 + 0]) == names[k][0]);
        }
    }
    assert(rest(s, 0) =~= s);
    lemma_ignored_names();
    assert forall|k: int| 0 <= k < ignored_tags().len() implies is_name(
        #[trigger] ignored_tags()[k],
    ) && are_other_names(names, ignored_tags()[k]) by {
        assert forall|j: int| 0 <= j < names.len() implies is_name(#[trigger] names[j])
            && names[j] != ignored_tags()[k] by {
            assert(!ignored_tags().contains(names[j]));
        }
    }
    lemma_all_kept(s, names, ignored_tags());
}

/// The text of a line without markup is the line.
pub proof fn plain_line_is_its_text(line: Seq<char>)
    requires
        is_plain_line(line),
    ensures
        inline_text(line) == line,
{
    text_without_brackets_is_kept(line);
    text_without_references_is_kept(line);
    lemma_plain_lines(0, seq![line], 0);
    assert(line_feeds(0) + line + line_feeds(0) =~= line);
}

proof fn lemma_plain_lines(before: nat, lines: Seq<Seq<char>>, after: nat)
    requires
        before <= 1,
        after <= 2,
        lines.len() > 0,
        forall|i: int| 0 <= i < lines.len() ==> is_plain_line(#[trigger] lines[i]),
    ensures
        normalized(line_feeds(before) + joined(lines) + line_feeds(after)) == joined(lines),
{
    assert(is_plain_line(lines[0]));
    assert(is_plain_line(lines[lines.len() - 1]));
    assert forall|i: int| 0 <= i < lines.len() implies is_clean_line(#[trigger] lines[i]) by {
        assert(is_plain_line(lines[i]));
    }
    assert forall|i: int| 0 < i < lines.len() && (#[trigger] lines[i]).len() == 0 implies lines[i
        - 1].len() > 0 by {
        assert(is_plain_line(lines[i]));
    }
    clean_lines_are_kept(before, lines, after);
}

/// What is left of a document in which no tag is left any more.
pub proof fn lemma_finished(s: Seq<char>)
    requires
        lacks(s, '<'),
    ensures
        blocks_replaced(s, seq![], 0) == s,
{
    lemma_next_tag(s, 0);
    assert(rest(s, 0) =~= s);
}

/// The names of inline elements.
pub proof fn lemma_inline_names()
    ensures
        is_name("pre"@),
        is_name("code"@),
        is_name("a"@),
        "pre"@ != "code"@,
        "pre"@ != "a"@,
        "code"@ != "a"@,
        !ignored_tags().contains("pre"@),
        !ignored_tags().contains("code"@),
        !ignored_tags().contains("a"@),
{
    reveal_strlit("pre");
    reveal_strlit("code");
    reveal_strlit("a");
    reveal_strlit("script");
    reveal_strlit("style");
    reveal_strlit("nav");
    reveal_strlit("header");
    reveal_strlit("footer");
    reveal_strlit("noscript");
    reveal_strlit("svg");
    reveal_strlit("iframe");
    reveal_strlit("form");
    reveal_strlit("aside");
    assert forall|k: int| 0 <= k < ignored_tags().len() implies #[trigger] ignored_tags()[k]
        != "code"@ && ignored_tags()[k] != "a"@ && ignored_tags()[k] != "pre"@ by {
        assert(ignored_tags()[k].len() > 1);
        assert(ignored_tags()[k][0] != 'c' && ignored_tags()[k][0] != 'p');
    }
}

proof fn lemma_code_line(inner: Seq<char>, format: OutputFormat)
    requires
        is_plain_line(inner),
    ensures
        is_plain_line(inline_code(inner, format)),
        inline_code(inner, format) == (match format {
            OutputFormat::Markdown => "`"@ + inner + "`"@,
            OutputFormat::Text => inner,
        }),
{
    let line = inline_code(inner, format);
    plain_line_is_its_text(inner);
    reveal_strlit("`");
    assert forall|i: int| 0 <= i < line.len() && white_space(#[trigger] line[i]) implies line[i]
        == ' ' && (i > 0 ==> !white_space(line[i - 1])) by {
        if format == OutputFormat::Markdown && 0 < i <= inner.len() {
            assert(line[i] == inner[i - 1]);
        }
    }
}

/// What a line of code is extracted as: in Markdown in backticks, else by itself.
#[verifier::rlimit(30)]
pub proof fn code_is_extracted(inner: Seq<char>, format: OutputFormat)
    requires
        is_plain_line(inner),
    ensures
        content_of(element_document("code"@, seq![], inner), format) == (match format {
            OutputFormat::Markdown => "`"@ + inner + "`"@,
            OutputFormat::Text => inner,
        }),
{
    let s = element_document("code"@, seq![], inner);
    let render = |text: Seq<char>| inline_code(text, format);
    let line = inline_code(inner, format);
    lemma_inline_names();
    lemma_name_chars("code"@);
    lemma_element_among("code"@, seq![], inner);
    lemma_kept(s, seq!["code"@]);
    lemma_no_other_opening(s, seq!["code"@], "pre"@);
    assert(rest(s, 0) =~= s);
    element_is_rendered(seq![], "code"@, seq![], inner, "code"@, seq![], render);
    lemma_code_line(inner, format);
    let none = Seq::<char>::empty();
    lemma_empty_rest(format);
    let found = paired_replaced(none, "code"@, render, 0);
    assert(none + line + found =~= line);
    lemma_line_finished(line, format);
}

/// Nothing is made of nothing.
pub proof fn lemma_empty_rest(format: OutputFormat)
    ensures
        forall|tag: Seq<char>, render: spec_fn(Seq<char>) -> Seq<char>| #[trigger]
            paired_replaced(seq![], tag, render, 0) == Seq::<char>::empty(),
        links_converted(seq![], format, 0) == Seq::<char>::empty(),
        forall|level: nat| #[trigger] heading_replaced(seq![], level, format)
            == Seq::<char>::empty(),
{
    let none = Seq::<char>::empty();
    assert(rest(none, 0) =~= none);
}

/// A line without markup goes through the passes after links as it is.
proof fn lemma_line_finished(line: Seq<char>, format: OutputFormat)
    requires
        is_plain_line(line),
    ensures
        links_converted(line, format, 0) == line,
        inline_text(blocks_replaced(headings_replaced(line, 6, format), seq![], 0)) == line,
{
    lemma_named_tag(line, "a"@, false, 0);
    assert(rest(line, 0) =~= line);
    lemma_no_headings(line, 6, format);
    lemma_finished(line);
    plain_line_is_its_text(line);
}

/// The attribute of a target without brackets is one that a tag can have.
pub proof fn lemma_target_attribute(target: Seq<char>, quote: char)
    requires
        quote == '"' || quote == '\'',
        lacks(target, '<'),
        lacks(target, '>'),
    ensures
        are_attributes(target_attribute(target, quote)),
{
    let attributes = target_attribute(target, quote);
    assert forall|i: int| 0 <= i < attributes.len() implies #[trigger] attributes[i] != '<'
        && attributes[i] != '>' by {
        if 7 <= i < attributes.len() - 1 {
            assert(attributes[i] == target[i - 7]);
        }
    }
}

proof fn lemma_link_line(target: Seq<char>, inner: Seq<char>, format: OutputFormat)
    requires
        is_plain_line(target),
        is_plain_line(inner),
    ensures
        is_plain_line(link_text(inner, Some(target), format)),
{
    let line = link_text(inner, Some(target), format);
    reveal_strlit("[");
    reveal_strlit("](");
    reveal_strlit(")");
    assert forall|i: int| 0 <= i < line.len() implies #[trigger] line[i] != '<' && line[i] != '>'
        && line[i] != '&' && (white_space(line[i]) ==> line[i] == ' ' && (i > 0 ==> !white_space(
        line[i - 1],
    ))) by {
        if format == OutputFormat::Markdown {
            if 0 < i <= inner.len() {
                assert(line[i] == inner[i - 1]);
            } else if inner.len() + 3 <= i < line.len() - 1 {
                assert(line[i] == target[i - inner.len() - 3]);
            }
        }
    }
}

/// What a link is extracted as: in Markdown its text and its target, else its
/// text.
#[verifier::rlimit(30)]
pub proof fn link_is_extracted(
    target: Seq<char>,
    quote: char,
    inner: Seq<char>,
    format: OutputFormat,
)
    requires
        quote == '"' || quote == '\'',
        lacks(target, quote),
        is_plain_line(target),
        is_plain_line(inner),
    ensures
        content_of(
            element_document("a"@, target_attribute(target, quote), inner),
            format,
        ) == (match format {
            OutputFormat::Markdown => "["@ + inner + "]("@ + target + ")"@,
            OutputFormat::Text => inner,
        }),
{
    let attributes = target_attribute(target, quote);
    let s = element_document("a"@, attributes, inner);
    lemma_target_attribute(target, quote);
    lemma_inline_names();
    lemma_name_chars("a"@);
    lemma_element_among("a"@, attributes, inner);
    lemma_kept(s, seq!["a"@]);
    lemma_no_other_opening(s, seq!["a"@], "pre"@);
    lemma_no_other_opening(s, seq!["a"@], "code"@);
    assert(rest(s, 0) =~= s);
    quoted_target_is_read(target, quote);
    link_is_rendered(seq![], "a"@, attributes, inner, "a"@, seq![], format);
    plain_line_is_its_text(inner);
    let line = link_text(inner, Some(target), format);
    lemma_link_line(target, inner, format);
    let none = Seq::<char>::empty();
    lemma_empty_rest(format);
    assert(none + line + links_converted(none, format, 0) =~= line);
    lemma_line_finished(line, format);
}

/// The tags of headings differ from each other and from those of other elements.
pub proof fn lemma_heading_names(level: nat, other: nat)
    ensures
        is_name(heading_tag(level)),
        heading_tag(level) != "pre"@,
        heading_tag(level) != "code"@,
        heading_tag(level) != "a"@,
        !ignored_tags().contains(heading_tag(level)),
        heading_tag(level) == heading_tag(other) ==> level == other,
{
    let tag = heading_tag(level);
    lemma_heading_tag(level);
    reveal_strlit("h");
    decimal_holds_only_digits(level);
    assert(tag[0] == 'h');
    assert(tag[1] == decimal(level)[0]);
    reveal_strlit("pre");
    reveal_strlit("code");
    reveal_strlit("a");
    assert("pre"@[0] != tag[0] && "code"@[0] != tag[0]);
    reveal_strlit("script");
    reveal_strlit("style");
    reveal_strlit("nav");
    reveal_strlit("header");
    reveal_strlit("footer");
    reveal_strlit("noscript");
    reveal_strlit("svg");
    reveal_strlit("iframe");
    reveal_strlit("form");
    reveal_strlit("aside");
    assert forall|k: int| 0 <= k < ignored_tags().len() implies #[trigger] ignored_tags()[k]
        != tag by {
        assert(ignored_tags()[k][1] >= 'a');
    }
    if tag == heading_tag(other) {
        assert(rest(tag, 1) =~= decimal(level));
        assert(rest(heading_tag(other), 1) =~= decimal(other));
        let max = level + other;
        decimal_is_readable(level, max);
        decimal_is_readable(other, max);
    }
}

/// The headings of other levels leave a heading as it is; from its own level on
/// it is rendered.
pub proof fn lemma_headings(level: nat, inner: Seq<char>, levels: nat, format: OutputFormat)
    requires
        lacks(inner, '<'),
    ensures
        headings_replaced(
            element_document(heading_tag(level), seq![], inner),
            levels,
            format,
        ) == (if 1 <= level <= levels {
            heading_prefix(level, format) + inner + "\n\n"@
        } else {
            element_document(heading_tag(level), seq![], inner)
        }),
    decreases levels,
{
    let tag = heading_tag(level);
    let s = element_document(tag, seq![], inner);
    if levels > 0 {
        let other = heading_tag(levels);
        lemma_headings(level, inner, (levels - 1) as nat, format);
        lemma_heading_names(level, levels);
        lemma_heading_names(levels, level);
        if 1 <= level < levels {
            let r = heading_prefix(level, format) + inner + "\n\n"@;
            reveal_strlit("\n");
            reveal_strlit(" ");
            reveal_strlit("\n\n");
            assert(lacks(r, '<'));
            lemma_named_tag(r, other, false, 0);
            lemma_named_tag(r, other, true, 0);
            assert(rest(r, 0) =~= r);
        } else if level == levels {
            lemma_name_chars(tag);
            lemma_empty_rest(format);
            heading_is_rendered(seq![], tag, seq![], inner, tag, seq![], level, format);
            assert(heading_replaced(s, level, format) =~= heading_prefix(level, format) + inner
                + "\n\n"@);
        } else {
            lemma_element_among(tag, seq![], inner);
            lemma_no_other_opening(s, seq![tag], other);
            lemma_no_other_closing(s, seq![tag], other);
            assert(rest(s, 0) =~= s);
        }
    }
}

/// What a heading is extracted as: in Markdown with as many number signs as its
/// level before it, else by itself.
#[verifier::rlimit(30)]
pub proof fn heading_is_extracted(level: nat, inner: Seq<char>, format: OutputFormat)
    requires
        1 <= level <= 6,
        is_plain_line(inner),
    ensures
        content_of(element_document(heading_tag(level), seq![], inner), format) == (match format {
            OutputFormat::Markdown => Seq::new(level, |i: int| '#') + " "@ + inner,
            OutputFormat::Text => inner,
        }),
{
    let tag = heading_tag(level);
    let s = element_document(tag, seq![], inner);
    let line = heading_line(level, inner, format);
    lemma_heading_names(level, level);
    lemma_inline_names();
    lemma_element_among(tag, seq![], inner);
    lemma_kept(s, seq![tag]);
    lemma_no_other_opening(s, seq![tag], "pre"@);
    lemma_no_other_opening(s, seq![tag], "code"@);
    lemma_no_other_opening(s, seq![tag], "a"@);
    assert(rest(s, 0) =~= s);
    lemma_headings(level, inner, 6, format);
    lemma_heading_line(level, inner, format);
    lemma_lines_finished(1, seq![line], 2);
}

/// The line that a heading becomes.
spec fn heading_line(level: nat, inner: Seq<char>, format: OutputFormat) -> Seq<char> {
    match format {
        OutputFormat::Markdown => Seq::new(level, |i: int| '#') + " "@ + inner,
        OutputFormat::Text => inner,
    }
}

proof fn lemma_heading_line(level: nat, inner: Seq<char>, format: OutputFormat)
    requires
        level > 0,
        is_plain_line(inner),
    ensures
        is_plain_line(heading_line(level, inner, format)),
        heading_prefix(level, format) + inner + "\n\n"@ == line_feeds(1) + joined(
            seq![heading_line(level, inner, format)],
        ) + line_feeds(2),
{
    let line = heading_line(level, inner, format);
    reveal_strlit("\n");
    reveal_strlit(" ");
    reveal_strlit("\n\n");
    assert forall|i: int| 0 <= i < line.len() implies #[trigger] line[i] != '<' && line[i] != '>'
        && line[i] != '&' && (white_space(line[i]) ==> line[i] == ' ' && (i > 0 ==> !white_space(
        line[i - 1],
    ))) by {
        if format == OutputFormat::Markdown && i > level {
            assert(line[i] == inner[i - level - 1]);
        }
    }
    assert(line.last() == inner.last());
    assert(heading_prefix(level, format) + inner + "\n\n"@ =~= line_feeds(1) + line + line_feeds(
        2,
    ));
}

/// Lines without markup come out as they are, without the line feeds around
/// them.
pub proof fn lemma_lines_finished(before: nat, lines: Seq<Seq<char>>, after: nat)
    requires
        before <= 1,
        after <= 2,
        lines.len() > 0,
        forall|i: int| 0 <= i < lines.len() ==> is_plain_line(#[trigger] lines[i]),
    ensures
        ({
            let text = line_feeds(before) + joined(lines) + line_feeds(after);
            &&& lacks(text, '<')
            &&& inline_text(blocks_replaced(text, seq![], 0)) == joined(lines)
            &&& inline_text(text) == joined(lines)
        }),
{
    let text = line_feeds(before) + joined(lines) + line_feeds(after);
    lemma_plain_joined(lines);
    assert forall|i: int| 0 <= i < text.len() implies #[trigger] text[i] != '<' && text[i] != '>'
        && text[i] != '&' by {
        if before <= i < before + joined(lines).len() {
            assert(text[i] == joined(lines)[i - before]);
        }
    }
    lemma_finished(text);
    text_without_brackets_is_kept(text);
    text_without_references_is_kept(text);
    lemma_plain_lines(before, lines, after);
}

/// Lines without markup hold none together.
proof fn lemma_plain_joined(lines: Seq<Seq<char>>)
    requires
        forall|i: int| 0 <= i < lines.len() ==> is_plain_line(#[trigger] lines[i]),
    ensures
        lacks(joined(lines), '<'),
        lacks(joined(lines), '>'),
        lacks(joined(lines), '&'),
    decreases lines.len(),
{
    if lines.len() > 0 {
        let head = joined(lines.drop_last());
        lemma_plain_joined(lines.drop_last());
        assert(is_plain_line(lines[lines.len() - 1]));
        if lines.len() > 1 {
            assert forall|i: int| 0 <= i < joined(lines).len() implies #[trigger] joined(lines)[i]
                != '<' && joined(lines)[i] != '>' && joined(lines)[i] != '&' by {
                if i < head.len() {
                    assert(joined(lines)[i] == head[i]);
                } else if i > head.len() {
                    assert(joined(lines)[i] == lines.last()[i - head.len() - 1]);
                }
            }
        }
    }
}

/// What a preformatted line is extracted as: in Markdown as a fenced block, else
/// by itself.
#[verifier::rlimit(30)]
pub proof fn preformatted_line_is_extracted(inner: Seq<char>, format: OutputFormat)
    requires
        is_plain_line(inner),
    ensures
        content_of(element_document("pre"@, seq![], inner), format) == (match format {
            OutputFormat::Markdown => "```\n"@ + inner + "\n```"@,
            OutputFormat::Text => inner,
        }),
{
    let s = element_document("pre"@, seq![], inner);
    let render = |text: Seq<char>| preformatted(text, format);
    let r = preformatted(inner, format);
    let lines: Seq<Seq<char>> = match format {
        OutputFormat::Markdown => seq!["```"@, inner, "```"@],
        OutputFormat::Text => seq![inner],
    };
    lemma_inline_names();
    lemma_name_chars("pre"@);
    lemma_element_among("pre"@, seq![], inner);
    lemma_kept(s, seq!["pre"@]);
    element_is_rendered(seq![], "pre"@, seq![], inner, "pre"@, seq![], render);
    lemma_empty_rest(format);
    let none = Seq::<char>::empty();
    assert(none + r + paired_replaced(none, "pre"@, render, 0) =~= r);
    plain_line_is_its_text(inner);
    lemma_fenced(inner, format, lines);
    lemma_lines_finished(1, lines, 1);
    lemma_named_tag(r, "code"@, false, 0);
    lemma_named_tag(r, "a"@, false, 0);
    assert(rest(r, 0) =~= r);
    lemma_no_headings(r, 6, format);
}

proof fn lemma_fenced(inner: Seq<char>, format: OutputFormat, lines: Seq<Seq<char>>)
    requires
        is_plain_line(inner),
        inline_text(inner) == inner,
        lines == (match format {
            OutputFormat::Markdown => seq!["```"@, inner, "```"@],
            OutputFormat::Text => seq![inner],
        }),
    ensures
        forall|i: int| 0 <= i < lines.len() ==> is_plain_line(#[trigger] lines[i]),
        preformatted(inner, format) == line_feeds(1) + joined(lines) + line_feeds(1),
        joined(lines) == (match format {
            OutputFormat::Markdown => "```\n"@ + inner + "\n```"@,
            OutputFormat::Text => inner,
        }),
{
    reveal_strlit("\n");
    if format == OutputFormat::Markdown {
        lemma_fence();
        lemma_fence_joined(inner);
        let text = "```\n"@ + inner + "\n```"@;
        assert(preformatted(inner, format) =~= line_feeds(1) + text + line_feeds(1)) by {
            reveal_strlit("```\n");
            reveal_strlit("\n```");
            reveal_strlit("\n```\n");
        }
    } else {
        assert(preformatted(inner, format) =~= line_feeds(1) + inner + line_feeds(1));
    }
}

/// A fence is a line without markup.
proof fn lemma_fence()
    ensures
        is_plain_line("```"@),
{
    reveal_strlit("```");
}

proof fn lemma_fence_joined(inner: Seq<char>)
    ensures
        joined(seq!["```"@, inner, "```"@]) == "```\n"@ + inner + "\n```"@,
{
    let fence = "```"@;
    let lines = seq![fence, inner, fence];
    reveal_strlit("```");
    reveal_strlit("```\n");
    reveal_strlit("\n```");
    assert(lines.drop_last() =~= seq![fence, inner]);
    assert(lines.drop_last().drop_last() =~= seq![fence]);
    assert(joined(seq![fence]) == fence);
    assert(joined(seq![fence, inner]) == fence.push('\n') + inner);
    assert(joined(lines) =~= "```\n"@ + inner + "\n```"@);
}

/// The lines that the items of a list become.
pub open spec fn list_lines(ordered: bool, items: Seq<Seq<char>>, first: nat) -> Seq<Seq<char>> {
    Seq::new(
        items.len(),
        |i: int|
            (if ordered {
                decimal((first + i) as nat) + ". "@
            } else {
                "- "@
            }) + items[i],
    )
}

proof fn lemma_list_line(ordered: bool, items: Seq<Seq<char>>, first: nat, i: int)
    requires
        0 <= i < items.len(),
        is_plain_line(items[i]),
    ensures
        is_plain_line(list_lines(ordered, items, first)[i]),
{
    let line = list_lines(ordered, items, first)[i];
    let item = items[i];
    let digits = decimal((first + i) as nat);
    let marker = if ordered {
        digits + ". "@
    } else {
        "- "@
    };
    reveal_strlit(". ");
    reveal_strlit("- ");
    decimal_holds_only_digits((first + i) as nat);
    assert forall|k: int| 0 <= k < line.len() implies #[trigger] line[k] != '<' && line[k] != '>'
        && line[k] != '&' && (white_space(line[k]) ==> line[k] == ' ' && (k > 0 ==> !white_space(
        line[k - 1],
    ))) by {
        if k < marker.len() {
            assert(line[k] == marker[k]);
            if ordered && k < digits.len() {
                assert(line[k] == digits[k]);
            }
        } else {
            assert(line[k] == item[k - marker.len()]);
        }
    }
    assert(line.last() == item.last());
    assert(line[0] == marker[0]);
    if ordered {
        assert(marker[0] == digits[0]);
    }
}

proof fn lemma_item_lines(ordered: bool, items: Seq<Seq<char>>, first: nat)
    requires
        items.len() > 0,
    ensures
        item_lines(ordered, items, first) == joined(list_lines(ordered, items, first)).push('\n'),
    decreases items.len(),
{
    let lines = list_lines(ordered, items, first);
    reveal_strlit("\n");
    if items.len() == 1 {
        let none = items.subrange(1, 1);
        assert(item_lines(ordered, none, first + 1) =~= Seq::<char>::empty());
        assert(item_lines(ordered, items, first) =~= joined(lines).push('\n'));
    } else {
        let tail = items.subrange(1, items.len() as int);
        lemma_item_lines(ordered, tail, first + 1);
        lemma_joined_front(lines);
        assert(lines.subrange(1, lines.len() as int) =~= list_lines(ordered, tail, first + 1));
        assert(item_lines(ordered, items, first) =~= joined(lines).push('\n'));
    }
}

/// Items of a list hold their own tags and no others.
proof fn lemma_items_among(items: Seq<Seq<char>>, names: Seq<Seq<char>>, k: int)
    requires
        0 <= k < names.len(),
        names[k] == "li"@,
        forall|i: int| 0 <= i < items.len() ==> lacks(#[trigger] items[i], '<'),
    ensures
        tags_among(list_items(items), names),
    decreases items.len(),
{
    if items.len() > 0 {
        let tail = items.subrange(1, items.len() as int);
        let open = start_tag("li"@, seq![]);
        assert forall|i: int| 0 <= i < tail.len() implies lacks(#[trigger] tail[i], '<') by {
            assert(lacks(items[i + 1], '<'));
        }
        lemma_items_among(tail, names, k);
        lemma_list_names();
        lemma_start_tag_among("li"@, seq![], names, k);
        lemma_end_tag_among("li"@, names, k);
        assert(lacks(items[0], '<'));
        lemma_tags_concat(open, items[0], names);
        lemma_tags_concat(open + items[0], end_tag("li"@), names);
        lemma_tags_concat(open + items[0] + end_tag("li"@), list_items(tail), names);
    }
}

proof fn lemma_list_among(ordered: bool, items: Seq<Seq<char>>)
    requires
        forall|i: int| 0 <= i < items.len() ==> lacks(#[trigger] items[i], '<'),
    ensures
        tags_among(list_document(ordered, items), seq![list_name(ordered), "li"@]),
{
    let names = seq![list_name(ordered), "li"@];
    let open = start_tag(list_name(ordered), seq![]);
    lemma_list_names();
    lemma_items_among(items, names, 1);
    lemma_start_tag_among(list_name(ordered), seq![], names, 0);
    lemma_end_tag_among(list_name(ordered), names, 0);
    lemma_tags_concat(open, list_items(items), names);
    lemma_tags_concat(open + list_items(items), end_tag(list_name(ordered)), names);
}

proof fn lemma_list_name(name: Seq<char>, level: nat)
    requires
        name == "li"@ || name == "ol"@ || name == "ul"@,
    ensures
        is_name(name),
        name != "pre"@,
        name != "code"@,
        name != "a"@,
        name != heading_tag(level),
        !ignored_tags().contains(name),
{
    lemma_list_names();
    reveal_strlit("li");
    reveal_strlit("ol");
    reveal_strlit("ul");
    reveal_strlit("h");
    reveal_strlit("pre");
    reveal_strlit("code");
    reveal_strlit("a");
    reveal_strlit("script");
    reveal_strlit("style");
    reveal_strlit("nav");
    reveal_strlit("header");
    reveal_strlit("footer");
    reveal_strlit("noscript");
    reveal_strlit("svg");
    reveal_strlit("iframe");
    reveal_strlit("form");
    reveal_strlit("aside");
    assert(heading_tag(level)[0] == 'h');
    assert(name[0] != 'h');
    assert forall|k: int| 0 <= k < ignored_tags().len() implies #[trigger] ignored_tags()[k]
        != name by {
        assert(ignored_tags()[k].len() > 2);
    }
}

proof fn lemma_list_headings(
    s: Seq<char>,
    names: Seq<Seq<char>>,
    levels: nat,
    format: OutputFormat,
)
    requires
        tags_among(s, names),
        forall|level: nat| #[trigger] are_other_names(names, heading_tag(level)),
    ensures
        headings_replaced(s, levels, format) == s,
    decreases levels,
{
    if levels > 0 {
        let tag = heading_tag(levels);
        lemma_list_headings(s, names, (levels - 1) as nat, format);
        lemma_heading_tag(levels);
        assert(are_other_names(names, tag));
        lemma_no_other_opening(s, names, tag);
        lemma_no_other_closing(s, names, tag);
        assert(rest(s, 0) =~= s);
    }
}

/// What a list is extracted as, in either format: one line for each item, with
/// its number in an ordered list and with a dash in an unordered one.
#[verifier::rlimit(30)]
pub proof fn list_is_extracted(ordered: bool, items: Seq<Seq<char>>, format: OutputFormat)
    requires
        0 < items.len() < usize::MAX,
        forall|i: int| 0 <= i < items.len() ==> is_plain_line(#[trigger] items[i]),
    ensures
        content_of(list_document(ordered, items), format) == joined(
            list_lines(ordered, items, 1),
        ),
{
    let s = list_document(ordered, items);
    let name = list_name(ordered);
    let names = seq![name, "li"@];
    let lines = list_lines(ordered, items, 1);
    let none = Seq::<char>::empty();
    assert forall|i: int| 0 <= i < items.len() implies lacks(#[trigger] items[i], '<') by {
        assert(is_plain_line(items[i]));
    }
    lemma_list_among(ordered, items);
    lemma_list_name(name, 1);
    lemma_list_name("li"@, 1);
    lemma_inline_names();
    lemma_kept(s, names);
    lemma_no_other_opening(s, names, "pre"@);
    lemma_no_other_opening(s, names, "code"@);
    lemma_no_other_opening(s, names, "a"@);
    assert(rest(s, 0) =~= s);
    assert forall|level: nat| #[trigger] are_other_names(names, heading_tag(level)) by {
        lemma_list_name(name, level);
        lemma_list_name("li"@, level);
    }
    lemma_list_headings(s, names, 6, format);
    list_is_rendered(ordered, items, none, seq![]);
    lemma_finished(none);
    assert(s + none =~= s);
    lemma_item_lines(ordered, items, 1);
    assert forall|i: int| 0 <= i < lines.len() implies is_plain_line(#[trigger] lines[i]) by {
        assert(is_plain_line(items[i]));
        lemma_list_line(ordered, items, 1, i);
    }
    lemma_lines_finished(0, lines, 1);
    assert(item_lines(ordered, items, 1) + none =~= line_feeds(0) + joined(lines) + line_feeds(1));
}

} // verus!
