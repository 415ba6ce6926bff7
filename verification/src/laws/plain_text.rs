//! Laws of documents without tags: what becomes of plain text and of character
//! references.

use vstd::prelude::*;

use crate::entities::{entities_decoded, entity_char, entity_text, numeric_entity};
use crate::format::OutputFormat;
use crate::html::{
    content_of, heading_prefix, heading_tag, headings_replaced, ignored_stripped, ignored_tags,
    inline_code, inline_text, inside_tag, link_text, may_replace, preformatted, rendered,
    tags_stripped, without_all, without_comments,
};
use crate::laws::encodings::{decimal_holds_only_digits, decimal_is_readable};
use crate::laws::search::{lacks, lemma_find_char_behind};
use crate::normalize::normalized;
use crate::tags::{lemma_named_tag, lemma_next_tag};
use crate::text::{
    decimal, find_char, find_from, has_prefix, lemma_find_char, lemma_find_from, rest,
};

verus! {

/// What is left when tags are stripped holds no angle bracket.
pub proof fn stripped_text_has_no_brackets(s: Seq<char>)
    ensures
        lacks(tags_stripped(s), '<'),
        lacks(tags_stripped(s), '>'),
    decreases s.len(),
{
    if s.len() > 0 {
        stripped_text_has_no_brackets(s.drop_last());
    }
}

proof fn lemma_not_inside(s: Seq<char>)
    requires
        lacks(s, '<'),
    ensures
        !inside_tag(s),
    decreases s.len(),
{
    if s.len() > 0 {
        assert(s[s.len() - 1] != '<');
        lemma_not_inside(s.drop_last());
    }
}

/// A text without angle brackets is not changed when tags are stripped.
pub proof fn text_without_brackets_is_kept(s: Seq<char>)
    requires
        lacks(s, '<'),
        lacks(s, '>'),
    ensures
        tags_stripped(s) == s,
    decreases s.len(),
{
    if s.len() > 0 {
        assert(s[s.len() - 1] != '<' && s[s.len() - 1] != '>');
        lemma_not_inside(s);
        text_without_brackets_is_kept(s.drop_last());
        assert(s.drop_last().push(s.last()) =~= s);
    }
}

/// A text without ampersands is not changed when references are decoded.
pub proof fn text_without_references_is_kept(s: Seq<char>)
    requires
        lacks(s, '&'),
    ensures
        entities_decoded(s, 0) == s,
{
    lemma_find_char(s, '&', 0);
    assert(rest(s, 0) =~= s);
}

proof fn lemma_no_comments(s: Seq<char>)
    requires
        lacks(s, '<'),
    ensures
        without_comments(s, 0) == s,
{
    reveal_strlit("<!--");
    lemma_find_from(s, "<!--"@, 0);
    if let Some(start) = find_from(s, "<!--"@, 0) {
        assert(s.subrange(start, start + 4)[0] == '<');
    }
    assert(rest(s, 0) =~= s);
}

proof fn lemma_no_blocks(s: Seq<char>, tags: Seq<Seq<char>>)
    requires
        lacks(s, '<'),
    ensures
        without_all(s, tags) == s,
    decreases tags.len(),
{
    if tags.len() > 0 {
        lemma_no_blocks(s, tags.drop_last());
        lemma_named_tag(s, tags.last(), false, 0);
        assert(rest(s, 0) =~= s);
    }
}

/// A text without `<` holds no heading.
pub proof fn lemma_no_headings(s: Seq<char>, levels: nat, format: OutputFormat)
    requires
        lacks(s, '<'),
    ensures
        headings_replaced(s, levels, format) == s,
    decreases levels,
{
    if levels > 0 {
        lemma_no_headings(s, (levels - 1) as nat, format);
        let tag = heading_tag(levels);
        lemma_named_tag(s, tag, false, 0);
        lemma_named_tag(s, tag, true, 0);
        assert(rest(s, 0) =~= s);
    }
}

/// In a text without `<` there is no element to replace, whatever `render` does.
pub proof fn text_without_tags_is_not_replaced<F: Fn(&str) -> String>(
    render: F,
    s: Seq<char>,
    tag: Seq<char>,
    out: Seq<char>,
)
    requires
        lacks(s, '<'),
    ensures
        may_replace(render, s, tag, 0, out) <==> out == s,
{
    lemma_named_tag(s, tag, false, 0);
    assert(rest(s, 0) =~= s);
}

/// In a text without `<` there is nothing to remove and nothing to render.
pub proof fn text_without_tags_is_not_rendered(s: Seq<char>, format: OutputFormat)
    requires
        lacks(s, '<'),
    ensures
        ignored_stripped(s) == s,
        rendered(s, format) == s,
        content_of(s, format) == inline_text(s),
{
    lemma_no_comments(s);
    lemma_no_blocks(s, ignored_tags());
    lemma_named_tag(s, "pre"@, false, 0);
    lemma_named_tag(s, "code"@, false, 0);
    lemma_named_tag(s, "a"@, false, 0);
    lemma_no_headings(s, 6, format);
    lemma_next_tag(s, 0);
    assert(rest(s, 0) =~= s);
}

/// From a text without tags and references, extraction only normalizes the white
/// space, in either format.
pub proof fn plain_text_is_only_normalized(s: Seq<char>, format: OutputFormat)
    requires
        lacks(s, '<'),
        lacks(s, '>'),
        lacks(s, '&'),
    ensures
        content_of(s, format) == normalized(s),
{
    text_without_tags_is_not_rendered(s, format);
    text_without_brackets_is_kept(s);
    text_without_references_is_kept(s);
}

/// A character as it is written in a document: the characters with a meaning in
/// markup as references, all others as they are.
pub open spec fn markup_char(c: char) -> Seq<char> {
    if c == '<' {
        "&lt;"@
    } else if c == '>' {
        "&gt;"@
    } else if c == '&' {
        "&amp;"@
    } else if c == '"' {
        "&quot;"@
    } else if c == '\'' {
        "&apos;"@
    } else {
        seq![c]
    }
}

/// A text as it is written in a document.
pub open spec fn markup_text(s: Seq<char>) -> Seq<char>
    decreases s.len(),
{
    if s.len() == 0 {
        seq![]
    } else {
        markup_char(s[0]) + markup_text(s.subrange(1, s.len() as int))
    }
}

proof fn lemma_markup_char(c: char)
    ensures
        lacks(markup_char(c), '<'),
        lacks(markup_char(c), '>'),
{
    reveal_strlit("&lt;");
    reveal_strlit("&gt;");
    reveal_strlit("&amp;");
    reveal_strlit("&quot;");
    reveal_strlit("&apos;");
}

proof fn lemma_markup_text(s: Seq<char>)
    ensures
        lacks(markup_text(s), '<'),
        lacks(markup_text(s), '>'),
    decreases s.len(),
{
    if s.len() > 0 {
        lemma_markup_char(s[0]);
        lemma_markup_text(s.subrange(1, s.len() as int));
    }
}

/// References are decoded behind a prefix as they are without the prefix.
pub proof fn lemma_decoded_behind(p: Seq<char>, q: Seq<char>, from: int)
    requires
        0 <= from <= q.len(),
    ensures
        entities_decoded(p + q, p.len() + from) == entities_decoded(q, from),
    decreases q.len() - from,
{
    let s = p + q;
    lemma_find_char_behind(p, q, '&', from);
    lemma_find_char(q, '&', from);
    assert(rest(s, p.len() + from) =~= rest(q, from));
    if let Some(start) = find_char(q, '&', from) {
        lemma_find_char_behind(p, q, ';', start);
        lemma_find_char(q, ';', start);
        if let Some(end) = find_char(q, ';', start) {
            lemma_decoded_behind(p, q, end + 1);
            assert(s.subrange(p.len() + from, p.len() + start) =~= q.subrange(from, start));
            assert(s.subrange(p.len() + start + 1, p.len() + end) =~= q.subrange(start + 1, end));
            assert(s.subrange(p.len() + start, p.len() + end + 1) =~= q.subrange(start, end + 1));
        }
    }
}

proof fn lemma_decoded_char(s: Seq<char>)
    requires
        s.len() > 0,
        s[0] != '&',
    ensures
        entities_decoded(s, 0) == seq![s[0]] + entities_decoded(s, 1),
{
    lemma_find_char(s, '&', 1);
    assert(rest(s, 0) =~= seq![s[0]] + rest(s, 1));
    if let Some(start) = find_char(s, '&', 1) {
        assert(s.subrange(0, start) =~= seq![s[0]] + s.subrange(1, start));
        if let Some(end) = find_char(s, ';', start) {
            assert(entities_decoded(s, 0) =~= seq![s[0]] + entities_decoded(s, 1));
        }
    }
}

/// A reference at the start of a text is decoded by itself.
proof fn lemma_decoded_reference(name: Seq<char>, tail: Seq<char>)
    requires
        lacks(name, ';'),
        entity_char(name) is Some,
    ensures
        entities_decoded(seq!['&'] + name + seq![';'] + tail, 0) == seq![entity_char(name)->0]
            + entities_decoded(tail, 0),
{
    let p = seq!['&'] + name + seq![';'];
    let s = p + tail;
    let end = 1 + name.len();
    lemma_find_char(s, ';', 0);
    assert(find_char(s, '&', 0) == Some(0int));
    assert(s[end as int] == ';');
    assert forall|i: int| 0 <= i < end implies s[i] != ';' by {
        if i > 0 {
            assert(s[i] == name[i - 1]);
        }
    }
    assert(find_char(s, ';', 0) == Some(end as int));
    assert(s.subrange(1, end as int) =~= name);
    lemma_decoded_behind(p, tail, 0);
    assert(s.subrange(0, 0) + entity_text(s, 0, end as int) =~= seq![entity_char(name)->0]);
}

proof fn lemma_decoded_markup_char(c: char, tail: Seq<char>)
    ensures
        entities_decoded(markup_char(c) + tail, 0) == seq![c] + entities_decoded(tail, 0),
{
    reveal_strlit("nbsp");
    reveal_strlit("#39");
    reveal_strlit("apos");
    reveal_strlit("quot");
    reveal_strlit("gt");
    reveal_strlit("lt");
    reveal_strlit("amp");
    reveal_strlit("&lt;");
    reveal_strlit("&gt;");
    reveal_strlit("&amp;");
    reveal_strlit("&quot;");
    reveal_strlit("&apos;");
    if c == '<' {
        assert("lt"@[0] != "gt"@[0]);
        assert("&lt;"@ =~= seq!['&'] + "lt"@ + seq![';']);
        lemma_decoded_reference("lt"@, tail);
    } else if c == '>' {
        assert("&gt;"@ =~= seq!['&'] + "gt"@ + seq![';']);
        lemma_decoded_reference("gt"@, tail);
    } else if c == '&' {
        assert("amp"@[0] != "#39"@[0]);
        assert("&amp;"@ =~= seq!['&'] + "amp"@ + seq![';']);
        lemma_decoded_reference("amp"@, tail);
    } else if c == '"' {
        assert("quot"@[0] != "nbsp"@[0] && "quot"@[0] != "apos"@[0]);
        assert("&quot;"@ =~= seq!['&'] + "quot"@ + seq![';']);
        lemma_decoded_reference("quot"@, tail);
    } else if c == '\'' {
        assert("apos"@[0] != "nbsp"@[0]);
        assert("&apos;"@ =~= seq!['&'] + "apos"@ + seq![';']);
        lemma_decoded_reference("apos"@, tail);
    } else {
        let s = seq![c] + tail;
        lemma_decoded_char(s);
        lemma_decoded_behind(seq![c], tail, 0);
        assert(s[0] == c);
    }
}

/// Decoding undoes the writing of a text with references.
pub proof fn markup_text_is_decoded(s: Seq<char>)
    ensures
        entities_decoded(markup_text(s), 0) == s,
    decreases s.len(),
{
    if s.len() == 0 {
        lemma_find_char(markup_text(s), '&', 0);
        assert(rest(markup_text(s), 0) =~= s);
    } else {
        let tail = s.subrange(1, s.len() as int);
        markup_text_is_decoded(tail);
        lemma_decoded_markup_char(s[0], markup_text(tail));
        assert(seq![s[0]] + tail =~= s);
    }
}

/// From a document that holds nothing but a text, written with references,
/// extraction gives that text back with its white space normalized, in either
/// format and whatever characters it holds.
pub proof fn markup_text_is_extracted(s: Seq<char>, format: OutputFormat)
    ensures
        content_of(markup_text(s), format) == normalized(s),
{
    lemma_markup_text(s);
    text_without_tags_is_not_rendered(markup_text(s), format);
    text_without_brackets_is_kept(markup_text(s));
    markup_text_is_decoded(s);
}

/// A number sign and the code of a character in decimal notation stand for that
/// character.
pub proof fn numeric_reference_stands_for_its_character(c: char)
    ensures
        entity_char("#"@ + decimal(c as nat)) == Some(c),
{
    let digits = decimal(c as nat);
    let entity = "#"@ + digits;
    reveal_strlit("#");
    reveal_strlit("#x");
    reveal_strlit("#X");
    reveal_strlit("nbsp");
    reveal_strlit("#39");
    reveal_strlit("apos");
    reveal_strlit("quot");
    reveal_strlit("gt");
    reveal_strlit("lt");
    reveal_strlit("amp");
    decimal_is_readable(c as nat, u32::MAX as nat);
    decimal_holds_only_digits(c as nat);
    assert(entity[0] == '#');
    assert(entity[1] == digits[0]);
    assert(rest(entity, 1) =~= digits);
    assert(entity.subrange(0, 1) =~= "#"@);
    assert(!has_prefix(entity, "#x"@)) by {
        if has_prefix(entity, "#x"@) {
            assert(entity.subrange(0, 2)[1] == 'x');
        }
    }
    assert(!has_prefix(entity, "#X"@)) by {
        if has_prefix(entity, "#X"@) {
            assert(entity.subrange(0, 2)[1] == 'X');
        }
    }
    assert(numeric_entity(entity) == Some(c));
    if entity == "#39"@ {
        assert(digits[0] == '3' && digits[1] == '9');
        assert(digits =~= seq!['3', '9']);
        reveal_with_fuel(decimal, 3);
        decimal_is_readable(39, u32::MAX as nat);
        assert(decimal(39) =~= seq!['3', '9']);
    }
}

/// The text format adds no marks of its own: code stays its text, headings and
/// preformatted text only begin on a line of their own.
pub proof fn text_format_adds_no_marks(inner: Seq<char>, level: nat)
    ensures
        inline_code(inner, OutputFormat::Text) == inline_text(inner),
        preformatted(inner, OutputFormat::Text) == (if inline_text(inner).len() == 0 {
            inline_text(inner)
        } else {
            "\n"@ + inline_text(inner) + "\n"@
        }),
        heading_prefix(level, OutputFormat::Text) == "\n"@,
{
    if inline_text(inner).len() == 0 {
        assert(inline_text(inner) =~= Seq::<char>::empty());
    }
}

/// In the text format a link becomes its text, whatever its target.
pub proof fn text_format_drops_link_targets(text: Seq<char>, href: Option<Seq<char>>)
    ensures
        link_text(text, href, OutputFormat::Text) == text,
{
    if text.len() == 0 {
        assert(text =~= Seq::<char>::empty());
    }
}

} // verus!
