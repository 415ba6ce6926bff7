//! Laws of links: the target in quotes is read, and the link is written with it.

use vstd::prelude::*;

use crate::attributes::{attribute_of, attribute_position, is_whole_name, value_after_name};
use crate::format::OutputFormat;
use crate::html::{inline_text, links_converted};
use crate::laws::markup::{link_is_rendered, start_tag, with_element};
use crate::laws::search::lacks;
use crate::text::{ascii_lower, find_char, lemma_find_char, matches_at, rest, trim_start};

verus! {

/// The attribute of a link that holds its target, in quotes of the given kind.
pub open spec fn target_attribute(target: Seq<char>, quote: char) -> Seq<char> {
    seq![' ', 'h', 'r', 'e', 'f', '=', quote] + target + seq![quote]
}

/// The target of a link is what stands in its quotes, whatever it is, as long as
/// it does not hold the quote itself.
pub proof fn quoted_target_is_read(target: Seq<char>, quote: char)
    requires
        quote == '"' || quote == '\'',
        lacks(target, quote),
    ensures
        attribute_of(start_tag("a"@, target_attribute(target, quote)), "href"@) == Some(target),
{
    reveal_strlit("a");
    reveal_strlit("href");
    let tag = start_tag("a"@, target_attribute(target, quote));
    let lower = ascii_lower(tag);
    let name = "href"@;
    let after = rest(tag, 7);
    let value = rest(tag, 8);
    assert(tag[0] == '<' && tag[1] == 'a' && tag[2] == ' ' && tag[3] == 'h' && tag[4] == 'r'
        && tag[5] == 'e' && tag[6] == 'f' && tag[7] == '=' && tag[8] == quote);
    assert forall|i: int| 0 <= i < 3 implies !matches_at(lower, name, i) by {
        if matches_at(lower, name, i) {
            assert(lower.subrange(i, i + 4)[0] == 'h');
        }
    }
    assert(lower.subrange(3, 7) =~= name);
    assert(matches_at(lower, name, 3) && is_whole_name(lower, 3, 4));
    reveal_with_fuel(attribute_position, 4);
    assert(attribute_position(lower, name, 0) == Some(3int));
    assert(trim_start(after) == after);
    assert(rest(after, 1) =~= value);
    assert(trim_start(value) == value);
    lemma_find_char(value, quote, 1);
    let end = 1 + target.len();
    assert(value[end as int] == quote);
    assert forall|i: int| 1 <= i < end implies value[i] != quote by {
        assert(value[i] == target[i - 1]);
    }
    assert(find_char(value, quote, 1) == Some(end as int));
    assert(value.subrange(1, end as int) =~= target);
    assert(value_after_name(after) == Some(target));
}

/// In Markdown a link with a text and a target becomes the text in square
/// brackets and the target in round ones.
pub proof fn markdown_link_is_written(
    before: Seq<char>,
    target: Seq<char>,
    quote: char,
    inner: Seq<char>,
    after: Seq<char>,
)
    requires
        quote == '"' || quote == '\'',
        target.len() > 0,
        lacks(target, quote),
        lacks(target, '<'),
        lacks(target, '>'),
        lacks(before, '<'),
        lacks(inner, '<'),
        inline_text(inner).len() > 0,
    ensures
        links_converted(
            with_element(before, "a"@, target_attribute(target, quote), inner, "a"@, after),
            OutputFormat::Markdown,
            0,
        ) == before + ("["@ + inline_text(inner) + "]("@ + target + ")"@) + links_converted(
            after,
            OutputFormat::Markdown,
            0,
        ),
{
    reveal_strlit("a");
    let attributes = target_attribute(target, quote);
    assert(ascii_lower("a"@) =~= "a"@);
    assert forall|i: int| 0 <= i < attributes.len() implies #[trigger] attributes[i] != '<'
        && attributes[i] != '>' by {
        if 7 <= i < attributes.len() - 1 {
            assert(attributes[i] == target[i - 7]);
        }
    }
    quoted_target_is_read(target, quote);
    link_is_rendered(before, "a"@, attributes, inner, "a"@, after, OutputFormat::Markdown);
}

} // verus!
