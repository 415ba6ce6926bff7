//! Laws of attributes: where an attribute is found in a tag, and which value is
//! read behind its name.

use vstd::prelude::*;

use crate::attributes::{
    attribute_of, attribute_position, bare_value_end, is_whole_name, precedes_attribute,
    value_after_name,
};
use crate::laws::characters::is_blank;
use crate::laws::search::lacks;
use crate::text::{
    ascii_lower, find_char, lemma_find_char, lower_char, matches_at, rest, trim_start, white_space,
};

verus! {

/// Whether an attribute of the given name begins at a position of a tag: its
/// letters, in either case, with the start of the tag, a `<` or white space before
/// them and an equals sign, a space or a tab behind them.
pub open spec fn attribute_begins(tag: Seq<char>, name: Seq<char>, i: int) -> bool {
    &&& 0 <= i
    &&& i + name.len() < tag.len()
    &&& forall|k: int| 0 <= k < name.len() ==> lower_char(tag[i + k]) == #[trigger] name[k]
    &&& i > 0 ==> "< \n\r\t"@.contains(tag[i - 1])
    &&& "= \t"@.contains(tag[i + name.len()])
}

/// An attribute begins behind one of five characters, and at the start.
pub proof fn attributes_begin_behind(before: Option<char>)
    ensures
        precedes_attribute(before) <==> (before is None || "< \n\r\t"@.contains(before->0)),
{
    reveal_strlit("< \n\r\t");
    let list = "< \n\r\t"@;
    assert(list[0] == '<' && list[1] == ' ' && list[2] == '\n' && list[3] == '\r' && list[4]
        == '\t');
}

proof fn lemma_separators(c: char)
    ensures
        precedes_attribute(Some(lower_char(c))) == precedes_attribute(Some(c)),
        (lower_char(c) == '=' || lower_char(c) == ' ' || lower_char(c) == '\t') == "= \t"@.contains(
            c,
        ),
{
    reveal_strlit("= \t");
    let list = "= \t"@;
    assert(list[0] == '=' && list[1] == ' ' && list[2] == '\t');
}

proof fn lemma_attribute_begins(tag: Seq<char>, name: Seq<char>, i: int)
    requires
        0 <= i,
    ensures
        attribute_begins(tag, name, i) <==> matches_at(ascii_lower(tag), name, i) && is_whole_name(
            ascii_lower(tag),
            i,
            name.len() as int,
        ),
{
    let lower = ascii_lower(tag);
    if i + name.len() < tag.len() {
        let part = lower.subrange(i, i + name.len());
        lemma_separators(tag[i + name.len()]);
        if i > 0 {
            lemma_separators(tag[i - 1]);
            attributes_begin_behind(Some(tag[i - 1]));
        }
        if part == name {
            assert forall|k: int| 0 <= k < name.len() implies lower_char(tag[i + k])
                == #[trigger] name[k] by {
                assert(part[k] == name[k]);
            }
        }
        if forall|k: int| 0 <= k < name.len() ==> lower_char(tag[i + k]) == #[trigger] name[k] {
            assert(part =~= name);
        }
    }
}

proof fn lemma_attribute_skips(tag: Seq<char>, name: Seq<char>, from: int, to: int)
    requires
        0 <= from <= to,
        forall|i: int| from <= i < to ==> !attribute_begins(tag, name, i),
        to + name.len() <= tag.len(),
    ensures
        attribute_position(ascii_lower(tag), name, from) == attribute_position(
            ascii_lower(tag),
            name,
            to,
        ),
    decreases to - from,
{
    if from < to {
        lemma_attribute_begins(tag, name, from);
        lemma_attribute_skips(tag, name, from + 1, to);
    }
}

/// The value of an attribute is read behind the first place where it begins.
pub proof fn first_attribute_is_read(tag: Seq<char>, name: Seq<char>, i: int)
    requires
        attribute_begins(tag, name, i),
        forall|j: int| 0 <= j < i ==> !attribute_begins(tag, name, j),
    ensures
        attribute_of(tag, name) == value_after_name(tag.skip(i + name.len())),
{
    lemma_attribute_skips(tag, name, 0, i);
    lemma_attribute_begins(tag, name, i);
    assert(rest(tag, i + name.len()) =~= tag.skip(i + name.len()));
}

proof fn lemma_no_attribute(tag: Seq<char>, name: Seq<char>, from: int)
    requires
        0 <= from,
        forall|i: int| from <= i ==> !attribute_begins(tag, name, i),
    ensures
        attribute_position(ascii_lower(tag), name, from) is None,
    decreases tag.len() - from + 1,
{
    if from + name.len() <= tag.len() {
        lemma_attribute_begins(tag, name, from);
        lemma_no_attribute(tag, name, from + 1);
    }
}

/// Where an attribute does not begin anywhere, it has no value.
pub proof fn missing_attribute_has_no_value(tag: Seq<char>, name: Seq<char>)
    requires
        forall|i: int| 0 <= i ==> !attribute_begins(tag, name, i),
    ensures
        attribute_of(tag, name) is None,
{
    lemma_no_attribute(tag, name, 0);
}

proof fn lemma_skip_blank(blank: Seq<char>, tail: Seq<char>)
    requires
        is_blank(blank),
        tail.len() > 0 ==> !white_space(tail[0]),
    ensures
        trim_start(blank + tail) == tail,
    decreases blank.len(),
{
    if blank.len() > 0 {
        let shorter = blank.subrange(1, blank.len() as int);
        assert(white_space(blank[0]));
        lemma_skip_blank(shorter, tail);
        assert((blank + tail).subrange(1, (blank + tail).len() as int) =~= shorter + tail);
    } else {
        assert(blank + tail =~= tail);
    }
}

/// What stands before the value: an equals sign, with white space on both sides or
/// not.
pub open spec fn assignment(before: Seq<char>, after: Seq<char>) -> Seq<char> {
    before + seq!['='] + after
}

proof fn lemma_assigned(before: Seq<char>, after: Seq<char>, value: Seq<char>)
    requires
        is_blank(before),
        is_blank(after),
        value.len() > 0 ==> !white_space(value[0]),
    ensures
        ({
            let assigned = trim_start(assignment(before, after) + value);
            &&& assigned.len() > 0
            &&& assigned[0] == '='
            &&& trim_start(rest(assigned, 1)) == value
        }),
{
    let tail = seq!['='] + after + value;
    assert(assignment(before, after) + value =~= before + tail);
    lemma_skip_blank(before, tail);
    assert(rest(tail, 1) =~= after + value);
    lemma_skip_blank(after, value);
}

/// A value in quotes, of either kind, is what stands between them, whatever it is
/// and whatever follows; without the second quote there is no value.
pub proof fn quoted_value_is_read(
    before: Seq<char>,
    after: Seq<char>,
    quote: char,
    value: Seq<char>,
    tail: Seq<char>,
)
    requires
        is_blank(before),
        is_blank(after),
        quote == '"' || quote == '\'',
        lacks(value, quote),
    ensures
        value_after_name(assignment(before, after) + (seq![quote] + value + seq![quote] + tail))
            == Some(value),
        value_after_name(assignment(before, after) + (seq![quote] + value)) is None,
{
    let closed = seq![quote] + value + seq![quote] + tail;
    let end = 1 + value.len();
    lemma_assigned(before, after, closed);
    lemma_find_char(closed, quote, 1);
    assert(closed[end as int] == quote);
    assert forall|i: int| 1 <= i < end implies closed[i] != quote by {
        assert(closed[i] == value[i - 1]);
    }
    assert(find_char(closed, quote, 1) == Some(end as int));
    assert(closed.subrange(1, end as int) =~= value);
    let open = seq![quote] + value;
    lemma_assigned(before, after, open);
    lemma_find_char(open, quote, 1);
    assert forall|i: int| 1 <= i < open.len() implies open[i] != quote by {
        assert(open[i] == value[i - 1]);
    }
}

proof fn lemma_bare_end(s: Seq<char>, from: int, end: int)
    requires
        0 <= from <= end <= s.len(),
        forall|i: int| from <= i < end ==> !white_space(#[trigger] s[i]) && s[i] != '>',
        end < s.len() ==> white_space(s[end]) || s[end] == '>',
    ensures
        bare_value_end(s, from) == end,
    decreases end - from,
{
    if from < end {
        assert(!white_space(s[from]));
        lemma_bare_end(s, from + 1, end);
    }
}

/// A value without quotes goes up to white space, to a `>` or to the end.
pub proof fn bare_value_is_read(
    before: Seq<char>,
    after: Seq<char>,
    value: Seq<char>,
    tail: Seq<char>,
)
    requires
        is_blank(before),
        is_blank(after),
        forall|i: int| 0 <= i < value.len() ==> !white_space(#[trigger] value[i]) && value[i] != '>',
        tail.len() > 0 ==> white_space(tail[0]) || tail[0] == '>',
        value.len() > 0 ==> value[0] != '"' && value[0] != '\'',
        value.len() > 0 || (tail.len() > 0 && tail[0] == '>'),
    ensures
        value_after_name(assignment(before, after) + (value + tail)) == Some(value),
{
    let text = value + tail;
    if value.len() > 0 {
        assert(!white_space(value[0]));
        assert(text[0] == value[0]);
    }
    lemma_assigned(before, after, text);
    assert forall|i: int| 0 <= i < value.len() implies !white_space(#[trigger] text[i]) && text[i]
        != '>' by {
        assert(text[i] == value[i]);
    }
    lemma_bare_end(text, 0, value.len() as int);
    assert(text.subrange(0, value.len() as int) =~= value);
}

/// A name without an equals sign behind it, and one with nothing but white space
/// behind the equals sign, has no value.
pub proof fn name_alone_has_no_value(before: Seq<char>, after: Seq<char>, tail: Seq<char>)
    requires
        is_blank(before),
        is_blank(after),
        tail.len() > 0 ==> !white_space(tail[0]) && tail[0] != '=',
    ensures
        value_after_name(before + tail) is None,
        value_after_name(assignment(before, after)) is None,
{
    lemma_skip_blank(before, tail);
    let none = Seq::<char>::empty();
    lemma_assigned(before, after, none);
    assert(assignment(before, after) + none =~= assignment(before, after));
}

} // verus!
