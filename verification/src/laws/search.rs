//! How searches in a text behave when text is put before it, and when they pass
//! over places where nothing stands.

use vstd::prelude::*;

use crate::tags::{closing_needle, ends_tag_name, named_tag, next_tag, opening_needle, tag_bounds};
use crate::text::{
    ascii_lower, char_at, find_char, find_from, lemma_find_char, lemma_find_from, lower_char,
    matches_at,
};

verus! {

/// Whether a text does not hold a character.
pub open spec fn lacks(s: Seq<char>, c: char) -> bool {
    forall|i: int| 0 <= i < s.len() ==> #[trigger] s[i] != c
}

/// A position moved by a number of characters.
pub open spec fn moved(found: Option<int>, by: int) -> Option<int> {
    match found {
        Some(i) => Some(by + i),
        None => None,
    }
}

/// The bounds of a tag moved by a number of characters.
pub open spec fn moved_bounds(found: Option<(int, int)>, by: int) -> Option<(int, int)> {
    match found {
        Some((start, end)) => Some((by + start, by + end)),
        None => None,
    }
}

/// A character is found behind a prefix where it is found without the prefix.
pub proof fn lemma_find_char_behind(p: Seq<char>, q: Seq<char>, c: char, from: int)
    requires
        0 <= from,
    ensures
        find_char(p + q, c, p.len() + from) == moved(find_char(q, c, from), p.len() as int),
    decreases q.len() - from,
{
    if from < q.len() {
        assert((p + q)[p.len() + from] == q[from]);
        if q[from] != c {
            lemma_find_char_behind(p, q, c, from + 1);
        }
    }
}

/// A pattern is found behind a prefix where it is found without the prefix.
pub proof fn lemma_find_from_behind(p: Seq<char>, q: Seq<char>, pattern: Seq<char>, from: int)
    requires
        0 <= from,
    ensures
        find_from(p + q, pattern, p.len() + from) == moved(
            find_from(q, pattern, from),
            p.len() as int,
        ),
    decreases q.len() - from + 1,
{
    if from + pattern.len() <= q.len() {
        assert((p + q).subrange(p.len() + from, p.len() + from + pattern.len()) =~= q.subrange(
            from,
            from + pattern.len(),
        ));
        if !matches_at(q, pattern, from) {
            lemma_find_from_behind(p, q, pattern, from + 1);
        }
    }
}

/// A search passes over positions at which the pattern does not stand.
pub proof fn lemma_find_from_skips(s: Seq<char>, pattern: Seq<char>, from: int, to: int)
    requires
        0 <= from <= to,
        forall|i: int| from <= i < to ==> !matches_at(s, pattern, i),
    ensures
        find_from(s, pattern, from) == find_from(s, pattern, to),
    decreases to - from,
{
    if from < to {
        lemma_find_from_skips(s, pattern, from + 1, to);
        lemma_find_from(s, pattern, from);
        lemma_find_from(s, pattern, to);
    }
}

/// Lower case does not make a character that is no letter.
pub proof fn lemma_lower_char(c: char, other: char)
    requires
        other < 'a' || other > 'z',
    ensures
        lower_char(c) == other ==> c == other,
        (c < 'A' || c > 'Z') ==> lower_char(c) == c,
{
}

/// The lower case of two texts, one behind the other.
pub proof fn lemma_lower_concat(p: Seq<char>, q: Seq<char>)
    ensures
        ascii_lower(p + q) == ascii_lower(p) + ascii_lower(q),
{
    assert(ascii_lower(p + q) =~= ascii_lower(p) + ascii_lower(q));
}

/// Whether a tag that begins with `needle` stands at a position: the needle, and
/// then the end of the tag name.
pub open spec fn tag_stands(lower: Seq<char>, needle: Seq<char>, i: int) -> bool {
    &&& matches_at(lower, needle, i)
    &&& ends_tag_name(char_at(lower, i + needle.len()))
}

/// Whether a text begins with a character that it holds nowhere else.
pub open spec fn is_needle(needle: Seq<char>) -> bool {
    &&& needle.len() > 0
    &&& forall|k: int| 0 < k < needle.len() ==> #[trigger] needle[k] != needle[0]
}

proof fn lemma_tag_bounds_step(lower: Seq<char>, needle: Seq<char>, from: int)
    requires
        0 <= from < lower.len(),
        is_needle(needle),
        !tag_stands(lower, needle, from),
    ensures
        tag_bounds(lower, needle, from) == tag_bounds(lower, needle, from + 1),
{
    lemma_find_from(lower, needle, from);
    lemma_find_from(lower, needle, from + 1);
    if matches_at(lower, needle, from) {
        let to = from + needle.len();
        assert forall|i: int| from + 1 <= i < to implies !matches_at(lower, needle, i) by {
            if matches_at(lower, needle, i) {
                assert(lower.subrange(i, i + needle.len())[0] == needle[0]);
                assert(lower.subrange(from, to)[i - from] == needle[i - from]);
            }
        }
        lemma_find_from_skips(lower, needle, from + 1, to);
        assert(tag_bounds(lower, needle, from) == tag_bounds(lower, needle, to));
        assert(tag_bounds(lower, needle, from + 1) == tag_bounds(lower, needle, to));
    } else {
        lemma_find_from_skips(lower, needle, from, from + 1);
    }
}

/// The search for a tag passes over positions at which no such tag stands.
pub proof fn lemma_tag_bounds_skips(lower: Seq<char>, needle: Seq<char>, from: int, to: int)
    requires
        0 <= from <= to <= lower.len(),
        is_needle(needle),
        forall|i: int| from <= i < to ==> !tag_stands(lower, needle, i),
    ensures
        tag_bounds(lower, needle, from) == tag_bounds(lower, needle, to),
    decreases to - from,
{
    if from < to {
        lemma_tag_bounds_step(lower, needle, from);
        lemma_tag_bounds_skips(lower, needle, from + 1, to);
    }
}

proof fn lemma_tag_bounds_behind(p: Seq<char>, q: Seq<char>, needle: Seq<char>, from: int)
    requires
        0 <= from,
        needle.len() > 0,
    ensures
        tag_bounds(p + q, needle, p.len() + from) == moved_bounds(
            tag_bounds(q, needle, from),
            p.len() as int,
        ),
    decreases q.len() - from,
{
    if from < q.len() {
        lemma_find_from_behind(p, q, needle, from);
        lemma_find_from(q, needle, from);
        if let Some(start) = find_from(q, needle, from) {
            let after = start + needle.len();
            assert(char_at(p + q, p.len() + after) == char_at(q, after));
            if ends_tag_name(char_at(q, after)) {
                lemma_find_char_behind(p, q, '>', start);
            } else {
                lemma_tag_bounds_behind(p, q, needle, after);
            }
        }
    }
}

/// A tag is found behind a prefix where it is found without the prefix.
pub proof fn lemma_named_tag_behind(
    p: Seq<char>,
    q: Seq<char>,
    tag: Seq<char>,
    closing: bool,
    from: int,
)
    requires
        0 <= from,
    ensures
        named_tag(p + q, tag, closing, p.len() + from) == moved_bounds(
            named_tag(q, tag, closing, from),
            p.len() as int,
        ),
{
    let needle = if closing {
        closing_needle(tag)
    } else {
        opening_needle(tag)
    };
    lemma_lower_concat(p, q);
    lemma_tag_bounds_behind(ascii_lower(p), ascii_lower(q), needle, from);
}

/// A tag of any name is found behind a prefix where it is found without it.
pub proof fn lemma_next_tag_behind(p: Seq<char>, q: Seq<char>, from: int)
    requires
        0 <= from,
    ensures
        next_tag(p + q, p.len() + from) == moved_bounds(next_tag(q, from), p.len() as int),
{
    lemma_find_char_behind(p, q, '<', from);
    lemma_find_char(q, '<', from);
    if let Some(start) = find_char(q, '<', from) {
        lemma_find_char_behind(p, q, '>', start);
    }
}

} // verus!
