//! Where the tags of a document stand.
//!
//! Tag names are compared without regard to ASCII case. The functions on
//! strings count positions in bytes, as string slicing does; the ones on
//! characters count them in characters.

use vstd::prelude::*;
use vstd::slice::slice_subrange;

use crate::offsets::{byte_offset, char_position, to_byte_offset, to_char_position};
use crate::text::{
    ascii_lower, char_at, find_char, find_char_pos, find_from, find_pattern, from_chars,
    is_whitespace, lemma_find_char, lemma_find_from, lower_chars, opt_span, to_chars, trim,
    trim_chars, white_space,
};

verus! {

/// The characters that end a tag name; the end of the document does so too.
pub open spec fn ends_tag_name(next: Option<char>) -> bool {
    match next {
        None => true,
        Some(c) => c == '>' || c == ' ' || c == '\n' || c == '\r' || c == '\t' || c == '/',
    }
}

/// Tests whether a tag name ends before the given character.
pub fn is_tag_boundary(next: Option<char>) -> (boundary: bool)
    ensures
        boundary == ends_tag_name(next),
{
    match next {
        None => true,
        Some(c) => c == '>' || c == ' ' || c == '\n' || c == '\r' || c == '\t' || c == '/',
    }
}

/// The start and the end of the first tag, from `from` on, that begins with
/// `needle`, in a text that is in lower case.
///
/// Occurrences of `needle` in which the tag name goes on are passed over. The
/// first other one is the tag, from its start to the next `>`; without such a
/// `>` there is none.
pub open spec fn tag_bounds(lower: Seq<char>, needle: Seq<char>, from: int) -> Option<(int, int)>
    decreases lower.len() - from,
    when 0 <= from
{
    if from >= lower.len() {
        None
    } else {
        match find_from(lower, needle, from) {
            None => None,
            Some(start) => if ends_tag_name(char_at(lower, start + needle.len())) {
                match find_char(lower, '>', start) {
                    None => None,
                    Some(end) => Some((start, end)),
                }
            } else if needle.len() == 0 {
                None
            } else {
                proof {
                    lemma_find_from(lower, needle, from);
                }
                tag_bounds(lower, needle, start + needle.len())
            },
        }
    }
}

/// What an opening tag of the given name begins with.
pub open spec fn opening_needle(tag: Seq<char>) -> Seq<char> {
    seq!['<'] + tag
}

/// What a closing tag of the given name begins with.
pub open spec fn closing_needle(tag: Seq<char>) -> Seq<char> {
    seq!['<', '/'] + tag
}

/// The bounds of the first opening tag of the given name, from `from` on.
pub open spec fn opening_tag(s: Seq<char>, tag: Seq<char>, from: int) -> Option<(int, int)> {
    tag_bounds(ascii_lower(s), opening_needle(tag), from)
}

/// The bounds of the first closing tag of the given name, from `from` on.
pub open spec fn closing_tag(s: Seq<char>, tag: Seq<char>, from: int) -> Option<(int, int)> {
    tag_bounds(ascii_lower(s), closing_needle(tag), from)
}

/// The bounds of the first closing or opening tag of the given name.
pub open spec fn named_tag(s: Seq<char>, tag: Seq<char>, closing: bool, from: int) -> Option<
    (int, int),
> {
    if closing {
        closing_tag(s, tag, from)
    } else {
        opening_tag(s, tag, from)
    }
}

/// The bounds of the first tag of any name, from `from` on: a `<` and the next
/// `>` after it.
pub open spec fn next_tag(s: Seq<char>, from: int) -> Option<(int, int)> {
    match find_char(s, '<', from) {
        None => None,
        Some(start) => match find_char(s, '>', start) {
            None => None,
            Some(end) => Some((start, end)),
        },
    }
}

/// A span of character positions as the byte offsets at which they begin.
pub open spec fn byte_span(s: Seq<char>, span: Option<(int, int)>) -> Option<(int, int)> {
    match span {
        None => None,
        Some((start, end)) => Some((byte_offset(s, start), byte_offset(s, end))),
    }
}

/// What a search from a byte offset on finds, given what the search from each
/// character position finds: nothing if the offset falls inside a character or
/// past the end.
pub open spec fn search_from_byte(
    s: Seq<char>,
    offset: int,
    search: spec_fn(int) -> Option<(int, int)>,
) -> Option<(int, int)> {
    match char_position(s, offset) {
        None => None,
        Some(from) => byte_span(s, search(from)),
    }
}

/// A tag that is found lies in the document, starts with the needle at or after
/// the start of the search, its name ends there, and it ends with the first `>`.
pub proof fn lemma_tag_bounds(lower: Seq<char>, needle: Seq<char>, from: int)
    requires
        0 <= from,
    ensures
        match tag_bounds(lower, needle, from) {
            Some((start, end)) => {
                &&& from <= start <= end < lower.len()
                &&& start + needle.len() <= lower.len()
                &&& lower.subrange(start, start + needle.len()) == needle
                &&& ends_tag_name(char_at(lower, start + needle.len()))
                &&& lower[end] == '>'
                &&& forall|k: int| start <= k < end ==> lower[k] != '>'
            },
            None => true,
        },
    decreases lower.len() - from,
{
    if from < lower.len() {
        lemma_find_from(lower, needle, from);
        if let Some(start) = find_from(lower, needle, from) {
            if ends_tag_name(char_at(lower, start + needle.len())) {
                lemma_find_char(lower, '>', start);
            } else if needle.len() > 0 {
                lemma_tag_bounds(lower, needle, start + needle.len());
            }
        }
    }
}

/// An opening or closing tag lies in the document; it starts with `<`, ends with
/// `>`, and there is no other `>` in it.
pub proof fn lemma_named_tag(s: Seq<char>, tag: Seq<char>, closing: bool, from: int)
    requires
        0 <= from,
    ensures
        match named_tag(s, tag, closing, from) {
            Some((start, end)) => {
                &&& from <= start < end < s.len()
                &&& s[start] == '<'
                &&& s[end] == '>'
                &&& forall|k: int| start <= k < end ==> s[k] != '>'
            },
            None => true,
        },
{
    let needle = if closing {
        closing_needle(tag)
    } else {
        opening_needle(tag)
    };
    let lower = ascii_lower(s);
    lemma_tag_bounds(lower, needle, from);
    if let Some((start, end)) = named_tag(s, tag, closing, from) {
        assert(lower.subrange(start, start + needle.len())[0] == needle[0]);
        assert(lower[start] == '<');
        assert forall|k: int| start <= k < end implies s[k] != '>' by {
            assert(lower[k] != '>');
        }
    }
}

/// The bounds of a tag of any name lie in the document and enclose it.
pub proof fn lemma_next_tag(s: Seq<char>, from: int)
    requires
        0 <= from,
    ensures
        match next_tag(s, from) {
            Some((start, end)) => {
                &&& from <= start < end < s.len()
                &&& s[start] == '<'
                &&& s[end] == '>'
                &&& forall|k: int| from <= k < start ==> s[k] != '<'
                &&& forall|k: int| start <= k < end ==> s[k] != '>'
            },
            None => true,
        },
{
    lemma_find_char(s, '<', from);
    if let Some(start) = find_char(s, '<', from) {
        lemma_find_char(s, '>', start);
    }
}

/// Finds the bounds of the first tag that begins with a needle.
pub fn find_needle(lower: &[char], needle: &[char], from: usize) -> (bounds: Option<(usize, usize)>)
    ensures
        opt_span(bounds) == tag_bounds(lower@, needle@, from as int),
{
    let mut cursor: usize = from;
    while cursor < lower.len()
        invariant
            tag_bounds(lower@, needle@, from as int) == tag_bounds(
                lower@,
                needle@,
                cursor as int,
            ),
        decreases lower@.len() - cursor,
    {
        proof {
            lemma_find_from(lower@, needle@, cursor as int);
        }
        let start: usize = match find_pattern(lower, needle, cursor) {
            Some(start) => start,
            None => {
                return None;
            },
        };
        let after: usize = start + needle.len();
        let next = if after < lower.len() {
            Some(lower[after])
        } else {
            None
        };
        if is_tag_boundary(next) {
            return match find_char_pos(lower, '>', start) {
                Some(end) => Some((start, end)),
                None => None,
            };
        }
        if needle.len() == 0 {
            return None;
        }
        cursor = after;
    }
    None
}

/// Writes what an opening or closing tag of the given name begins with.
pub fn tag_needle(tag: &str, closing: bool) -> (needle: Vec<char>)
    ensures
        needle@ == (if closing {
            closing_needle(tag@)
        } else {
            opening_needle(tag@)
        }),
{
    let mut needle: Vec<char> = Vec::new();
    needle.push('<');
    if closing {
        needle.push('/');
    }
    let mut name = to_chars(tag);
    needle.append(&mut name);
    assert(needle@ =~= if closing {
        closing_needle(tag@)
    } else {
        opening_needle(tag@)
    });
    needle
}

/// Finds the bounds of the first tag of any name in a slice of characters.
pub fn find_next_tag(chars: &[char], from: usize) -> (bounds: Option<(usize, usize)>)
    ensures
        opt_span(bounds) == next_tag(chars@, from as int),
{
    match find_char_pos(chars, '<', from) {
        None => None,
        Some(start) => match find_char_pos(chars, '>', start) {
            None => None,
            Some(end) => Some((start, end)),
        },
    }
}

/// Turns a span of character positions into byte offsets.
fn span_to_bytes(text: &str, chars: &[char], span: Option<(usize, usize)>) -> (bytes: Option<
    (usize, usize),
>)
    requires
        chars@ == text@,
        span matches Some((start, end)) ==> start <= chars@.len() && end <= chars@.len(),
    ensures
        opt_span(bytes) == byte_span(text@, opt_span(span)),
{
    match span {
        None => None,
        Some((start, end)) => Some(
            (to_byte_offset(text, chars, start), to_byte_offset(text, chars, end)),
        ),
    }
}

/// Whether the search for a needle comes to an end: an empty needle stands at
/// every position, so the search for one ends only where it starts, before a
/// character that ends a tag name.
pub open spec fn search_ends(s: Seq<char>, needle: Seq<char>, offset: int) -> bool {
    needle.len() == 0 ==> match char_position(s, offset) {
        None => true,
        Some(from) => ends_tag_name(char_at(s, from)),
    }
}

/// Finds the byte offsets of the start and of the closing `>` of the first tag,
/// from a byte offset on, that begins with `needle`.
pub fn find_tag_bounds(input: &str, needle: &str, offset: usize) -> (bounds: Option<(usize, usize)>)
    requires
        search_ends(input@, needle@, offset as int),
    ensures
        opt_span(bounds) == search_from_byte(
            input@,
            offset as int,
            |from: int| tag_bounds(ascii_lower(input@), needle@, from),
        ),
{
    let chars = to_chars(input);
    let needle = to_chars(needle);
    let from: usize = match to_char_position(input, chars.as_slice(), offset) {
        Some(from) => from,
        None => {
            return None;
        },
    };
    let lower = lower_chars(chars.as_slice());
    let span = find_needle(lower.as_slice(), needle.as_slice(), from);
    proof {
        lemma_tag_bounds(lower@, needle@, from as int);
    }
    span_to_bytes(input, chars.as_slice(), span)
}

/// Finds the byte offsets of the first opening tag of the given name.
pub fn find_opening_tag(input: &str, tag: &str, offset: usize) -> (bounds: Option<(usize, usize)>)
    ensures
        opt_span(bounds) == search_from_byte(
            input@,
            offset as int,
            |from: int| opening_tag(input@, tag@, from),
        ),
{
    let needle = from_chars(tag_needle(tag, false).as_slice());
    find_tag_bounds(input, needle.as_str(), offset)
}

/// Finds the byte offsets of the first closing tag of the given name.
pub fn find_closing_tag(input: &str, tag: &str, offset: usize) -> (bounds: Option<(usize, usize)>)
    ensures
        opt_span(bounds) == search_from_byte(
            input@,
            offset as int,
            |from: int| closing_tag(input@, tag@, from),
        ),
{
    let needle = from_chars(tag_needle(tag, true).as_slice());
    find_tag_bounds(input, needle.as_str(), offset)
}

/// Finds the byte offsets of the first closing or opening tag of the given name.
pub fn find_tag(input: &str, tag: &str, closing: bool, offset: usize) -> (bounds: Option<
    (usize, usize),
>)
    ensures
        opt_span(bounds) == search_from_byte(
            input@,
            offset as int,
            |from: int| named_tag(input@, tag@, closing, from),
        ),
{
    if closing {
        return find_closing_tag(input, tag, offset);
    }
    find_opening_tag(input, tag, offset)
}

/// Finds the byte offsets of the first tag of any name.
pub fn next_tag_bounds(input: &str, offset: usize) -> (bounds: Option<(usize, usize)>)
    ensures
        opt_span(bounds) == search_from_byte(
            input@,
            offset as int,
            |from: int| next_tag(input@, from),
        ),
{
    let chars = to_chars(input);
    let from: usize = match to_char_position(input, chars.as_slice(), offset) {
        Some(from) => from,
        None => {
            return None;
        },
    };
    let span = find_next_tag(chars.as_slice(), from);
    proof {
        lemma_next_tag(chars@, from as int);
    }
    span_to_bytes(input, chars.as_slice(), span)
}

/// The first word of a text: the characters up to the first white space.
pub open spec fn first_word(s: Seq<char>) -> Seq<char>
    decreases s.len(),
{
    if s.len() == 0 || white_space(s[0]) {
        seq![]
    } else {
        seq![s[0]] + first_word(s.subrange(1, s.len() as int))
    }
}

/// A text without a given character at its start, if it starts with it.
pub open spec fn without_first(s: Seq<char>, c: char) -> Seq<char> {
    if s.len() > 0 && s[0] == c {
        s.subrange(1, s.len() as int)
    } else {
        s
    }
}

/// A text without a given character at its end, if it ends with it.
pub open spec fn without_last(s: Seq<char>, c: char) -> Seq<char> {
    if s.len() > 0 && s.last() == c {
        s.subrange(0, s.len() - 1)
    } else {
        s
    }
}

/// What stands between the angle brackets of a tag, trimmed; none if the text is
/// not enclosed in angle brackets.
pub open spec fn tag_inner(tag: Seq<char>) -> Option<Seq<char>> {
    if tag.len() >= 2 && tag[0] == '<' && tag.last() == '>' {
        Some(trim(tag.subrange(1, tag.len() - 1)))
    } else {
        None
    }
}

/// Whether a tag is a closing one, and its name in lower case; none if it has no
/// name. A slash at the start makes it a closing tag, one at the end is ignored.
pub open spec fn name_of_tag(tag: Seq<char>) -> Option<(bool, Seq<char>)> {
    match tag_inner(tag) {
        None => None,
        Some(inner) => {
            let closing = inner.len() > 0 && inner[0] == '/';
            let named = trim(without_last(trim(without_first(inner, '/')), '/'));
            if named.len() == 0 {
                None
            } else {
                Some((closing, ascii_lower(first_word(named))))
            }
        },
    }
}

fn first_word_chars(s: &[char]) -> (word: &[char])
    ensures
        word@ == first_word(s@),
{
    let mut to: usize = 0;
    assert(s@.subrange(0, s@.len() as int) =~= s@);
    while to < s.len() && !is_whitespace(s[to])
        invariant
            to <= s@.len(),
            first_word(s@) =~= s@.subrange(0, to as int) + first_word(
                s@.subrange(to as int, s@.len() as int),
            ),
        decreases s@.len() - to,
    {
        assert(s@.subrange(to as int, s@.len() as int).subrange(1, s@.len() - to) =~= s@.subrange(
            to + 1,
            s@.len() as int,
        ));
        to += 1;
    }
    slice_subrange(s, 0, to)
}

/// Reads whether a tag is a closing one, and its name in lower case.
pub fn tag_name(tag: &str) -> (name: Option<(bool, String)>)
    ensures
        match name {
            Some((closing, text)) => name_of_tag(tag@) == Some((closing, text@)),
            None => name_of_tag(tag@) is None,
        },
{
    let chars = to_chars(tag);
    let len: usize = chars.len();
    if len < 2 || chars[0] != '<' || chars[len - 1] != '>' {
        return None;
    }
    let inner = trim_chars(slice_subrange(chars.as_slice(), 1, len - 1));
    let closing = inner.len() > 0 && inner[0] == '/';
    let opened = if closing {
        slice_subrange(inner, 1, inner.len())
    } else {
        inner
    };
    let opened = trim_chars(opened);
    let named = if opened.len() > 0 && opened[opened.len() - 1] == '/' {
        slice_subrange(opened, 0, opened.len() - 1)
    } else {
        opened
    };
    let named = trim_chars(named);
    if named.len() == 0 {
        return None;
    }
    Some((closing, from_chars(lower_chars(first_word_chars(named)).as_slice())))
}

} // verus!
