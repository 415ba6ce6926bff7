//! The attributes of a tag.

use vstd::prelude::*;
use vstd::slice::slice_subrange;

use crate::offsets::{char_position, to_char_position};
use crate::text::{
    ascii_lower, char_at, find_char, find_char_pos, from_chars, is_whitespace, lemma_find_char,
    lower_chars, matches_at, opt_string, rest, stands_at, to_chars, trim_start, trim_start_chars,
    white_space,
};

verus! {

/// The characters before which no attribute name goes on; the start of the tag
/// is such a place too.
pub open spec fn precedes_attribute(before: Option<char>) -> bool {
    match before {
        None => true,
        Some(c) => c == '<' || c == ' ' || c == '\n' || c == '\r' || c == '\t',
    }
}

/// Tests whether an attribute name can begin after the given character.
pub fn is_attribute_boundary(before: Option<char>) -> (boundary: bool)
    ensures
        boundary == precedes_attribute(before),
{
    match before {
        None => true,
        Some(c) => c == '<' || c == ' ' || c == '\n' || c == '\r' || c == '\t',
    }
}

/// Whether the `name_len` characters at a position are a whole attribute name.
pub open spec fn is_whole_name(s: Seq<char>, start: int, name_len: int) -> bool {
    &&& precedes_attribute(char_at(s, start - 1))
    &&& char_at(s, start + name_len) matches Some(c) && (c == '=' || c == ' ' || c == '\t')
}

/// Tests whether the `name_len` characters at a position are a whole attribute
/// name.
pub fn is_attribute_start(chars: &[char], start: usize, name_len: usize) -> (b: bool)
    requires
        start + name_len <= usize::MAX,
    ensures
        b == is_whole_name(chars@, start as int, name_len as int),
{
    let before = if start > 0 && start - 1 < chars.len() {
        Some(chars[start - 1])
    } else {
        None
    };
    let after = if start + name_len < chars.len() {
        Some(chars[start + name_len])
    } else {
        None
    };
    is_attribute_boundary(before) && match after {
        Some(c) => c == '=' || c == ' ' || c == '\t',
        None => false,
    }
}

/// The first position, from `from` on, at which an attribute of the given name
/// begins, in a tag that is in lower case.
pub open spec fn attribute_position(lower: Seq<char>, name: Seq<char>, from: int) -> Option<int>
    decreases lower.len() - from + 1,
{
    if from + name.len() > lower.len() {
        None
    } else if matches_at(lower, name, from) && is_whole_name(lower, from, name.len() as int) {
        Some(from)
    } else {
        attribute_position(lower, name, from + 1)
    }
}

/// The position at which an unquoted value ends: before white space or `>`, or at
/// the end.
pub open spec fn bare_value_end(s: Seq<char>, from: int) -> int
    decreases s.len() - from,
{
    if from >= s.len() || white_space(s[from]) || s[from] == '>' {
        from
    } else {
        bare_value_end(s, from + 1)
    }
}

/// The value that follows an attribute name: after an equals sign, what stands
/// in quotes, or what stands before white space or `>`. There is none without
/// the equals sign, without anything after it, or with a quote left open.
pub open spec fn value_after_name(after: Seq<char>) -> Option<Seq<char>> {
    let assigned = trim_start(after);
    if assigned.len() == 0 || assigned[0] != '=' {
        None
    } else {
        let value = trim_start(rest(assigned, 1));
        if value.len() == 0 {
            None
        } else if value[0] == '"' || value[0] == '\'' {
            match find_char(value, value[0], 1) {
                None => None,
                Some(end) => Some(value.subrange(1, end)),
            }
        } else {
            Some(value.subrange(0, bare_value_end(value, 0)))
        }
    }
}

/// The value of the attribute of the given name, if the tag has that attribute
/// with a value. The name is looked for in the lower case of the tag; the first
/// place where it stands decides.
pub open spec fn attribute_of(tag: Seq<char>, name: Seq<char>) -> Option<Seq<char>> {
    match attribute_position(ascii_lower(tag), name, 0) {
        None => None,
        Some(start) => value_after_name(rest(tag, start + name.len())),
    }
}

fn find_attribute(lower: &[char], name: &[char]) -> (found: Option<usize>)
    ensures
        match found {
            Some(start) => {
                &&& attribute_position(lower@, name@, 0) == Some(start as int)
                &&& start + name@.len() <= lower@.len()
            },
            None => attribute_position(lower@, name@, 0) is None,
        },
{
    let len: usize = lower.len();
    let mut start: usize = 0;
    loop
        invariant
            len == lower@.len(),
            start <= len + 1,
            attribute_position(lower@, name@, 0) == attribute_position(
                lower@,
                name@,
                start as int,
            ),
        decreases len + 1 - start,
    {
        if start > len || name.len() > len - start {
            return None;
        }
        if stands_at(lower, name, start) && is_attribute_start(lower, start, name.len()) {
            return Some(start);
        }
        if start == len {
            return None;
        }
        start += 1;
    }
}

fn find_value_end(s: &[char]) -> (end: usize)
    ensures
        end <= s@.len(),
        end == bare_value_end(s@, 0),
{
    let mut end: usize = 0;
    while end < s.len() && !is_whitespace(s[end]) && s[end] != '>'
        invariant
            end <= s@.len(),
            bare_value_end(s@, 0) == bare_value_end(s@, end as int),
        decreases s@.len() - end,
    {
        end += 1;
    }
    end
}

/// Reads the value that follows an attribute name.
pub fn read_value(after: &[char]) -> (value: Option<String>)
    ensures
        opt_string(value) == value_after_name(after@),
{
    let assigned = trim_start_chars(after);
    if assigned.len() == 0 || assigned[0] != '=' {
        return None;
    }
    let value = trim_start_chars(slice_subrange(assigned, 1, assigned.len()));
    if value.len() == 0 {
        return None;
    }
    let quote = value[0];
    if quote == '"' || quote == '\'' {
        proof {
            lemma_find_char(value@, quote, 1);
        }
        return match find_char_pos(value, quote, 1) {
            None => None,
            Some(end) => Some(from_chars(slice_subrange(value, 1, end))),
        };
    }
    let end: usize = find_value_end(value);
    Some(from_chars(slice_subrange(value, 0, end)))
}

/// Reads the value of an attribute whose name ends at a byte offset of the tag;
/// none if the offset falls inside a character or past the end of the tag.
pub fn parse_attribute_value(tag: &str, start: usize) -> (value: Option<String>)
    ensures
        opt_string(value) == match char_position(tag@, start as int) {
            None => None,
            Some(from) => value_after_name(rest(tag@, from)),
        },
{
    let chars = to_chars(tag);
    match to_char_position(tag, chars.as_slice(), start) {
        None => None,
        Some(from) => read_value(slice_subrange(chars.as_slice(), from, chars.len())),
    }
}

/// Reads the value of the attribute of the given name.
pub fn attribute_value(tag: &str, name: &str) -> (value: Option<String>)
    ensures
        opt_string(value) == attribute_of(tag@, name@),
{
    let chars = to_chars(tag);
    let lower = lower_chars(chars.as_slice());
    let name = to_chars(name);
    let len: usize = chars.len();
    match find_attribute(lower.as_slice(), name.as_slice()) {
        None => None,
        Some(start) => {
            assert(start + name@.len() <= len);
            let from: usize = start + name.len();
            read_value(slice_subrange(chars.as_slice(), from, len))
        },
    }
}

} // verus!
