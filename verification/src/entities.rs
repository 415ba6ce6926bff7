//! Character references of a document: named ones and numeric ones.

use vstd::prelude::*;
use vstd::slice::slice_subrange;

use crate::text::{
    find_char, find_char_pos, has_prefix, is_scalar_value, lemma_find_char, number_value,
    parse_number, push_range, rest, same_text, starts_with, to_chars,
};

verus! {

/// The character whose code a text denotes in the given number system.
pub open spec fn code_char(digits: Seq<char>, radix: nat) -> Option<char> {
    match number_value(digits, radix, u32::MAX as nat) {
        None => None,
        Some(code) => if is_scalar_value(code as u32) {
            Some(code as char)
        } else {
            None
        },
    }
}

/// The character of a numeric reference: `#x` or `#X` and hexadecimal digits, or
/// `#` and decimal ones.
pub open spec fn numeric_entity(entity: Seq<char>) -> Option<char> {
    if has_prefix(entity, "#x"@) || has_prefix(entity, "#X"@) {
        code_char(rest(entity, 2), 16)
    } else if has_prefix(entity, "#"@) {
        code_char(rest(entity, 1), 10)
    } else {
        None
    }
}

/// The character that a reference stands for, given what is between the
/// ampersand and the semicolon.
pub open spec fn entity_char(entity: Seq<char>) -> Option<char> {
    if entity == "nbsp"@ {
        Some(' ')
    } else if entity == "#39"@ || entity == "apos"@ {
        Some('\'')
    } else if entity == "quot"@ {
        Some('"')
    } else if entity == "gt"@ {
        Some('>')
    } else if entity == "lt"@ {
        Some('<')
    } else if entity == "amp"@ {
        Some('&')
    } else {
        numeric_entity(entity)
    }
}

/// What a reference becomes: its character, or itself if it stands for none.
pub open spec fn entity_text(s: Seq<char>, start: int, end: int) -> Seq<char> {
    match entity_char(s.subrange(start + 1, end)) {
        Some(c) => seq![c],
        None => s.subrange(start, end + 1),
    }
}

/// The text from `from` on with its references decoded. A reference goes from an
/// ampersand to the next semicolon; after an ampersand without one, the text
/// stays as it is.
pub open spec fn entities_decoded(s: Seq<char>, from: int) -> Seq<char>
    decreases s.len() - from,
    when 0 <= from
{
    match find_char(s, '&', from) {
        None => rest(s, from),
        Some(start) => match find_char(s, ';', start) {
            None => rest(s, from),
            Some(end) => {
                proof {
                    lemma_find_char(s, '&', from);
                    lemma_find_char(s, ';', start);
                }
                s.subrange(from, start) + entity_text(s, start, end) + entities_decoded(s, end + 1)
            },
        },
    }
}

fn char_of_code(digits: &[char], radix: u32) -> (c: Option<char>)
    requires
        2 <= radix <= 36,
    ensures
        c == code_char(digits@, radix as nat),
{
    match parse_number(digits, radix, u32::MAX as u64) {
        None => None,
        Some(code) => char::from_u32(code as u32),
    }
}

fn numeric_entity_char(entity: &[char]) -> (c: Option<char>)
    ensures
        c == numeric_entity(entity@),
{
    proof {
        reveal_strlit("#x");
        reveal_strlit("#X");
        reveal_strlit("#");
    }
    if starts_with(entity, "#x") || starts_with(entity, "#X") {
        char_of_code(slice_subrange(entity, 2, entity.len()), 16)
    } else if starts_with(entity, "#") {
        char_of_code(slice_subrange(entity, 1, entity.len()), 10)
    } else {
        None
    }
}

/// Decodes a numeric reference.
pub fn decode_numeric_entity(entity: &str) -> (c: Option<char>)
    ensures
        c == numeric_entity(entity@),
{
    numeric_entity_char(to_chars(entity).as_slice())
}

fn char_of_entity(entity: &[char]) -> (c: Option<char>)
    ensures
        c == entity_char(entity@),
{
    if same_text(entity, "nbsp") {
        Some(' ')
    } else if same_text(entity, "#39") || same_text(entity, "apos") {
        Some('\'')
    } else if same_text(entity, "quot") {
        Some('"')
    } else if same_text(entity, "gt") {
        Some('>')
    } else if same_text(entity, "lt") {
        Some('<')
    } else if same_text(entity, "amp") {
        Some('&')
    } else {
        numeric_entity_char(entity)
    }
}

/// Decodes a reference, given what is between the ampersand and the semicolon.
pub fn decode_html_entity(entity: &str) -> (c: Option<char>)
    ensures
        c == entity_char(entity@),
{
    char_of_entity(to_chars(entity).as_slice())
}

/// Decodes the references of a text.
pub fn decode_html_entities(input: &str) -> (decoded: String)
    ensures
        decoded@ == entities_decoded(input@, 0),
{
    let chars = to_chars(input);
    let s = chars.as_slice();
    let len: usize = s.len();
    let mut result = String::new();
    let mut cursor: usize = 0;
    assert(result@ + entities_decoded(s@, 0) =~= entities_decoded(s@, 0));
    loop
        invariant
            s@ == input@,
            len == s@.len(),
            cursor <= len,
            result@ + entities_decoded(s@, cursor as int) == entities_decoded(s@, 0),
        decreases len - cursor,
    {
        proof {
            lemma_find_char(s@, '&', cursor as int);
        }
        let start: usize = match find_char_pos(s, '&', cursor) {
            Some(start) => start,
            None => {
                push_range(&mut result, s, cursor, len);
                return result;
            },
        };
        proof {
            lemma_find_char(s@, ';', start as int);
        }
        let end: usize = match find_char_pos(s, ';', start) {
            Some(end) => end,
            None => {
                push_range(&mut result, s, cursor, len);
                return result;
            },
        };
        let ghost before = result@;
        push_range(&mut result, s, cursor, start);
        match char_of_entity(slice_subrange(s, start + 1, end)) {
            Some(c) => {
                result.push(c);
            },
            None => {
                push_range(&mut result, s, start, end + 1);
            },
        }
        assert(result@ =~= before + (s@.subrange(cursor as int, start as int) + entity_text(
            s@,
            start as int,
            end as int,
        )));
        assert(result@ + entities_decoded(s@, end + 1) =~= before + entities_decoded(
            s@,
            cursor as int,
        ));
        cursor = end + 1;
    }
}

} // verus!
