//! White space and line breaks of extracted text.

use vstd::prelude::*;
use vstd::slice::slice_subrange;

use crate::text::{
    find_char, find_char_pos, from_chars, is_whitespace, lemma_find_char, rest, to_chars, trim,
    trim_chars, trimmed, white_space,
};

verus! {

/// A text in which each line break is a line feed: a carriage return with a line
/// feed after it, and a carriage return alone, become one.
pub open spec fn unified(s: Seq<char>) -> Seq<char>
    decreases s.len(),
{
    if s.len() == 0 {
        s
    } else {
        let head = unified(s.drop_last());
        if s.last() == '\r' {
            head.push('\n')
        } else if s.last() == '\n' && s.len() > 1 && s[s.len() - 2] == '\r' {
            head
        } else {
            head.push(s.last())
        }
    }
}

/// The lines of the text from `from` on. A line feed ends a line; what follows
/// the last one is a line only if there is anything.
pub open spec fn lines_from(s: Seq<char>, from: int) -> Seq<Seq<char>>
    decreases s.len() - from,
    when 0 <= from
{
    if from >= s.len() {
        seq![]
    } else {
        match find_char(s, '\n', from) {
            None => seq![rest(s, from)],
            Some(end) => {
                proof {
                    lemma_find_char(s, '\n', from);
                }
                seq![s.subrange(from, end)] + lines_from(s, end + 1)
            },
        }
    }
}

/// A text with each run of white space replaced by one space.
pub open spec fn squeezed(s: Seq<char>) -> Seq<char>
    decreases s.len(),
{
    if s.len() == 0 {
        s
    } else {
        let head = squeezed(s.drop_last());
        if !white_space(s.last()) {
            head.push(s.last())
        } else if s.len() > 1 && white_space(s[s.len() - 2]) {
            head
        } else {
            head.push(' ')
        }
    }
}

/// A line without white space at its ends and with single spaces inside.
pub open spec fn line_normalized(line: Seq<char>) -> Seq<char> {
    squeezed(trim(line))
}

/// The lines without those that are empty after an empty line.
pub open spec fn kept_lines(lines: Seq<Seq<char>>) -> Seq<Seq<char>>
    decreases lines.len(),
{
    if lines.len() == 0 {
        lines
    } else if lines.last().len() == 0 && lines.len() > 1 && lines[lines.len() - 2].len() == 0 {
        kept_lines(lines.drop_last())
    } else {
        kept_lines(lines.drop_last()).push(lines.last())
    }
}

/// The lines with a line feed between each two.
pub open spec fn joined(lines: Seq<Seq<char>>) -> Seq<char>
    decreases lines.len(),
{
    if lines.len() == 0 {
        seq![]
    } else if lines.len() == 1 {
        lines[0]
    } else {
        joined(lines.drop_last()).push('\n') + lines.last()
    }
}

/// The lines joined, with at most one empty line in a row and without white
/// space at the ends.
pub open spec fn collapsed(lines: Seq<Seq<char>>) -> Seq<char> {
    trim(joined(kept_lines(lines)))
}

/// The lines of a text, each one normalized.
pub open spec fn normalized_lines(s: Seq<char>) -> Seq<Seq<char>> {
    lines_from(unified(s), 0).map_values(|line: Seq<char>| line_normalized(line))
}

/// A text with its lines normalized and its empty lines collapsed.
pub open spec fn normalized(s: Seq<char>) -> Seq<char> {
    collapsed(normalized_lines(s))
}

/// The views of a sequence of strings.
pub open spec fn texts(lines: Seq<String>) -> Seq<Seq<char>> {
    lines.map_values(|line: String| line@)
}

fn unify_newlines(s: &[char]) -> (out: Vec<char>)
    ensures
        out@ == unified(s@),
{
    let mut out: Vec<char> = Vec::new();
    for i in 0..s.len()
        invariant
            out@ == unified(s@.take(i as int)),
    {
        assert(s@.take(i + 1).drop_last() =~= s@.take(i as int));
        if s[i] == '\r' {
            out.push('\n');
        } else if s[i] == '\n' && i > 0 && s[i - 1] == '\r' {
            assert(s@.take(i + 1)[i - 1] == '\r');
        } else {
            out.push(s[i]);
        }
    }
    assert(s@.take(s@.len() as int) =~= s@);
    out
}

fn normalize_chars(line: &[char]) -> (out: String)
    ensures
        out@ == line_normalized(line@),
{
    let s = trim_chars(line);
    let mut out = String::new();
    let mut previous_space = false;
    for i in 0..s.len()
        invariant
            out@ == squeezed(s@.take(i as int)),
            previous_space == (i > 0 && white_space(s@[i - 1])),
    {
        assert(s@.take(i + 1).drop_last() =~= s@.take(i as int));
        assert(i > 0 ==> s@.take(i + 1)[i - 1] == s@[i - 1]);
        if is_whitespace(s[i]) {
            if !previous_space {
                out.push(' ');
            }
            previous_space = true;
        } else {
            out.push(s[i]);
            previous_space = false;
        }
    }
    assert(s@.take(s@.len() as int) =~= s@);
    out
}

/// Trims a line and replaces each run of white space in it by one space.
pub fn normalize_line(line: &str) -> (out: String)
    ensures
        out@ == line_normalized(line@),
{
    normalize_chars(to_chars(line).as_slice())
}

/// Joins lines with line feeds, keeps one empty line of several in a row, and
/// trims the result.
pub fn collapse_blank_lines(lines: &[String]) -> (out: String)
    ensures
        out@ == collapsed(texts(lines@)),
{
    let ghost all = texts(lines@);
    let mut out = String::new();
    let mut any = false;
    let mut previous_blank = false;
    for i in 0..lines.len()
        invariant
            all == texts(lines@),
            out@ == joined(kept_lines(all.take(i as int))),
            any == (kept_lines(all.take(i as int)).len() > 0),
            previous_blank == (i > 0 && all[i - 1].len() == 0),
    {
        let ghost kept = kept_lines(all.take(i as int));
        assert(all.take(i + 1).drop_last() =~= all.take(i as int));
        assert(all.take(i + 1).last() == lines@[i as int]@);
        assert(i > 0 ==> all.take(i + 1)[i - 1] == all[i - 1]);
        let blank = lines[i].as_str().is_empty();
        if !(blank && previous_blank) {
            assert(kept_lines(all.take(i + 1)) == kept.push(all[i as int]));
            assert(kept.push(all[i as int]).drop_last() =~= kept);
            if any {
                out.push('\n');
            }
            out.append(lines[i].as_str());
            assert(out@ =~= joined(kept.push(all[i as int])));
            any = true;
        }
        previous_blank = blank;
    }
    assert(all.take(all.len() as int) =~= all);
    trimmed(out.as_str())
}

/// Normalizes line breaks, the white space in each line, and empty lines.
pub fn normalize_text(input: &str) -> (out: String)
    ensures
        out@ == normalized(input@),
{
    let chars = to_chars(input);
    let unified_chars = unify_newlines(chars.as_slice());
    let s = unified_chars.as_slice();
    let len: usize = s.len();
    let mut lines: Vec<String> = Vec::new();
    let mut cursor: usize = 0;
    let ghost normal = |line: Seq<char>| line_normalized(line);
    assert(texts(lines@) + lines_from(s@, 0).map_values(normal) =~= normalized_lines(input@));
    while cursor < len
        invariant
            s@ == unified(input@),
            len == s@.len(),
            cursor <= len,
            normal == |line: Seq<char>| line_normalized(line),
            texts(lines@) + lines_from(s@, cursor as int).map_values(normal) == normalized_lines(
                input@,
            ),
        decreases len - cursor,
    {
        proof {
            lemma_find_char(s@, '\n', cursor as int);
        }
        let found = find_char_pos(s, '\n', cursor);
        let end: usize = match found {
            Some(end) => end,
            None => len,
        };
        let ghost before = texts(lines@);
        let line = slice_subrange(s, cursor, end);
        lines.push(normalize_chars(line));
        let ghost next: int = if found is Some {
            end + 1
        } else {
            len as int
        };
        assert(texts(lines@) =~= before.push(normal(line@)));
        assert(lines_from(s@, cursor as int) =~= seq![line@] + lines_from(s@, next));
        assert(texts(lines@) + lines_from(s@, next).map_values(normal) =~= before + lines_from(
            s@,
            cursor as int,
        ).map_values(normal));
        cursor = match found {
            Some(end) => end + 1,
            None => len,
        };
    }
    assert(texts(lines@) =~= normalized_lines(input@));
    collapse_blank_lines(lines.as_slice())
}

/// Cuts a text to a number of characters, and tells whether anything was cut
/// off.
pub fn truncate_content(content: &str, max_length: usize) -> (cut: (String, bool))
    ensures
        cut.1 == (content@.len() > max_length),
        cut.0@ == (if content@.len() > max_length {
            content@.take(max_length as int)
        } else {
            content@
        }),
{
    let chars = to_chars(content);
    if chars.len() <= max_length {
        return (from_chars(chars.as_slice()), false);
    }
    (from_chars(slice_subrange(chars.as_slice(), 0, max_length)), true)
}

} // verus!
