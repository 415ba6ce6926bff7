//! Laws of trimming and of normalized text.

use vstd::prelude::*;

use crate::laws::search::lemma_find_char_behind;
use crate::normalize::{
    joined, kept_lines, line_normalized, lines_from, normalized, normalized_lines, squeezed,
    unified,
};
use crate::text::{find_char, lemma_find_char, rest, trim, trim_end, trim_start, white_space};

verus! {

/// Whether a text neither begins nor ends with white space.
pub open spec fn is_trimmed(s: Seq<char>) -> bool {
    s.len() > 0 ==> !white_space(s[0]) && !white_space(s.last())
}

proof fn lemma_trim_start(s: Seq<char>)
    ensures
        trim_start(s).len() > 0 ==> !white_space(trim_start(s)[0]),
        trim_start(s).len() > 0 ==> trim_start(s).last() == s.last(),
        trim_start(s).len() <= s.len(),
        trim_start(s) == s.subrange(s.len() - trim_start(s).len(), s.len() as int),
    decreases s.len(),
{
    if s.len() > 0 && white_space(s[0]) {
        let tail = s.subrange(1, s.len() as int);
        lemma_trim_start(tail);
        assert(trim_start(s) =~= s.subrange(s.len() - trim_start(s).len(), s.len() as int));
    } else {
        assert(s.subrange(0, s.len() as int) =~= s);
    }
}

proof fn lemma_trim_end(s: Seq<char>)
    ensures
        trim_end(s).len() > 0 ==> !white_space(trim_end(s).last()),
        trim_end(s).len() > 0 ==> trim_end(s)[0] == s[0],
        trim_end(s).len() <= s.len(),
        trim_end(s) == s.subrange(0, trim_end(s).len() as int),
    decreases s.len(),
{
    if s.len() > 0 && white_space(s.last()) {
        lemma_trim_end(s.drop_last());
        assert(trim_end(s) =~= s.subrange(0, trim_end(s).len() as int));
    } else {
        assert(s.subrange(0, s.len() as int) =~= s);
    }
}

/// A trimmed text neither begins nor ends with white space.
pub proof fn trimmed_text_has_bare_ends(s: Seq<char>)
    ensures
        is_trimmed(trim(s)),
{
    lemma_trim_start(s);
    lemma_trim_end(trim_start(s));
}

/// A text that neither begins nor ends with white space is not changed by
/// trimming; so trimming twice is the same as trimming once.
pub proof fn bare_text_is_trimmed(s: Seq<char>)
    requires
        is_trimmed(s),
    ensures
        trim(s) == s,
{
}

/// A line as normalization leaves it: no white space at its ends, and inside it
/// only single spaces.
pub open spec fn is_clean_line(line: Seq<char>) -> bool {
    &&& is_trimmed(line)
    &&& forall|i: int| 0 <= i < line.len() && white_space(#[trigger] line[i]) ==> line[i] == ' '
    &&& forall|i: int|
        0 < i < line.len() && white_space(#[trigger] line[i]) ==> !white_space(line[i - 1])
}

proof fn lemma_squeezed(s: Seq<char>)
    ensures
        s.len() > 0 ==> squeezed(s).len() > 0,
        s.len() > 0 && !white_space(s[0]) ==> squeezed(s)[0] == s[0],
        s.len() > 0 && !white_space(s.last()) ==> squeezed(s).last() == s.last(),
        s.len() > 0 && white_space(s.last()) ==> squeezed(s).last() == ' ',
        squeezed(s).len() <= s.len(),
        forall|i: int|
            0 <= i < squeezed(s).len() && white_space(#[trigger] squeezed(s)[i]) ==> squeezed(s)[i]
                == ' ',
        forall|i: int|
            0 < i < squeezed(s).len() && white_space(#[trigger] squeezed(s)[i]) ==> !white_space(
                squeezed(s)[i - 1],
            ),
    decreases s.len(),
{
    if s.len() > 0 {
        let head = squeezed(s.drop_last());
        lemma_squeezed(s.drop_last());
        let last = s.last();
        if !white_space(last) {
            assert(squeezed(s) == head.push(last));
        } else if s.len() > 1 && white_space(s[s.len() - 2]) {
            assert(s.drop_last().last() == s[s.len() - 2]);
            assert(squeezed(s) == head);
        } else {
            assert(squeezed(s) == head.push(' '));
            if s.len() > 1 {
                assert(s.drop_last().last() == s[s.len() - 2]);
                assert(head.last() == s[s.len() - 2]);
            }
        }
    }
}

/// A normalized line is clean.
pub proof fn normalized_line_is_clean(line: Seq<char>)
    ensures
        is_clean_line(line_normalized(line)),
{
    trimmed_text_has_bare_ends(line);
    lemma_squeezed(trim(line));
}

proof fn lemma_squeezed_same(s: Seq<char>)
    requires
        forall|i: int| 0 <= i < s.len() && white_space(#[trigger] s[i]) ==> s[i] == ' ',
        forall|i: int| 0 < i < s.len() && white_space(#[trigger] s[i]) ==> !white_space(s[i - 1]),
    ensures
        squeezed(s) == s,
    decreases s.len(),
{
    if s.len() > 0 {
        lemma_squeezed_same(s.drop_last());
        assert(s.drop_last().push(s.last()) =~= s);
        assert(s[s.len() - 1] == s.last());
    }
}

/// A clean line is not changed by normalization; so normalizing a line twice is
/// the same as normalizing it once.
pub proof fn clean_line_is_kept(line: Seq<char>)
    requires
        is_clean_line(line),
    ensures
        line_normalized(line) == line,
{
    bare_text_is_trimmed(line);
    lemma_squeezed_same(line);
}

/// Whether lines are as normalization leaves them: each one clean, and no two
/// empty ones in a row.
pub open spec fn are_clean_lines(lines: Seq<Seq<char>>) -> bool {
    &&& forall|i: int| 0 <= i < lines.len() ==> is_clean_line(#[trigger] lines[i])
    &&& forall|i: int|
        0 < i < lines.len() && (#[trigger] lines[i]).len() == 0 ==> lines[i - 1].len() > 0
}

proof fn lemma_kept_lines(lines: Seq<Seq<char>>)
    requires
        forall|i: int| 0 <= i < lines.len() ==> is_clean_line(#[trigger] lines[i]),
    ensures
        are_clean_lines(kept_lines(lines)),
        lines.len() > 0 ==> kept_lines(lines).len() > 0 && kept_lines(lines).last()
            == lines.last(),
    decreases lines.len(),
{
    if lines.len() > 0 {
        let head = kept_lines(lines.drop_last());
        lemma_kept_lines(lines.drop_last());
        assert(is_clean_line(lines[lines.len() - 1]));
        if lines.len() > 1 {
            assert(lines.drop_last().last() == lines[lines.len() - 2]);
        }
        if lines.last().len() == 0 && lines.len() > 1 && lines[lines.len() - 2].len() == 0 {
            assert(kept_lines(lines) == head);
            assert(lines.last() =~= lines[lines.len() - 2]);
        } else {
            assert(kept_lines(lines) == head.push(lines.last()));
        }
    }
}

proof fn lemma_kept_same(lines: Seq<Seq<char>>)
    requires
        are_clean_lines(lines),
    ensures
        kept_lines(lines) == lines,
    decreases lines.len(),
{
    if lines.len() > 0 {
        assert(are_clean_lines(lines.drop_last())) by {
            assert forall|i: int| 0 <= i < lines.drop_last().len() implies is_clean_line(
                #[trigger] lines.drop_last()[i],
            ) by {
                assert(is_clean_line(lines[i]));
            }
            assert forall|i: int|
                0 < i < lines.drop_last().len() && (
                #[trigger] lines.drop_last()[i]).len() == 0 implies lines.drop_last()[i
                - 1].len() > 0 by {
                assert(lines[i].len() == 0);
            }
        }
        lemma_kept_same(lines.drop_last());
        assert(lines[lines.len() - 1] == lines.last());
        assert(lines.drop_last().push(lines.last()) =~= lines);
    }
}

/// The first of several joined lines stands before the others.
pub proof fn lemma_joined_front(lines: Seq<Seq<char>>)
    requires
        lines.len() > 1,
    ensures
        joined(lines) == lines[0].push('\n') + joined(lines.subrange(1, lines.len() as int)),
    decreases lines.len(),
{
    let tail = lines.subrange(1, lines.len() as int);
    if lines.len() == 2 {
        assert(joined(lines.drop_last()) == lines[0]);
        assert(joined(tail) == lines[1]);
    } else {
        lemma_joined_front(lines.drop_last());
        assert(lines.drop_last().subrange(1, lines.len() - 1) =~= tail.drop_last());
        assert(joined(lines) =~= lines[0].push('\n') + joined(tail));
    }
}

/// The lines behind a prefix are those of the text without the prefix.
pub proof fn lemma_lines_shift(p: Seq<char>, q: Seq<char>, from: int)
    requires
        0 <= from,
    ensures
        lines_from(p + q, p.len() + from) == lines_from(q, from),
    decreases q.len() - from,
{
    let s = p + q;
    if from < q.len() {
        lemma_find_char_behind(p, q, '\n', from);
        lemma_find_char(q, '\n', from);
        match find_char(q, '\n', from) {
            Some(end) => {
                lemma_lines_shift(p, q, end + 1);
                assert(s.subrange(p.len() + from, p.len() + end) =~= q.subrange(from, end));
            },
            None => {
                assert(rest(s, p.len() + from) =~= rest(q, from));
            },
        }
    }
}

proof fn lemma_find_newline(line: Seq<char>, tail: Seq<char>, from: int)
    requires
        0 <= from <= line.len(),
        forall|i: int| 0 <= i < line.len() ==> line[i] != '\n',
    ensures
        find_char(line.push('\n') + tail, '\n', from) == Some(line.len() as int),
        find_char(line, '\n', from) is None,
    decreases line.len() - from,
{
    if from < line.len() {
        lemma_find_newline(line, tail, from + 1);
    }
}

proof fn lemma_clean_has_no_breaks(line: Seq<char>)
    requires
        is_clean_line(line),
    ensures
        forall|i: int| 0 <= i < line.len() ==> #[trigger] line[i] != '\n' && line[i] != '\r',
{
    assert forall|i: int| 0 <= i < line.len() implies #[trigger] line[i] != '\n' && line[i]
        != '\r' by {
        assert(white_space(line[i]) ==> line[i] == ' ');
    }
}

proof fn lemma_clean_tail(lines: Seq<Seq<char>>)
    requires
        are_clean_lines(lines),
        lines.len() > 0,
    ensures
        are_clean_lines(lines.subrange(1, lines.len() as int)),
        are_clean_lines(lines.drop_last()),
{
    let tail = lines.subrange(1, lines.len() as int);
    let head = lines.drop_last();
    assert forall|i: int| 0 <= i < tail.len() implies is_clean_line(#[trigger] tail[i]) by {
        assert(is_clean_line(lines[i + 1]));
    }
    assert forall|i: int| 0 < i < tail.len() && (#[trigger] tail[i]).len() == 0 implies tail[i
        - 1].len() > 0 by {
        assert(lines[i + 1].len() == 0);
    }
    assert forall|i: int| 0 <= i < head.len() implies is_clean_line(#[trigger] head[i]) by {
        assert(is_clean_line(lines[i]));
    }
    assert forall|i: int| 0 < i < head.len() && (#[trigger] head[i]).len() == 0 implies head[i
        - 1].len() > 0 by {
        assert(lines[i].len() == 0);
    }
}

proof fn lemma_lines_of_joined(lines: Seq<Seq<char>>)
    requires
        are_clean_lines(lines),
        lines.len() > 0 ==> lines.last().len() > 0,
    ensures
        lines_from(joined(lines), 0) == lines,
    decreases lines.len(),
{
    let s = joined(lines);
    if lines.len() == 0 {
        assert(lines_from(s, 0) =~= lines);
    } else if lines.len() == 1 {
        assert(is_clean_line(lines[0]));
        lemma_clean_has_no_breaks(lines[0]);
        lemma_find_newline(lines[0], seq![], 0);
        assert(rest(s, 0) =~= lines[0]);
        assert(lines_from(s, 0) =~= lines);
    } else {
        let tail = lines.subrange(1, lines.len() as int);
        let first = lines[0].push('\n');
        lemma_joined_front(lines);
        lemma_clean_tail(lines);
        assert(tail.last() == lines.last());
        lemma_lines_of_joined(tail);
        assert(is_clean_line(lines[0]));
        lemma_clean_has_no_breaks(lines[0]);
        lemma_find_newline(lines[0], joined(tail), 0);
        lemma_lines_shift(first, joined(tail), 0);
        assert(s.subrange(0, lines[0].len() as int) =~= lines[0]);
        assert(lines_from(s, 0) =~= lines);
    }
}

proof fn lemma_joined_chars(lines: Seq<Seq<char>>)
    requires
        are_clean_lines(lines),
    ensures
        forall|i: int|
            0 <= i < joined(lines).len() ==> #[trigger] joined(lines)[i] != '\r' && (white_space(
                joined(lines)[i],
            ) ==> joined(lines)[i] == ' ' || joined(lines)[i] == '\n'),
        lines.len() > 0 && lines[0].len() > 0 ==> joined(lines).len() > 0 && joined(lines)[0]
            == lines[0][0],
        lines.len() > 0 && lines.last().len() > 0 ==> joined(lines).len() > 0 && joined(
            lines,
        ).last() == lines.last().last(),
    decreases lines.len(),
{
    if lines.len() > 0 {
        lemma_clean_tail(lines);
        assert(is_clean_line(lines[lines.len() - 1]));
        lemma_clean_has_no_breaks(lines.last());
        if lines.len() > 1 {
            let head = joined(lines.drop_last());
            lemma_joined_chars(lines.drop_last());
            assert(joined(lines) == head.push('\n') + lines.last());
            if lines[0].len() > 0 {
                assert(lines.drop_last()[0] == lines[0]);
                assert(joined(lines)[0] == head[0]);
            }
            assert forall|i: int| 0 <= i < joined(lines).len() implies #[trigger] joined(lines)[i]
                != '\r' && (white_space(joined(lines)[i]) ==> joined(lines)[i] == ' '
                || joined(lines)[i] == '\n') by {
                if i < head.len() {
                    assert(joined(lines)[i] == head[i]);
                } else if i > head.len() {
                    assert(joined(lines)[i] == lines.last()[i - head.len() - 1]);
                }
            }
        }
    }
}

/// Lines without an empty one at the start.
pub open spec fn without_first_blank(lines: Seq<Seq<char>>) -> Seq<Seq<char>> {
    if lines.len() > 0 && lines[0].len() == 0 {
        lines.subrange(1, lines.len() as int)
    } else {
        lines
    }
}

/// Lines without an empty one at the end.
pub open spec fn without_last_blank(lines: Seq<Seq<char>>) -> Seq<Seq<char>> {
    if lines.len() > 0 && lines.last().len() == 0 {
        lines.drop_last()
    } else {
        lines
    }
}

proof fn lemma_trim_joined(lines: Seq<Seq<char>>)
    requires
        are_clean_lines(lines),
    ensures
        ({
            let bare = without_last_blank(without_first_blank(lines));
            &&& are_clean_lines(bare)
            &&& bare.len() > 0 ==> bare[0].len() > 0 && bare.last().len() > 0
            &&& trim(joined(lines)) == joined(bare)
        }),
{
    let s = joined(lines);
    let first = without_first_blank(lines);
    if lines.len() > 0 {
        lemma_clean_tail(lines);
        assert(is_clean_line(lines[0]));
    }
    lemma_joined_chars(lines);
    if lines.len() > 1 && lines[0].len() == 0 {
        lemma_joined_front(lines);
        assert(lines[1].len() > 0) by {
            if lines[1].len() == 0 {
                assert(lines[0].len() > 0);
            }
        }
        lemma_joined_chars(first);
        assert(first[0] == lines[1]);
        assert(is_clean_line(first[0]));
        assert(s.subrange(1, s.len() as int) =~= joined(first));
        assert(s[0] == '\n');
        assert(trim_start(s) == trim_start(joined(first)));
    } else if lines.len() == 1 && lines[0].len() == 0 {
        assert(s =~= joined(first));
    }
    assert(trim_start(s) == joined(first));
    let t = joined(first);
    let bare = without_last_blank(first);
    lemma_joined_chars(first);
    if first.len() > 0 {
        lemma_clean_tail(first);
        assert(is_clean_line(first[first.len() - 1]));
        if first.last().len() == 0 {
            assert(first.len() > 1);
            assert(first[first.len() - 1].len() == 0);
            assert(bare.last() == first[first.len() - 2]);
            lemma_joined_chars(bare);
            assert(is_clean_line(bare[bare.len() - 1]));
            assert(t.drop_last() =~= joined(bare));
            assert(t.last() == '\n');
            assert(trim_end(t) == trim_end(joined(bare)));
        }
    }
    assert(trim_end(t) == joined(bare));
    if bare.len() > 0 {
        assert(bare[0] == first[0]);
    }
}

proof fn lemma_unified_same(s: Seq<char>)
    requires
        forall|i: int| 0 <= i < s.len() ==> s[i] != '\r',
    ensures
        unified(s) == s,
    decreases s.len(),
{
    if s.len() > 0 {
        lemma_unified_same(s.drop_last());
        assert(s.drop_last().push(s.last()) =~= s);
    }
}

/// The lines that a normalized text consists of.
pub open spec fn bare_lines(s: Seq<char>) -> Seq<Seq<char>> {
    without_last_blank(without_first_blank(kept_lines(normalized_lines(s))))
}

/// A normalized text consists of clean lines, with at most one empty line in a
/// row and with none at its ends.
pub proof fn normalized_text_consists_of_clean_lines(s: Seq<char>)
    ensures
        normalized(s) == joined(bare_lines(s)),
        are_clean_lines(bare_lines(s)),
        bare_lines(s).len() > 0 ==> bare_lines(s)[0].len() > 0 && bare_lines(s).last().len() > 0,
{
    let lines = normalized_lines(s);
    assert forall|i: int| 0 <= i < lines.len() implies is_clean_line(#[trigger] lines[i]) by {
        normalized_line_is_clean(lines_from(unified(s), 0)[i]);
    }
    lemma_kept_lines(lines);
    lemma_trim_joined(kept_lines(lines));
}

/// A normalized text begins and ends with a visible character, and the only
/// white space in it is spaces and line feeds.
pub proof fn normalized_text_has_plain_spaces(s: Seq<char>)
    ensures
        is_trimmed(normalized(s)),
        forall|i: int|
            0 <= i < normalized(s).len() && white_space(#[trigger] normalized(s)[i])
                ==> normalized(s)[i] == ' ' || normalized(s)[i] == '\n',
{
    normalized_text_consists_of_clean_lines(s);
    lemma_joined_chars(bare_lines(s));
    trimmed_text_has_bare_ends(joined(kept_lines(normalized_lines(s))));
}

/// Normalizing a text twice is the same as normalizing it once.
pub proof fn normalizing_twice_changes_nothing(s: Seq<char>)
    ensures
        normalized(normalized(s)) == normalized(s),
{
    let t = normalized(s);
    let lines = bare_lines(s);
    normalized_text_consists_of_clean_lines(s);
    lemma_joined_chars(lines);
    lemma_unified_same(t);
    lemma_lines_of_joined(lines);
    assert(normalized_lines(t) =~= lines) by {
        assert forall|i: int| 0 <= i < lines.len() implies normalized_lines(t)[i]
            == lines[i] by {
            assert(is_clean_line(lines[i]));
            clean_line_is_kept(lines[i]);
        }
    }
    lemma_kept_same(lines);
    normalized_text_has_plain_spaces(s);
    bare_text_is_trimmed(t);
}

proof fn lemma_lines_then(lines: Seq<Seq<char>>, tail: Seq<char>)
    requires
        are_clean_lines(lines),
        lines.len() > 0,
    ensures
        lines_from(joined(lines).push('\n') + tail, 0) == lines + lines_from(tail, 0),
    decreases lines.len(),
{
    let s = joined(lines).push('\n') + tail;
    let first = lines[0].push('\n');
    assert(is_clean_line(lines[0]));
    lemma_clean_has_no_breaks(lines[0]);
    if lines.len() == 1 {
        lemma_find_newline(lines[0], tail, 0);
        lemma_lines_shift(first, tail, 0);
        assert(s.subrange(0, lines[0].len() as int) =~= lines[0]);
        assert(lines_from(s, 0) =~= lines + lines_from(tail, 0));
    } else {
        let later = lines.subrange(1, lines.len() as int);
        let q = joined(later).push('\n') + tail;
        lemma_clean_tail(lines);
        lemma_lines_then(later, tail);
        lemma_joined_front(lines);
        assert(s =~= first + q);
        lemma_find_newline(lines[0], q, 0);
        lemma_lines_shift(first, q, 0);
        assert(s.subrange(0, lines[0].len() as int) =~= lines[0]);
        assert(lines_from(s, 0) =~= lines + lines_from(tail, 0));
    }
}

/// A number of line feeds.
pub open spec fn line_feeds(count: nat) -> Seq<char> {
    Seq::new(count, |i: int| '\n')
}

/// An empty line, or none.
spec fn blank_line(present: bool) -> Seq<Seq<char>> {
    if present {
        seq![Seq::<char>::empty()]
    } else {
        seq![]
    }
}

proof fn lemma_blank_lines()
    ensures
        lines_from(line_feeds(0), 0) == blank_line(false),
        lines_from(line_feeds(1), 0) == blank_line(true),
{
    let feed = line_feeds(1);
    assert(feed[0] == '\n');
    assert(find_char(feed, '\n', 0) == Some(0int));
    assert(feed.subrange(0, 0) =~= Seq::<char>::empty());
    assert(lines_from(feed, 1) =~= Seq::<Seq<char>>::empty());
    assert(lines_from(feed, 0) =~= blank_line(true));
}

proof fn lemma_lines_below(lines: Seq<Seq<char>>, after: nat)
    requires
        after <= 2,
        are_clean_lines(lines),
        lines.len() > 0,
        lines.last().len() > 0,
    ensures
        lines_from(joined(lines) + line_feeds(after), 0) == lines + blank_line(after == 2),
{
    let text = joined(lines);
    if after == 0 {
        lemma_lines_of_joined(lines);
        assert(text + line_feeds(after) =~= text);
        assert(lines + blank_line(false) =~= lines);
    } else {
        let tail = line_feeds((after - 1) as nat);
        assert(text + line_feeds(after) =~= text.push('\n') + tail);
        lemma_lines_then(lines, tail);
        lemma_blank_lines();
    }
}

proof fn lemma_lines_above(before: nat, q: Seq<char>)
    requires
        before <= 1,
    ensures
        lines_from(line_feeds(before) + q, 0) == blank_line(before == 1) + lines_from(q, 0),
{
    let s = line_feeds(before) + q;
    if before == 1 {
        assert(s[0] == '\n');
        assert(find_char(s, '\n', 0) == Some(0int));
        lemma_lines_shift(line_feeds(1), q, 0);
        assert(s.subrange(0, 0) =~= Seq::<char>::empty());
    } else {
        assert(s =~= q);
        assert(blank_line(false) + lines_from(q, 0) =~= lines_from(q, 0));
    }
}

proof fn lemma_normalized_of_lines(s: Seq<char>, lines: Seq<Seq<char>>)
    requires
        forall|i: int| 0 <= i < s.len() ==> s[i] != '\r',
        are_clean_lines(lines),
        lines_from(s, 0) == lines,
    ensures
        normalized(s) == joined(without_last_blank(without_first_blank(lines))),
{
    lemma_unified_same(s);
    assert forall|i: int| 0 <= i < lines.len() implies normalized_lines(s)[i] == lines[i] by {
        assert(is_clean_line(lines[i]));
        clean_line_is_kept(lines[i]);
    }
    assert(normalized_lines(s) =~= lines);
    lemma_kept_same(lines);
    lemma_trim_joined(lines);
}

proof fn lemma_clean_between(top: bool, lines: Seq<Seq<char>>, bottom: bool)
    requires
        are_clean_lines(lines),
        lines.len() > 0,
        lines[0].len() > 0,
        lines.last().len() > 0,
    ensures
        are_clean_lines(blank_line(top) + (lines + blank_line(bottom))),
{
    let all = blank_line(top) + (lines + blank_line(bottom));
    let first = blank_line(top).len();
    assert(is_clean_line(Seq::<char>::empty()));
    assert forall|i: int| 0 <= i < all.len() implies is_clean_line(#[trigger] all[i]) by {
        if first <= i < first + lines.len() {
            assert(all[i] == lines[i - first]);
        } else {
            assert(all[i] == Seq::<char>::empty());
        }
    }
    assert forall|i: int| 0 < i < all.len() && (#[trigger] all[i]).len() == 0 implies all[i
        - 1].len() > 0 by {
        if i == first {
            assert(all[i] == lines[0]);
        } else if i < first + lines.len() {
            assert(all[i] == lines[i - first]);
            assert(all[i - 1] == lines[i - first - 1]);
        } else {
            assert(all[i - 1] == lines[lines.len() - 1]);
        }
    }
}

proof fn lemma_bare_between(top: bool, lines: Seq<Seq<char>>, bottom: bool)
    requires
        lines.len() > 0,
        lines[0].len() > 0,
        lines.last().len() > 0,
    ensures
        without_last_blank(
            without_first_blank(blank_line(top) + (lines + blank_line(bottom))),
        ) == lines,
{
    let below = lines + blank_line(bottom);
    let all = blank_line(top) + below;
    assert(without_first_blank(all) =~= below);
    assert(without_last_blank(below) =~= lines);
}

/// Clean lines come out of normalization as they are, without the line feeds
/// around them: up to one before and up to two after.
pub proof fn clean_lines_are_kept(before: nat, lines: Seq<Seq<char>>, after: nat)
    requires
        before <= 1,
        after <= 2,
        are_clean_lines(lines),
        lines.len() > 0,
        lines[0].len() > 0,
        lines.last().len() > 0,
    ensures
        normalized(line_feeds(before) + joined(lines) + line_feeds(after)) == joined(lines),
{
    let text = joined(lines);
    let s = line_feeds(before) + text + line_feeds(after);
    lemma_lines_below(lines, after);
    lemma_lines_above(before, text + line_feeds(after));
    assert(s =~= line_feeds(before) + (text + line_feeds(after)));
    assert forall|i: int| 0 <= i < s.len() implies s[i] != '\r' by {
        lemma_joined_chars(lines);
        if before <= i < before + text.len() {
            assert(s[i] == text[i - before]);
        }
    }
    lemma_clean_between(before == 1, lines, after == 2);
    lemma_bare_between(before == 1, lines, after == 2);
    lemma_normalized_of_lines(
        s,
        blank_line(before == 1) + (lines + blank_line(after == 2)),
    );
}

} // verus!
