//! Laws of normalized text as a whole: between two visible characters, white space
//! becomes nothing but what it separates them by; everywhere else it is dropped.
//! Together they say what becomes of any text.

use vstd::prelude::*;

use crate::laws::characters::{is_blank, trimming_leaves_the_middle};
use crate::laws::search::lemma_find_char_behind;
use crate::laws::whitespace::{bare_text_is_trimmed, lemma_lines_shift};
use crate::normalize::{
    collapsed, joined, kept_lines, line_normalized, lines_from, normalized, squeezed, unified,
};
use crate::text::{find_char, lemma_find_char, rest, trim, trim_end, trim_start, white_space};

verus! {

/// The number of line breaks in a text. A carriage return with a line feed behind
/// it is one.
pub open spec fn breaks(s: Seq<char>) -> nat
    decreases s.len(),
{
    if s.len() == 0 {
        0
    } else if s.last() == '\r' || (s.last() == '\n' && !(s.len() > 1 && s[s.len() - 2] == '\r')) {
        breaks(s.drop_last()) + 1
    } else {
        breaks(s.drop_last())
    }
}

/// What white space between two visible characters becomes: one space within a
/// line, one line feed for one line break, and an empty line for more.
pub open spec fn gap(white: Seq<char>) -> Seq<char> {
    if white.len() == 0 {
        seq![]
    } else if breaks(white) == 0 {
        seq![' ']
    } else if breaks(white) == 1 {
        seq!['\n']
    } else {
        seq!['\n', '\n']
    }
}

/// Whether a text is not empty and begins with a visible character.
pub open spec fn begins_visibly(s: Seq<char>) -> bool {
    s.len() > 0 && !white_space(s[0])
}

/// Whether a text is not empty and ends with a visible character.
pub open spec fn ends_visibly(s: Seq<char>) -> bool {
    s.len() > 0 && !white_space(s.last())
}

proof fn lemma_unified_concat(p: Seq<char>, q: Seq<char>)
    requires
        !(p.len() > 0 && p.last() == '\r' && q.len() > 0 && q[0] == '\n'),
    ensures
        unified(p + q) == unified(p) + unified(q),
    decreases q.len(),
{
    if q.len() == 0 {
        assert(p + q =~= p);
        assert(unified(p) + unified(q) =~= unified(p));
    } else {
        lemma_unified_concat(p, q.drop_last());
        assert((p + q).drop_last() =~= p + q.drop_last());
        assert(unified(p + q) =~= unified(p) + unified(q));
    }
}

/// The number of line feeds in a text.
pub open spec fn feeds(s: Seq<char>) -> nat
    decreases s.len(),
{
    if s.len() == 0 {
        0
    } else if s[0] == '\n' {
        feeds(s.skip(1)) + 1
    } else {
        feeds(s.skip(1))
    }
}

proof fn lemma_feeds_push(s: Seq<char>, c: char)
    ensures
        feeds(s.push(c)) == feeds(s) + (if c == '\n' {
            1nat
        } else {
            0nat
        }),
    decreases s.len(),
{
    reveal_with_fuel(feeds, 2);
    if s.len() == 0 {
        assert(s.push(c).skip(1) =~= Seq::<char>::empty());
    } else {
        lemma_feeds_push(s.skip(1), c);
        assert(s.push(c).skip(1) =~= s.skip(1).push(c));
    }
}

proof fn lemma_unified_blank(w: Seq<char>)
    requires
        is_blank(w),
    ensures
        is_blank(unified(w)),
        feeds(unified(w)) == breaks(w),
        (unified(w).len() == 0) == (w.len() == 0),
    decreases w.len(),
{
    if w.len() > 0 {
        let head = unified(w.drop_last());
        assert(white_space(w[w.len() - 1]));
        lemma_unified_blank(w.drop_last());
        lemma_feeds_push(head, '\n');
        lemma_feeds_push(head, w.last());
    }
}

proof fn lemma_unified_ends(s: Seq<char>)
    ensures
        ends_visibly(s) ==> ends_visibly(unified(s)),
        begins_visibly(s) ==> begins_visibly(unified(s)),
    decreases s.len(),
{
    reveal_with_fuel(unified, 2);
    if s.len() > 0 {
        lemma_unified_ends(s.drop_last());
    }
}

proof fn lemma_trim_start_concat(p: Seq<char>, q: Seq<char>)
    requires
        ends_visibly(p),
    ensures
        trim_start(p + q) == trim_start(p) + q,
        begins_visibly(trim_start(p)),
        ends_visibly(trim_start(p)),
    decreases p.len(),
{
    if white_space(p[0]) {
        let tail = p.subrange(1, p.len() as int);
        assert(p.len() > 1);
        lemma_trim_start_concat(tail, q);
        assert((p + q).subrange(1, (p + q).len() as int) =~= tail + q);
    }
}

proof fn lemma_trim_end_concat(p: Seq<char>, q: Seq<char>)
    requires
        begins_visibly(q),
    ensures
        trim_end(p + q) == p + trim_end(q),
        begins_visibly(trim_end(q)),
        ends_visibly(trim_end(q)),
    decreases q.len(),
{
    if white_space(q.last()) {
        assert(q.len() > 1);
        lemma_trim_end_concat(p, q.drop_last());
        assert((p + q).drop_last() =~= p + q.drop_last());
    }
}

/// Trimming around a middle that is visible at both of its ends.
proof fn lemma_trim_around(p: Seq<char>, g: Seq<char>, q: Seq<char>)
    requires
        ends_visibly(p),
        begins_visibly(q),
    ensures
        trim(p + g + q) == trim(p) + g + trim(q),
        trim(p) == trim_start(p),
        trim(q) == trim_end(q),
        begins_visibly(trim(p)),
        ends_visibly(trim(p)),
        begins_visibly(trim(q)),
        ends_visibly(trim(q)),
{
    let none = Seq::<char>::empty();
    lemma_trim_start_concat(p, g + q);
    assert(p + (g + q) =~= p + g + q);
    lemma_trim_start_concat(p, none);
    assert(p + none =~= p);
    assert(trim_start(p) + none =~= trim_start(p));
    lemma_trim_end_concat(trim_start(p) + g, q);
    assert(trim_start(p) + (g + q) =~= trim_start(p) + g + q);
}

proof fn lemma_squeezed_concat(p: Seq<char>, q: Seq<char>)
    requires
        p.len() == 0 || !white_space(p.last()) || begins_visibly(q),
    ensures
        squeezed(p + q) == squeezed(p) + squeezed(q),
    decreases q.len(),
{
    if q.len() == 0 {
        assert(p + q =~= p);
        assert(squeezed(p) + squeezed(q) =~= squeezed(p));
    } else if q.len() == 1 && p.len() > 0 && white_space(p.last()) {
        assert((p + q).drop_last() =~= p);
        assert(q.drop_last() =~= Seq::<char>::empty());
        reveal_with_fuel(squeezed, 2);
        assert(squeezed(q) =~= seq![q.last()]);
        assert(squeezed(p + q) =~= squeezed(p) + squeezed(q));
    } else {
        lemma_squeezed_concat(p, q.drop_last());
        assert((p + q).drop_last() =~= p + q.drop_last());
        assert(squeezed(p + q) =~= squeezed(p) + squeezed(q));
    }
}

proof fn lemma_squeezed_blank(w: Seq<char>)
    requires
        is_blank(w),
        w.len() > 0,
    ensures
        squeezed(w) == seq![' '],
    decreases w.len(),
{
    assert(white_space(w[w.len() - 1]));
    if w.len() > 1 {
        assert(white_space(w[w.len() - 2]));
        lemma_squeezed_blank(w.drop_last());
    } else {
        reveal_with_fuel(squeezed, 2);
        assert(w.drop_last() =~= Seq::<char>::empty());
        assert(squeezed(w) =~= seq![' ']);
    }
}

proof fn lemma_squeezed_visible(s: Seq<char>)
    ensures
        ends_visibly(s) ==> ends_visibly(squeezed(s)),
        begins_visibly(s) ==> begins_visibly(squeezed(s)),
        s.len() > 0 ==> squeezed(s).len() > 0,
    decreases s.len(),
{
    reveal_with_fuel(squeezed, 2);
    if s.len() > 0 {
        lemma_squeezed_visible(s.drop_last());
    }
}

/// What white space within a line becomes.
pub open spec fn line_gap(white: Seq<char>) -> Seq<char> {
    if white.len() == 0 {
        seq![]
    } else {
        seq![' ']
    }
}

/// Within a line, white space between two visible characters becomes one space.
pub proof fn line_is_spaced(p: Seq<char>, white: Seq<char>, q: Seq<char>)
    requires
        ends_visibly(p),
        is_blank(white),
        begins_visibly(q),
    ensures
        line_normalized(p + white + q) == line_normalized(p) + line_gap(white) + line_normalized(q),
{
    lemma_trim_around(p, white, q);
    let tp = trim(p);
    let tq = trim(q);
    lemma_squeezed_concat(tp, white + tq);
    assert(tp + (white + tq) =~= tp + white + tq);
    lemma_squeezed_concat(white, tq);
    if white.len() > 0 {
        lemma_squeezed_blank(white);
    } else {
        assert(squeezed(white) =~= line_gap(white));
    }
    assert(squeezed(tp) + (line_gap(white) + squeezed(tq)) =~= squeezed(tp) + line_gap(white)
        + squeezed(tq));
}

/// White space at the ends of a line is dropped, and a blank line is empty.
pub proof fn line_ends_are_dropped(before: Seq<char>, line: Seq<char>, after: Seq<char>)
    requires
        is_blank(before),
        is_blank(after),
    ensures
        begins_visibly(line) ==> line_normalized(before + line) == line_normalized(line),
        ends_visibly(line) ==> line_normalized(line + after) == line_normalized(line),
        line_normalized(before).len() == 0,
{
    let none = Seq::<char>::empty();
    if begins_visibly(line) {
        lemma_trim_drop_start(before, line);
    }
    if ends_visibly(line) {
        lemma_trim_start_concat(line, after);
        lemma_trim_start_concat(line, none);
        assert(line + none =~= line);
        assert(trim_start(line) + none =~= trim_start(line));
        lemma_trim_drop_end(trim_start(line), after);
    }
    trimming_leaves_the_middle(before, none, none);
    assert(before + none + none =~= before);
}

proof fn lemma_trim_drop_start(before: Seq<char>, line: Seq<char>)
    requires
        is_blank(before),
        begins_visibly(line),
    ensures
        trim_start(before + line) == trim_start(line),
    decreases before.len(),
{
    if before.len() > 0 {
        let shorter = before.subrange(1, before.len() as int);
        assert(white_space(before[0]));
        lemma_trim_drop_start(shorter, line);
        assert((before + line).subrange(1, (before + line).len() as int) =~= shorter + line);
    } else {
        assert(before + line =~= line);
    }
}

proof fn lemma_trim_drop_end(line: Seq<char>, after: Seq<char>)
    requires
        is_blank(after),
        ends_visibly(line),
    ensures
        trim_end(line + after) == trim_end(line),
    decreases after.len(),
{
    if after.len() > 0 {
        assert(white_space(after[after.len() - 1]));
        lemma_trim_drop_end(line, after.drop_last());
        assert((line + after).drop_last() =~= line + after.drop_last());
    } else {
        assert(line + after =~= line);
    }
}

proof fn lemma_line_visible(line: Seq<char>)
    ensures
        begins_visibly(line) ==> begins_visibly(line_normalized(line)) && ends_visibly(
            line_normalized(line),
        ),
        ends_visibly(line) ==> ends_visibly(line_normalized(line)) && begins_visibly(
            line_normalized(line),
        ),
{
    let none = Seq::<char>::empty();
    if begins_visibly(line) {
        lemma_trim_end_concat(none, line);
        assert(none + line =~= line);
        lemma_squeezed_visible(trim(line));
    }
    if ends_visibly(line) {
        lemma_trim_start_concat(line, none);
        assert(line + none =~= line);
        lemma_squeezed_visible(trim(line));
    }
}

spec fn normal_lines(s: Seq<char>) -> Seq<Seq<char>> {
    lines_from(s, 0).map_values(|line: Seq<char>| line_normalized(line))
}

proof fn lemma_no_feed(p: Seq<char>, q: Seq<char>, from: int)
    requires
        0 <= from <= p.len(),
        forall|i: int| 0 <= i < p.len() ==> #[trigger] p[i] != '\n',
    ensures
        find_char(p + q, '\n', from) == find_char(p + q, '\n', p.len() as int),
    decreases p.len() - from,
{
    if from < p.len() {
        assert((p + q)[from] == p[from]);
        lemma_no_feed(p, q, from + 1);
    }
}

/// A line feed behind text without one ends the first line.
proof fn lemma_first_line(p: Seq<char>, q: Seq<char>)
    requires
        forall|i: int| 0 <= i < p.len() ==> #[trigger] p[i] != '\n',
    ensures
        lines_from(p + (seq!['\n'] + q), 0) == seq![p] + lines_from(q, 0),
{
    let t = seq!['\n'] + q;
    let s = p + t;
    lemma_no_feed(p, t, 0);
    assert(s[p.len() as int] == '\n');
    assert(find_char(s, '\n', 0) == Some(p.len() as int));
    assert(s.subrange(0, p.len() as int) =~= p);
    lemma_lines_shift(p.push('\n'), q, 0);
    assert(p.push('\n') + q =~= s);
}

/// Text without a line feed goes before the first line of what follows it.
proof fn lemma_line_prefix(p: Seq<char>, q: Seq<char>)
    requires
        forall|i: int| 0 <= i < p.len() ==> #[trigger] p[i] != '\n',
        q.len() > 0,
    ensures
        lines_from(q, 0).len() > 0,
        lines_from(p + q, 0) == seq![p + lines_from(q, 0)[0]] + lines_from(q, 0).skip(1),
        forall|i: int|
            0 <= i < lines_from(q, 0)[0].len() ==> #[trigger] lines_from(q, 0)[0][i] != '\n',
        q[0] != '\n' ==> lines_from(q, 0)[0].len() > 0 && lines_from(q, 0)[0][0] == q[0],
{
    let s = p + q;
    lemma_no_feed(p, q, 0);
    lemma_find_char(q, '\n', 0);
    lemma_find_char_behind(p, q, '\n', 0);
    match find_char(q, '\n', 0) {
        Some(end) => {
            let first = q.subrange(0, end);
            lemma_lines_shift(p, q, end + 1);
            assert(s.subrange(0, p.len() + end) =~= p + first);
            assert(lines_from(q, 0)[0] == first);
            assert(lines_from(q, 0).skip(1) =~= lines_from(q, end + 1));
            assert(lines_from(s, 0) =~= seq![p + first] + lines_from(q, end + 1));
        },
        None => {
            assert(rest(s, 0) =~= p + rest(q, 0));
            assert(rest(q, 0) =~= q);
            assert(lines_from(q, 0)[0] == q);
            assert(lines_from(q, 0).skip(1) =~= Seq::<Seq<char>>::empty());
            assert(lines_from(s, 0) =~= seq![p + q]);
        },
    }
}

/// What follows a text goes behind its last line.
proof fn lemma_last_line(p: Seq<char>, q: Seq<char>)
    requires
        ends_visibly(p),
    ensures
        lines_from(p, 0).len() > 0,
        ends_visibly(lines_from(p, 0).last()),
        forall|i: int|
            0 <= i < lines_from(p, 0).last().len() ==> #[trigger] lines_from(p, 0).last()[i]
                != '\n',
        lines_from(p + q, 0) == lines_from(p, 0).drop_last() + lines_from(
            lines_from(p, 0).last() + q,
            0,
        ),
    decreases p.len(),
{
    lemma_find_char(p, '\n', 0);
    match find_char(p, '\n', 0) {
        None => {
            assert(rest(p, 0) =~= p);
            assert(lines_from(p, 0) =~= seq![p]);
            assert(lines_from(p, 0).drop_last() =~= Seq::<Seq<char>>::empty());
            assert(lines_from(p + q, 0) =~= lines_from(p, 0).drop_last() + lines_from(p + q, 0));
        },
        Some(end) => {
            let first = p.subrange(0, end);
            let tail = p.skip(end + 1);
            assert(end < p.len() - 1);
            assert(tail.last() == p.last());
            lemma_last_line(tail, q);
            assert(p =~= first + (seq!['\n'] + tail));
            lemma_first_line(first, tail);
            assert(p + q =~= first + (seq!['\n'] + (tail + q)));
            lemma_first_line(first, tail + q);
            assert(lines_from(p, 0).last() == lines_from(tail, 0).last());
            assert(lines_from(p, 0).drop_last() =~= seq![first] + lines_from(tail, 0).drop_last());
            assert(lines_from(p + q, 0) =~= lines_from(p, 0).drop_last() + lines_from(
                lines_from(p, 0).last() + q,
                0,
            ));
        },
    }
}

spec fn blanks(count: nat) -> Seq<Seq<char>> {
    Seq::new(count, |i: int| Seq::<char>::empty())
}

proof fn lemma_map_concat(a: Seq<Seq<char>>, b: Seq<Seq<char>>)
    ensures
        (a + b).map_values(|line: Seq<char>| line_normalized(line)) == a.map_values(
            |line: Seq<char>| line_normalized(line),
        ) + b.map_values(|line: Seq<char>| line_normalized(line)),
{
    assert((a + b).map_values(|line: Seq<char>| line_normalized(line)) =~= a.map_values(
        |line: Seq<char>| line_normalized(line),
    ) + b.map_values(|line: Seq<char>| line_normalized(line)));
}

proof fn lemma_feeds_split(w: Seq<char>)
    requires
        is_blank(w),
    ensures
        match find_char(w, '\n', 0) {
            None => feeds(w) == 0,
            Some(end) => {
                &&& 0 <= end < w.len()
                &&& feeds(w) == feeds(w.skip(end + 1)) + 1
                &&& w == w.take(end) + (seq!['\n'] + w.skip(end + 1))
                &&& forall|i: int| 0 <= i < end ==> #[trigger] w.take(end)[i] != '\n'
                &&& is_blank(w.take(end))
                &&& is_blank(w.skip(end + 1))
            },
        },
{
    lemma_find_char(w, '\n', 0);
    lemma_feeds_from(w, 0);
    assert(w.skip(0) =~= w);
    if let Some(end) = find_char(w, '\n', 0) {
        assert(w =~= w.take(end) + (seq!['\n'] + w.skip(end + 1)));
        assert forall|i: int| 0 <= i < w.skip(end + 1).len() implies white_space(
            #[trigger] w.skip(end + 1)[i],
        ) by {
            assert(white_space(w[end + 1 + i]));
        }
    }
}

proof fn lemma_feeds_from(w: Seq<char>, from: int)
    requires
        0 <= from <= w.len(),
    ensures
        match find_char(w, '\n', from) {
            None => feeds(w.skip(from)) == 0,
            Some(end) => feeds(w.skip(from)) == feeds(w.skip(end + 1)) + 1,
        },
    decreases w.len() - from,
{
    if from < w.len() {
        assert(w.skip(from).skip(1) =~= w.skip(from + 1));
        assert(w.skip(from)[0] == w[from]);
        if w[from] != '\n' {
            lemma_feeds_from(w, from + 1);
        }
    }
}

/// White space before a text gives an empty line for each line feed in it.
proof fn lemma_blank_before(w: Seq<char>, q: Seq<char>)
    requires
        is_blank(w),
        begins_visibly(q),
    ensures
        normal_lines(w + q) == blanks(feeds(w)) + normal_lines(q),
    decreases w.len(),
{
    lemma_feeds_split(w);
    lemma_find_char(w, '\n', 0);
    match find_char(w, '\n', 0) {
        None => {
            lemma_line_prefix(w, q);
            let first = lines_from(q, 0)[0];
            let none = Seq::<char>::empty();
            line_ends_are_dropped(w, first, none);
            assert(normal_lines(w + q) =~= blanks(feeds(w)) + normal_lines(q));
        },
        Some(end) => {
            let line = w.take(end);
            let later = w.skip(end + 1);
            lemma_blank_before(later, q);
            assert(w + q =~= line + (seq!['\n'] + (later + q)));
            lemma_first_line(line, later + q);
            lemma_map_concat(seq![line], lines_from(later + q, 0));
            line_ends_are_dropped(line, line, line);
            assert(line_normalized(line) =~= Seq::<char>::empty());
            assert(normal_lines(w + q) =~= blanks(feeds(w)) + normal_lines(q));
        },
    }
}

/// White space by itself gives only empty lines.
proof fn lemma_blank_alone(w: Seq<char>)
    requires
        is_blank(w),
    ensures
        normal_lines(w) == blanks(normal_lines(w).len()),
    decreases w.len(),
{
    lemma_feeds_split(w);
    lemma_find_char(w, '\n', 0);
    if w.len() > 0 {
        match find_char(w, '\n', 0) {
            None => {
                assert(rest(w, 0) =~= w);
                line_ends_are_dropped(w, w, w);
                assert(line_normalized(w) =~= Seq::<char>::empty());
                assert(normal_lines(w) =~= blanks(normal_lines(w).len()));
            },
            Some(end) => {
                let line = w.take(end);
                let later = w.skip(end + 1);
                lemma_blank_alone(later);
                lemma_first_line(line, later);
                lemma_map_concat(seq![line], lines_from(later, 0));
                line_ends_are_dropped(line, line, line);
                assert(line_normalized(line) =~= Seq::<char>::empty());
                assert(normal_lines(w) =~= blanks(normal_lines(w).len()));
            },
        }
    } else {
        assert(normal_lines(w) =~= blanks(normal_lines(w).len()));
    }
}

proof fn lemma_kept_concat(p: Seq<Seq<char>>, q: Seq<Seq<char>>)
    requires
        p.len() == 0 || p.last().len() > 0 || (q.len() > 0 && q[0].len() > 0),
    ensures
        kept_lines(p + q) == kept_lines(p) + kept_lines(q),
    decreases q.len(),
{
    if q.len() == 0 {
        assert(p + q =~= p);
        assert(kept_lines(p) + kept_lines(q) =~= kept_lines(p));
    } else if q.len() == 1 {
        assert((p + q).drop_last() =~= p);
        lemma_kept_single(q[0]);
        assert(q =~= seq![q[0]]);
        assert(kept_lines(p + q) =~= kept_lines(p) + kept_lines(q));
    } else {
        lemma_kept_concat(p, q.drop_last());
        assert((p + q).drop_last() =~= p + q.drop_last());
        assert(kept_lines(p + q) =~= kept_lines(p) + kept_lines(q));
    }
}

proof fn lemma_kept_blanks(count: nat)
    ensures
        kept_lines(blanks(count)) == blanks(
            if count == 0 {
                0
            } else {
                1
            },
        ),
    decreases count,
{
    if count > 0 {
        lemma_kept_blanks((count - 1) as nat);
        assert(blanks(count).drop_last() =~= blanks((count - 1) as nat));
        assert(kept_lines(blanks(count)) =~= blanks(1));
    } else {
        assert(kept_lines(blanks(0)) =~= blanks(0));
    }
}

proof fn lemma_kept_ends(lines: Seq<Seq<char>>)
    ensures
        lines.len() > 0 && lines.last().len() > 0 ==> kept_lines(lines).len() > 0 && kept_lines(
            lines,
        ).last() == lines.last(),
        lines.len() > 0 && lines[0].len() > 0 ==> kept_lines(lines).len() > 0 && kept_lines(
            lines,
        )[0] == lines[0],
    decreases lines.len(),
{
    reveal_with_fuel(kept_lines, 2);
    if lines.len() > 0 {
        lemma_kept_ends(lines.drop_last());
    }
}

/// Lines that follow others are joined to them with one line feed.
pub proof fn lemma_joined_concat(p: Seq<Seq<char>>, q: Seq<Seq<char>>)
    requires
        p.len() > 0,
        q.len() > 0,
    ensures
        joined(p + q) == joined(p) + seq!['\n'] + joined(q),
    decreases q.len(),
{
    if q.len() == 1 {
        assert((p + q).drop_last() =~= p);
        assert(joined(p + q) =~= joined(p) + seq!['\n'] + joined(q));
    } else {
        lemma_joined_concat(p, q.drop_last());
        assert((p + q).drop_last() =~= p + q.drop_last());
        assert(joined(p + q) =~= joined(p) + seq!['\n'] + joined(q));
    }
}

proof fn lemma_joined_ends(lines: Seq<Seq<char>>)
    ensures
        lines.len() > 0 && ends_visibly(lines.last()) ==> ends_visibly(joined(lines)),
        lines.len() > 0 && begins_visibly(lines[0]) ==> begins_visibly(joined(lines)),
    decreases lines.len(),
{
    if lines.len() > 1 {
        lemma_joined_ends(lines.drop_last());
    }
}

/// The text of lines that end visibly, of a gap and of lines that begin visibly.
proof fn lemma_collapsed_around(p: Seq<Seq<char>>, count: nat, q: Seq<Seq<char>>)
    requires
        p.len() > 0,
        ends_visibly(p.last()),
        q.len() > 0,
        begins_visibly(q[0]),
    ensures
        collapsed(p + blanks(count) + q) == collapsed(p) + (if count == 0 {
            seq!['\n']
        } else {
            seq!['\n', '\n']
        }) + collapsed(q),
{
    let kp = kept_lines(p);
    let kq = kept_lines(q);
    lemma_kept_ends(p);
    lemma_kept_ends(q);
    lemma_kept_concat(p, blanks(count));
    lemma_kept_concat(p + blanks(count), q);
    lemma_kept_blanks(count);
    lemma_joined_ends(kp);
    lemma_joined_ends(kq);
    let jp = joined(kp);
    let jq = joined(kq);
    if count == 0 {
        assert(kp + blanks(0) =~= kp);
        lemma_joined_concat(kp, kq);
        lemma_trim_around(jp, seq!['\n'], jq);
    } else {
        lemma_joined_concat(kp + blanks(1), kq);
        lemma_joined_concat(kp, blanks(1));
        assert(joined(blanks(1)) =~= Seq::<char>::empty());
        assert(jp + seq!['\n'] + joined(blanks(1)) + seq!['\n'] + jq =~= jp + seq!['\n', '\n']
            + jq);
        lemma_trim_around(jp, seq!['\n', '\n'], jq);
    }
}

/// The text of lines of which two that meet are put together.
proof fn lemma_collapsed_merged(
    head: Seq<Seq<char>>,
    u: Seq<char>,
    g: Seq<char>,
    v: Seq<char>,
    tail: Seq<Seq<char>>,
)
    requires
        ends_visibly(u),
        begins_visibly(v),
    ensures
        collapsed(head + seq![u + g + v] + tail) == collapsed(head + seq![u]) + g + collapsed(
            seq![v] + tail,
        ),
{
    let m = u + g + v;
    let kh = kept_lines(head);
    let kt = kept_lines(tail);
    lemma_kept_single(u);
    lemma_kept_single(v);
    lemma_kept_single(m);
    lemma_kept_concat(head, seq![m]);
    lemma_kept_concat(head + seq![m], tail);
    lemma_kept_concat(head, seq![u]);
    lemma_kept_concat(seq![v], tail);
    let left = kh + seq![u];
    let right = seq![v] + kt;
    lemma_joined_merged(kh, u, g, v, kt);
    lemma_joined_ends(left);
    lemma_joined_ends(right);
    lemma_trim_around(joined(left), g, joined(right));
}

proof fn lemma_kept_single(line: Seq<char>)
    ensures
        kept_lines(seq![line]) == seq![line],
{
    reveal_with_fuel(kept_lines, 2);
    assert(seq![line].drop_last() =~= Seq::<Seq<char>>::empty());
    assert(kept_lines(seq![line]) =~= seq![line]);
}

proof fn lemma_joined_merged(
    head: Seq<Seq<char>>,
    u: Seq<char>,
    g: Seq<char>,
    v: Seq<char>,
    tail: Seq<Seq<char>>,
)
    ensures
        joined(head + seq![u + g + v] + tail) == joined(head + seq![u]) + g + joined(
            seq![v] + tail,
        ),
{
    let m = u + g + v;
    let feed = seq!['\n'];
    let left: Seq<char> = if head.len() == 0 {
        seq![]
    } else {
        joined(head) + feed
    };
    let right: Seq<char> = if tail.len() == 0 {
        seq![]
    } else {
        feed + joined(tail)
    };
    assert(joined(head + seq![u]) =~= left + u) by {
        if head.len() > 0 {
            lemma_joined_concat(head, seq![u]);
        } else {
            assert(head + seq![u] =~= seq![u]);
        }
    }
    assert(joined(seq![v] + tail) =~= v + right) by {
        if tail.len() > 0 {
            lemma_joined_concat(seq![v], tail);
        } else {
            assert(seq![v] + tail =~= seq![v]);
        }
    }
    assert(joined(head + seq![m]) =~= left + m) by {
        if head.len() > 0 {
            lemma_joined_concat(head, seq![m]);
        } else {
            assert(head + seq![m] =~= seq![m]);
        }
    }
    assert(joined(head + seq![m] + tail) =~= left + m + right) by {
        if tail.len() > 0 {
            lemma_joined_concat(head + seq![m], tail);
        } else {
            assert(head + seq![m] + tail =~= head + seq![m]);
        }
    }
    assert(left + m + right =~= (left + u) + g + (v + right));
}

proof fn lemma_lines_around(p: Seq<char>, w: Seq<char>, q: Seq<char>)
    requires
        ends_visibly(p),
        is_blank(w),
        begins_visibly(q),
    ensures
        feeds(w) > 0 ==> normal_lines(p + w + q) == normal_lines(p) + blanks(
            (feeds(w) - 1) as nat,
        ) + normal_lines(q),
        normal_lines(p).len() > 0,
        ends_visibly(normal_lines(p).last()),
        normal_lines(q).len() > 0,
        begins_visibly(normal_lines(q)[0]),
{
    let none = Seq::<char>::empty();
    let lp = lines_from(p, 0);
    lemma_last_line(p, w + q);
    assert(p + (w + q) =~= p + w + q);
    let last = lp.last();
    lemma_line_visible(last);
    lemma_line_prefix(none, q);
    lemma_line_visible(lines_from(q, 0)[0]);
    lemma_feeds_split(w);
    if feeds(w) > 0 {
        let end = find_char(w, '\n', 0)->0;
        let white = w.take(end);
        let later = w.skip(end + 1);
        let line = last + white;
        assert forall|i: int| 0 <= i < line.len() implies #[trigger] line[i] != '\n' by {
            if i < last.len() {
                assert(line[i] == last[i]);
            } else {
                assert(line[i] == white[i - last.len()]);
            }
        }
        assert(last + (w + q) =~= line + (seq!['\n'] + (later + q)));
        lemma_first_line(line, later + q);
        lemma_blank_before(later, q);
        line_ends_are_dropped(none, last, white);
        lemma_map_concat(lp.drop_last(), seq![line] + lines_from(later + q, 0));
        lemma_map_concat(seq![line], lines_from(later + q, 0));
        assert(normal_lines(p + w + q) =~= normal_lines(p) + blanks((feeds(w) - 1) as nat)
            + normal_lines(q));
    }
}

proof fn lemma_lines_merged(p: Seq<char>, w: Seq<char>, q: Seq<char>)
    requires
        ends_visibly(p),
        is_blank(w),
        begins_visibly(q),
        feeds(w) == 0,
    ensures
        normal_lines(p).len() > 0,
        normal_lines(q).len() > 0,
        normal_lines(p + w + q) == normal_lines(p).drop_last() + seq![
            normal_lines(p).last() + line_gap(w) + normal_lines(q)[0],
        ] + normal_lines(q).skip(1),
{
    let none = Seq::<char>::empty();
    let lp = lines_from(p, 0);
    let lq = lines_from(q, 0);
    lemma_last_line(p, w + q);
    assert(p + (w + q) =~= p + w + q);
    let last = lp.last();
    lemma_feeds_split(w);
    lemma_find_char(w, '\n', 0);
    let line = last + w;
    assert forall|i: int| 0 <= i < line.len() implies #[trigger] line[i] != '\n' by {
        if i < last.len() {
            assert(line[i] == last[i]);
        } else {
            assert(line[i] == w[i - last.len()]);
        }
    }
    lemma_line_prefix(line, q);
    assert(last + (w + q) =~= line + q);
    line_is_spaced(last, w, lq[0]);
    lemma_map_concat(lp.drop_last(), seq![line + lq[0]] + lq.skip(1));
    assert(normal_lines(p + w + q) =~= normal_lines(p).drop_last() + seq![
        normal_lines(p).last() + line_gap(w) + normal_lines(q)[0],
    ] + normal_lines(q).skip(1));
}

/// Between two visible characters, white space becomes a gap that depends on it
/// alone: nothing for none, a space within a line, a line feed for one line break,
/// an empty line for more. What stands before and behind it is normalized by
/// itself, and every visible character stays.
pub proof fn white_space_becomes_a_gap(p: Seq<char>, white: Seq<char>, q: Seq<char>)
    requires
        ends_visibly(p),
        is_blank(white),
        begins_visibly(q),
    ensures
        normalized(p + white + q) == normalized(p) + gap(white) + normalized(q),
{
    let a = unified(p);
    let w = unified(white);
    let b = unified(q);
    lemma_unified_concat(p + white, q);
    lemma_unified_concat(p, white);
    lemma_unified_blank(white);
    lemma_unified_ends(p);
    lemma_unified_ends(q);
    lemma_lines_around(a, w, b);
    if feeds(w) > 0 {
        lemma_collapsed_around(normal_lines(a), (feeds(w) - 1) as nat, normal_lines(b));
    } else {
        lemma_lines_merged(a, w, b);
        let na = normal_lines(a);
        let nb = normal_lines(b);
        lemma_collapsed_merged(na.drop_last(), na.last(), line_gap(w), nb[0], nb.skip(1));
        assert(na.drop_last() + seq![na.last()] =~= na);
        assert(seq![nb[0]] + nb.skip(1) =~= nb);
    }
}

/// White space before the first visible character and behind the last one is
/// dropped, and a text of white space is empty.
pub proof fn white_space_at_the_ends_is_dropped(white: Seq<char>, s: Seq<char>)
    requires
        is_blank(white),
    ensures
        begins_visibly(s) ==> normalized(white + s) == normalized(s),
        ends_visibly(s) ==> normalized(s + white) == normalized(s),
        normalized(white).len() == 0,
{
    let w = unified(white);
    let t = unified(s);
    let none = Seq::<char>::empty();
    lemma_unified_blank(white);
    lemma_unified_ends(s);
    // White space alone.
    lemma_blank_alone(w);
    lemma_kept_blanks(normal_lines(w).len());
    assert(joined(blanks(0)) =~= none);
    assert(joined(blanks(1)) =~= none);
    bare_text_is_trimmed(none);
    if begins_visibly(s) {
        lemma_unified_concat(white, s);
        lemma_blank_before(w, t);
        let nt = normal_lines(t);
        lemma_line_prefix(none, t);
        lemma_line_visible(lines_from(t, 0)[0]);
        lemma_kept_concat(blanks(feeds(w)), nt);
        lemma_kept_blanks(feeds(w));
        lemma_kept_ends(nt);
        let k = kept_lines(nt);
        lemma_joined_ends(k);
        if feeds(w) > 0 {
            lemma_joined_concat(blanks(1), k);
            assert(none + seq!['\n'] + joined(k) =~= seq!['\n'] + joined(k));
            lemma_trim_drop_start(seq!['\n'], joined(k));
        } else {
            assert(blanks(0) + k =~= k);
        }
    }
    if ends_visibly(s) {
        lemma_unified_concat(s, white);
        lemma_last_line(t, w);
        let lt = lines_from(t, 0);
        let last = lt.last();
        let nt = normal_lines(t);
        lemma_line_visible(last);
        lemma_blank_behind(last, w);
        lemma_map_concat(lt.drop_last(), lines_from(last + w, 0));
        let count = (normal_lines(last + w).len() - 1) as nat;
        assert(normal_lines(t + w) =~= nt + blanks(count));
        lemma_kept_concat(nt, blanks(count));
        lemma_kept_blanks(count);
        lemma_kept_ends(nt);
        let k = kept_lines(nt);
        lemma_joined_ends(k);
        if count > 0 {
            lemma_joined_concat(k, blanks(1));
            assert(joined(k) + seq!['\n'] + none =~= joined(k) + seq!['\n']);
            lemma_trim_start_concat(joined(k), seq!['\n']);
            lemma_trim_start_concat(joined(k), none);
            assert(joined(k) + none =~= joined(k));
            assert(trim_start(joined(k)) + none =~= trim_start(joined(k)));
            lemma_trim_drop_end(trim_start(joined(k)), seq!['\n']);
        } else {
            assert(k + blanks(0) =~= k);
        }
    }
}

/// White space behind a line leaves the line, and empty lines.
proof fn lemma_blank_behind(line: Seq<char>, w: Seq<char>)
    requires
        ends_visibly(line),
        forall|i: int| 0 <= i < line.len() ==> #[trigger] line[i] != '\n',
        is_blank(w),
    ensures
        normal_lines(line + w).len() > 0,
        normal_lines(line + w) == seq![line_normalized(line)] + blanks(
            (normal_lines(line + w).len() - 1) as nat,
        ),
{
    let none = Seq::<char>::empty();
    lemma_feeds_split(w);
    lemma_find_char(w, '\n', 0);
    let s = line + w;
    match find_char(w, '\n', 0) {
        None => {
            lemma_no_feed(line, w, 0);
            lemma_find_char_behind(line, w, '\n', 0);
            assert(rest(s, 0) =~= s);
            line_ends_are_dropped(none, line, w);
            assert(normal_lines(s) =~= seq![line_normalized(line)] + blanks(0));
        },
        Some(end) => {
            let white = w.take(end);
            let later = w.skip(end + 1);
            let first = line + white;
            assert forall|i: int| 0 <= i < first.len() implies #[trigger] first[i] != '\n' by {
                if i < line.len() {
                    assert(first[i] == line[i]);
                } else {
                    assert(first[i] == white[i - line.len()]);
                }
            }
            assert(s =~= first + (seq!['\n'] + later));
            lemma_first_line(first, later);
            lemma_blank_alone(later);
            line_ends_are_dropped(none, line, white);
            lemma_map_concat(seq![first], lines_from(later, 0));
            assert(normal_lines(s) =~= seq![line_normalized(line)] + blanks(
                (normal_lines(s).len() - 1) as nat,
            ));
        },
    }
}

proof fn lemma_visible_stays(s: Seq<char>)
    requires
        forall|i: int| 0 <= i < s.len() ==> !white_space(#[trigger] s[i]),
    ensures
        unified(s) == s,
        squeezed(s) == s,
    decreases s.len(),
{
    if s.len() > 0 {
        assert(!white_space(s[s.len() - 1]));
        lemma_visible_stays(s.drop_last());
        assert(s.drop_last().push(s.last()) =~= s);
    }
}

/// A text of visible characters only stays as it is.
pub proof fn visible_text_stays(s: Seq<char>)
    requires
        forall|i: int| 0 <= i < s.len() ==> !white_space(#[trigger] s[i]),
    ensures
        normalized(s) == s,
{
    let none = Seq::<char>::empty();
    if s.len() > 0 {
        assert(!white_space(s[0]) && !white_space(s[s.len() - 1]));
        lemma_visible_stays(s);
        lemma_find_char(s, '\n', 0);
        assert(find_char(s, '\n', 0) is None) by {
            if let Some(end) = find_char(s, '\n', 0) {
                assert(!white_space(s[end]));
            }
        }
        assert(rest(s, 0) =~= s);
        bare_text_is_trimmed(s);
        assert(normal_lines(s) =~= seq![s]);
        lemma_kept_single(s);
        assert(joined(seq![s]) == s);
    } else {
        white_space_at_the_ends_is_dropped(s, s);
        assert(normalized(s) =~= s);
    }
}

/// Lines are put together with line feeds, and no line is lost but those that are
/// empty behind an empty line or at the ends.
pub proof fn lines_are_put_together(p: Seq<Seq<char>>, count: nat, q: Seq<Seq<char>>)
    requires
        p.len() > 0,
        ends_visibly(p.last()),
        q.len() > 0,
        begins_visibly(q[0]),
    ensures
        collapsed(p + Seq::new(count, |i: int| Seq::<char>::empty()) + q) == collapsed(p) + (
        if count == 0 {
            seq!['\n']
        } else {
            seq!['\n', '\n']
        }) + collapsed(q),
{
    lemma_collapsed_around(p, count, q);
    assert(blanks(count) =~= Seq::new(count, |i: int| Seq::<char>::empty()));
}

/// A line by itself is trimmed, and no line is nothing.
pub proof fn single_line_is_trimmed(line: Seq<char>)
    ensures
        collapsed(seq![line]) == trim(line),
        collapsed(Seq::empty()).len() == 0,
{
    lemma_kept_single(line);
    assert(joined(seq![line]) == line);
    bare_text_is_trimmed(Seq::<char>::empty());
}

} // verus!
