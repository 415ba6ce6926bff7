//! Laws of where tags are found and of the names that are read from them.

use vstd::prelude::*;
use vstd::utf8::encode_utf8;

use crate::laws::characters::{is_blank, trimming_leaves_the_middle};
use crate::laws::search::{is_needle, lacks, lemma_tag_bounds_skips, tag_stands};
use crate::laws::whitespace::{bare_text_is_trimmed, is_trimmed};
use crate::offsets::{byte_offset, char_position, falls_on};
use crate::tags::{
    closing_needle, ends_tag_name, first_word, name_of_tag, named_tag, next_tag, opening_needle,
    search_from_byte, tag_bounds, without_first, without_last,
};
use crate::text::{
    ascii_lower, char_at, find_char, lemma_find_char, lemma_find_from, lower_char, opt_pos,
    opt_span, trim, white_space,
};

verus! {

/// The name of a tag ends before one of six characters, and at the end of the
/// document.
pub proof fn tag_names_end_before(next: Option<char>)
    ensures
        ends_tag_name(next) <==> (next is None || "> \n\r\t/"@.contains(next->0)),
{
    reveal_strlit("> \n\r\t/");
    let list = "> \n\r\t/"@;
    assert(list[0] == '>' && list[1] == ' ' && list[2] == '\n' && list[3] == '\r' && list[4]
        == '\t' && list[5] == '/');
}

/// Whether an opening or a closing tag of the given name begins at a position: a
/// `<`, for a closing tag a slash, the letters of the name in either case, and then
/// the end of the name.
pub open spec fn tag_begins(s: Seq<char>, tag: Seq<char>, closing: bool, i: int) -> bool {
    let at = i + (if closing {
        2int
    } else {
        1int
    });
    &&& 0 <= i
    &&& at + tag.len() <= s.len()
    &&& s[i] == '<'
    &&& closing ==> s[i + 1] == '/'
    &&& forall|k: int| 0 <= k < tag.len() ==> lower_char(s[at + k]) == #[trigger] tag[k]
    &&& at + tag.len() < s.len() ==> "> \n\r\t/"@.contains(s[at + tag.len()])
}

proof fn lemma_boundary(c: char)
    ensures
        ends_tag_name(Some(lower_char(c))) == ends_tag_name(Some(c)),
{
}

proof fn lemma_bracket(c: char)
    ensures
        (lower_char(c) == '<') == (c == '<'),
        (lower_char(c) == '/') == (c == '/'),
        (lower_char(c) == '>') == (c == '>'),
{
}

proof fn lemma_begins(s: Seq<char>, tag: Seq<char>, closing: bool, i: int)
    requires
        0 <= i < s.len(),
    ensures
        ({
            let needle = if closing {
                closing_needle(tag)
            } else {
                opening_needle(tag)
            };
            tag_begins(s, tag, closing, i) <==> tag_stands(ascii_lower(s), needle, i)
        }),
{
    let lower = ascii_lower(s);
    let needle = if closing {
        closing_needle(tag)
    } else {
        opening_needle(tag)
    };
    let shift: int = if closing {
        2
    } else {
        1
    };
    let at = i + shift;
    if at + tag.len() <= s.len() {
        let part = lower.subrange(i, i + needle.len());
        lemma_bracket(s[i]);
        if closing {
            lemma_bracket(s[i + 1]);
        }
        if at + tag.len() < s.len() {
            lemma_boundary(s[at + tag.len()]);
            tag_names_end_before(Some(s[at + tag.len()]));
        }
        assert(char_at(lower, i + needle.len()) == (if at + tag.len() < s.len() {
            Some(lower_char(s[at + tag.len()]))
        } else {
            None
        }));
        if part == needle {
            assert(part[0] == needle[0]);
            if closing {
                assert(part[1] == needle[1]);
            }
            assert forall|k: int| 0 <= k < tag.len() implies lower_char(s[at + k])
                == #[trigger] tag[k] by {
                assert(part[shift + k] == needle[shift + k]);
            }
        }
        if tag_begins(s, tag, closing, i) {
            assert forall|k: int| 0 <= k < needle.len() implies part[k] == needle[k] by {
                if k >= shift {
                    assert(lower_char(s[at + (k - shift)]) == tag[k - shift]);
                }
            }
            assert(part =~= needle);
        }
    }
}

proof fn lemma_needles(tag: Seq<char>)
    requires
        lacks(tag, '<'),
    ensures
        is_needle(opening_needle(tag)),
        is_needle(closing_needle(tag)),
{
    let opening = opening_needle(tag);
    let closing = closing_needle(tag);
    assert forall|k: int| 0 < k < opening.len() implies #[trigger] opening[k] != opening[0] by {
        assert(opening[k] == tag[k - 1]);
    }
    assert forall|k: int| 0 < k < closing.len() implies #[trigger] closing[k] != closing[0] by {
        if k > 1 {
            assert(closing[k] == tag[k - 2]);
        }
    }
}

/// The first place where a tag of the name begins is found, with its first `>`; if
/// no `>` follows there is no tag.
pub proof fn first_tag_is_found(
    s: Seq<char>,
    tag: Seq<char>,
    closing: bool,
    from: int,
    start: int,
    end: int,
)
    requires
        lacks(tag, '<'),
        0 <= from <= start < s.len(),
        tag_begins(s, tag, closing, start),
        forall|i: int| from <= i < start ==> !tag_begins(s, tag, closing, i),
        start <= end <= s.len(),
        forall|i: int| start <= i < end ==> s[i] != '>',
    ensures
        end < s.len() && s[end] == '>' ==> named_tag(s, tag, closing, from) == Some((start, end)),
        end == s.len() ==> named_tag(s, tag, closing, from) is None,
{
    let lower = ascii_lower(s);
    let needle = if closing {
        closing_needle(tag)
    } else {
        opening_needle(tag)
    };
    lemma_needles(tag);
    lemma_begins(s, tag, closing, start);
    assert forall|i: int| from <= i < start implies !tag_stands(lower, needle, i) by {
        lemma_begins(s, tag, closing, i);
    }
    lemma_tag_bounds_skips(lower, needle, from, start);
    lemma_find_from(lower, needle, start);
    lemma_find_char(lower, '>', start);
    assert forall|i: int| start <= i < end implies lower[i] != '>' by {
        lemma_bracket(s[i]);
    }
    if end < s.len() && s[end] == '>' {
        lemma_bracket(s[end]);
        assert(lower[end] == '>');
        assert(find_char(lower, '>', start) == Some(end));
    }
    assert(tag_bounds(lower, needle, start) == match find_char(lower, '>', start) {
        Some(at) => Some((start, at)),
        None => None,
    });
}

/// Where no tag of the name begins, none is found.
pub proof fn no_tag_is_found(s: Seq<char>, tag: Seq<char>, closing: bool, from: int)
    requires
        lacks(tag, '<'),
        0 <= from <= s.len(),
        forall|i: int| from <= i < s.len() ==> !tag_begins(s, tag, closing, i),
    ensures
        named_tag(s, tag, closing, from) is None,
{
    let lower = ascii_lower(s);
    let needle = if closing {
        closing_needle(tag)
    } else {
        opening_needle(tag)
    };
    lemma_needles(tag);
    assert forall|i: int| from <= i < s.len() implies !tag_stands(lower, needle, i) by {
        lemma_begins(s, tag, closing, i);
    }
    lemma_tag_bounds_skips(lower, needle, from, s.len() as int);
}

/// The first tag of any name goes from the first `<` to the first `>` behind it;
/// there is none without both.
pub proof fn first_tag_of_any_name(s: Seq<char>, from: int)
    requires
        0 <= from,
    ensures
        match next_tag(s, from) {
            Some((start, end)) => {
                &&& from <= start < end < s.len()
                &&& s[start] == '<' && s[end] == '>'
                &&& forall|i: int| from <= i < start ==> s[i] != '<'
                &&& forall|i: int| start <= i < end ==> s[i] != '>'
            },
            None => forall|i: int, j: int|
                from <= i < j < s.len() && #[trigger] s[i] == '<' ==> #[trigger] s[j] != '>',
        },
{
    lemma_find_char(s, '<', from);
    if let Some(start) = find_char(s, '<', from) {
        lemma_find_char(s, '>', start);
    }
}

/// A byte offset stands for the character position that begins there, and for none
/// if no character begins and the text does not end there.
pub proof fn offsets_stand_for_positions(s: Seq<char>, offset: int)
    ensures
        match char_position(s, offset) {
            Some(i) => 0 <= i <= s.len() && byte_offset(s, i) == offset,
            None => forall|i: int| 0 <= i <= s.len() ==> #[trigger] byte_offset(s, i) != offset,
        },
{
    if char_position(s, offset) is None {
        assert forall|i: int| 0 <= i <= s.len() implies #[trigger] byte_offset(s, i) != offset by {
            if byte_offset(s, i) == offset {
                assert(falls_on(s, offset, i));
            }
        }
    }
}

/// The byte offset of a position is the number of bytes of the text before it in
/// UTF-8.
pub proof fn offsets_count_bytes(before: Seq<char>, after: Seq<char>)
    ensures
        byte_offset(before + after, before.len() as int) == encode_utf8(before).len(),
{
    assert((before + after).take(before.len() as int) =~= before);
}

/// Positions, as contracts see them, are the numbers that they are.
pub proof fn positions_are_seen_as_they_are(start: usize, end: usize)
    ensures
        opt_pos(Some(start)) == Some(start as int),
        opt_pos(None) is None,
        opt_span(Some((start, end))) == Some((start as int, end as int)),
        opt_span(None) is None,
{
}

/// A search from a byte offset on gives the byte offsets of what the search from
/// the character there on finds, and nothing if no character begins there.
pub proof fn searches_count_in_bytes(
    s: Seq<char>,
    offset: int,
    search: spec_fn(int) -> Option<(int, int)>,
)
    ensures
        char_position(s, offset) is None ==> search_from_byte(s, offset, search) is None,
        char_position(s, offset) matches Some(from) ==> match search(from) {
            Some((start, end)) => search_from_byte(s, offset, search) == Some(
                (byte_offset(s, start), byte_offset(s, end)),
            ),
            None => search_from_byte(s, offset, search) is None,
        },
{
}

/// Whether a text is a word: not empty, and without white space.
pub open spec fn is_word(s: Seq<char>) -> bool {
    s.len() > 0 && forall|i: int| 0 <= i < s.len() ==> !white_space(#[trigger] s[i])
}

proof fn lemma_first_word_of(word: Seq<char>, tail: Seq<char>)
    requires
        forall|i: int| 0 <= i < word.len() ==> !white_space(#[trigger] word[i]),
        tail.len() > 0 ==> white_space(tail[0]),
    ensures
        first_word(word + tail) == word,
    decreases word.len(),
{
    let s = word + tail;
    if word.len() == 0 {
        assert(s =~= tail);
        assert(first_word(s) =~= word);
    } else {
        let rest = word.subrange(1, word.len() as int);
        assert forall|i: int| 0 <= i < rest.len() implies !white_space(#[trigger] rest[i]) by {
            assert(!white_space(word[i + 1]));
        }
        lemma_first_word_of(rest, tail);
        assert(s.subrange(1, s.len() as int) =~= rest + tail);
        assert(!white_space(word[0]));
        assert(s[0] == word[0]);
        assert(seq![word[0]] + rest =~= word);
    }
}

proof fn lemma_cut_end(s: Seq<char>) -> (n: int)
    ensures
        0 <= n <= s.len(),
        is_blank(s.skip(n)),
        n > 0 ==> !white_space(s[n - 1]),
    decreases s.len(),
{
    if s.len() > 0 && white_space(s.last()) {
        let n = lemma_cut_end(s.drop_last());
        assert forall|i: int| 0 <= i < s.skip(n).len() implies white_space(
            #[trigger] s.skip(n)[i],
        ) by {
            if i < s.len() - 1 - n {
                assert(s.skip(n)[i] == s.drop_last().skip(n)[i]);
            }
        }
        if n > 0 {
            assert(s[n - 1] == s.drop_last()[n - 1]);
        }
        n
    } else {
        s.len() as int
    }
}

/// What is left of the inside of a tag when a slash at its end is ignored still
/// begins with its first word.
proof fn lemma_named(word: Seq<char>, tail: Seq<char>)
    requires
        is_word(word),
        tail.len() > 0 ==> white_space(tail[0]),
        is_blank(tail) ==> word.last() != '/',
    ensures
        ({
            let named = trim(without_last(trim(word + tail), '/'));
            named.len() > 0 && first_word(named) == word
        }),
{
    let n = lemma_cut_end(tail);
    let t = tail.take(n);
    let none = Seq::<char>::empty();
    assert(word[word.len() - 1] == word.last());
    assert(!white_space(word[0]) && !white_space(word.last()));
    assert(tail =~= t + tail.skip(n));
    let m = word + t;
    if n > 0 {
        assert(m.last() == tail[n - 1]);
    } else {
        assert(m =~= word);
        assert(tail =~= tail.skip(n));
    }
    assert(is_trimmed(m));
    trimming_leaves_the_middle(none, m, tail.skip(n));
    assert(none + m + tail.skip(n) =~= word + tail);
    let bare = without_last(m, '/');
    if n > 0 {
        // The word is followed by white space, and a slash at the end stands behind it.
        assert(white_space(tail[0]) && !white_space(tail[n - 1]));
        assert(n > 1);
        let u = if m.last() == '/' {
            t.subrange(0, n - 1)
        } else {
            t
        };
        assert(bare =~= word + u);
        let k = lemma_cut_end(u);
        let v = u.take(k);
        assert(u =~= v + u.skip(k));
        let named = word + v;
        if k > 0 {
            assert(named.last() == u[k - 1]);
        } else {
            assert(named =~= word);
        }
        assert(is_trimmed(named));
        trimming_leaves_the_middle(none, named, u.skip(k));
        assert(none + named + u.skip(k) =~= bare);
        if k > 0 {
            assert(v[0] == tail[0]);
        }
        lemma_first_word_of(word, v);
    } else {
        assert(bare == word);
        bare_text_is_trimmed(word);
        lemma_first_word_of(word, none);
        assert(word + none =~= word);
    }
}

/// A tag has the name that is its first word, in lower case, with or without white
/// space, attributes or a slash at the end behind it. A slash before the name makes
/// it a closing tag.
pub proof fn name_is_the_first_word(
    before: Seq<char>,
    between: Seq<char>,
    word: Seq<char>,
    tail: Seq<char>,
)
    requires
        is_blank(before),
        is_blank(between),
        is_word(word),
        word[0] != '/',
        tail.len() > 0 ==> white_space(tail[0]),
        is_blank(tail) ==> word.last() != '/',
    ensures
        name_of_tag(seq!['<'] + before + word + tail + seq!['>']) == Some(
            (false, ascii_lower(word)),
        ),
        name_of_tag(seq!['<'] + before + seq!['/'] + between + word + tail + seq!['>']) == Some(
            (true, ascii_lower(word)),
        ),
{
    let none = Seq::<char>::empty();
    let n = lemma_cut_end(tail);
    let t = tail.take(n);
    assert(tail =~= t + tail.skip(n));
    assert(!white_space(word[0]));
    assert(word[word.len() - 1] == word.last());
    lemma_named(word, t);
    // An opening tag.
    let open = seq!['<'] + before + word + tail + seq!['>'];
    let m = word + t;
    if n > 0 {
        assert(m.last() == tail[n - 1]);
    } else {
        assert(m =~= word);
    }
    assert(is_trimmed(m));
    trimming_leaves_the_middle(before, m, tail.skip(n));
    assert(open.subrange(1, open.len() - 1) =~= before + m + tail.skip(n));
    bare_text_is_trimmed(m);
    assert(without_first(m, '/') == m);
    // A closing tag.
    let close = seq!['<'] + before + seq!['/'] + between + word + tail + seq!['>'];
    let c = seq!['/'] + between + m;
    assert(c.last() == m.last());
    assert(is_trimmed(c));
    trimming_leaves_the_middle(before, c, tail.skip(n));
    assert(close.subrange(1, close.len() - 1) =~= before + c + tail.skip(n));
    assert(without_first(c, '/') =~= between + m);
    trimming_leaves_the_middle(between, m, none);
    assert(between + m + none =~= between + m);
    assert(trim(without_first(c, '/')) == m);
}

/// A slash directly behind the name, at the end of the tag, is no part of the name.
pub proof fn slash_at_the_end_is_ignored(
    before: Seq<char>,
    between: Seq<char>,
    word: Seq<char>,
    tail: Seq<char>,
)
    requires
        is_blank(before),
        is_blank(between),
        is_word(word),
        word[0] != '/',
        is_blank(tail),
    ensures
        name_of_tag(seq!['<'] + before + word + seq!['/'] + tail + seq!['>']) == Some(
            (false, ascii_lower(word)),
        ),
        name_of_tag(seq!['<'] + before + seq!['/'] + between + word + seq!['/'] + tail + seq!['>'])
            == Some((true, ascii_lower(word))),
{
    let none = Seq::<char>::empty();
    let m = word.push('/');
    assert(!white_space(word[0]));
    assert(is_trimmed(m));
    assert(word[word.len() - 1] == word.last());
    assert(without_last(m, '/') =~= word);
    bare_text_is_trimmed(word);
    lemma_first_word_of(word, none);
    assert(word + none =~= word);
    let open = seq!['<'] + before + word + seq!['/'] + tail + seq!['>'];
    trimming_leaves_the_middle(before, m, tail);
    assert(open.subrange(1, open.len() - 1) =~= before + m + tail);
    bare_text_is_trimmed(m);
    assert(without_first(m, '/') == m);
    let close = seq!['<'] + before + seq!['/'] + between + word + seq!['/'] + tail + seq!['>'];
    let c = seq!['/'] + between + m;
    assert(is_trimmed(c));
    trimming_leaves_the_middle(before, c, tail);
    assert(close.subrange(1, close.len() - 1) =~= before + c + tail);
    assert(without_first(c, '/') =~= between + m);
    trimming_leaves_the_middle(between, m, none);
    assert(between + m + none =~= between + m);
}

/// What is not enclosed in angle brackets has no name, nor has a tag that holds
/// nothing but white space and slashes.
pub proof fn other_texts_have_no_name(tag: Seq<char>, before: Seq<char>, between: Seq<char>)
    requires
        is_blank(before),
        is_blank(between),
    ensures
        tag.len() < 2 || tag[0] != '<' || tag.last() != '>' ==> name_of_tag(tag) is None,
        name_of_tag(seq!['<'] + before + seq!['>']) is None,
        name_of_tag(seq!['<'] + before + seq!['/'] + between + seq!['>']) is None,
{
    let none = Seq::<char>::empty();
    let blank = seq!['<'] + before + seq!['>'];
    trimming_leaves_the_middle(before, none, none);
    assert(blank.subrange(1, blank.len() - 1) =~= before + none + none);
    bare_text_is_trimmed(none);
    let slash = seq!['<'] + before + seq!['/'] + between + seq!['>'];
    trimming_leaves_the_middle(before, seq!['/'], between);
    assert(slash.subrange(1, slash.len() - 1) =~= before + seq!['/'] + between);
    assert(without_first(seq!['/'], '/') =~= none);
}

} // verus!
