//! Laws of characters, words and numbers: which characters count as white space,
//! which letters have a lower case, what trimming takes away, and how numbers are
//! written and read.

use vstd::prelude::*;

use crate::laws::whitespace::is_trimmed;
use crate::text::{
    ascii_lower, decimal, digit_value, digits_value, find_char, find_from, has_prefix,
    lemma_find_char, lemma_find_from, lower_char, matches_at, number_value, trim, trim_end,
    trim_start, unsigned_digits, white_space,
};

verus! {

/// White space is what stands in this list, and nothing else.
pub proof fn white_space_is_listed(c: char)
    ensures
        white_space(c) <==>
        "\u{9}\u{a}\u{b}\u{c}\u{d} \u{85}\u{a0}\u{1680}\u{2000}\u{2001}\u{2002}\u{2003}\u{2004}\u{2005}\u{2006}\u{2007}\u{2008}\u{2009}\u{200a}\u{2028}\u{2029}\u{202f}\u{205f}\u{3000}"@.contains(
        c),
{
    let list =
        "\u{9}\u{a}\u{b}\u{c}\u{d} \u{85}\u{a0}\u{1680}\u{2000}\u{2001}\u{2002}\u{2003}\u{2004}\u{2005}\u{2006}\u{2007}\u{2008}\u{2009}\u{200a}\u{2028}\u{2029}\u{202f}\u{205f}\u{3000}"@;
    reveal_strlit(
        "\u{9}\u{a}\u{b}\u{c}\u{d} \u{85}\u{a0}\u{1680}\u{2000}\u{2001}\u{2002}\u{2003}\u{2004}\u{2005}\u{2006}\u{2007}\u{2008}\u{2009}\u{200a}\u{2028}\u{2029}\u{202f}\u{205f}\u{3000}",
    );
    if white_space(c) {
        let i: int = if c <= '\u{d}' {
            c as int - 9
        } else if c == ' ' {
            5
        } else if c == '\u{85}' {
            6
        } else if c == '\u{a0}' {
            7
        } else if c == '\u{1680}' {
            8
        } else if c <= '\u{200a}' {
            c as int - 0x2000 + 9
        } else if c == '\u{2028}' {
            20
        } else if c == '\u{2029}' {
            21
        } else if c == '\u{202f}' {
            22
        } else if c == '\u{205f}' {
            23
        } else {
            24
        };
        assert(list[i] == c);
    }
}

/// Whether a text is nothing but white space.
pub open spec fn is_blank(s: Seq<char>) -> bool {
    forall|i: int| 0 <= i < s.len() ==> white_space(#[trigger] s[i])
}

proof fn lemma_trim_start_of(before: Seq<char>, tail: Seq<char>)
    requires
        is_blank(before),
        tail.len() > 0 ==> !white_space(tail[0]),
    ensures
        trim_start(before + tail) == tail,
    decreases before.len(),
{
    if before.len() > 0 {
        let rest = before.subrange(1, before.len() as int);
        assert(white_space(before[0]));
        lemma_trim_start_of(rest, tail);
        assert((before + tail).subrange(1, (before + tail).len() as int) =~= rest + tail);
    } else {
        assert(before + tail =~= tail);
    }
}

proof fn lemma_trim_end_of(head: Seq<char>, after: Seq<char>)
    requires
        is_blank(after),
        head.len() > 0 ==> !white_space(head.last()),
    ensures
        trim_end(head + after) == head,
    decreases after.len(),
{
    if after.len() > 0 {
        assert(white_space(after[after.len() - 1]));
        lemma_trim_end_of(head, after.drop_last());
        assert((head + after).drop_last() =~= head + after.drop_last());
    } else {
        assert(head + after =~= head);
    }
}

/// Trimming takes the white space at both ends away, all of it, and nothing else.
pub proof fn trimming_leaves_the_middle(before: Seq<char>, middle: Seq<char>, after: Seq<char>)
    requires
        is_blank(before),
        is_trimmed(middle),
        is_blank(after),
    ensures
        trim(before + middle + after) == middle,
{
    if middle.len() > 0 {
        assert(before + middle + after =~= before + (middle + after));
        lemma_trim_start_of(before, middle + after);
        lemma_trim_end_of(middle, after);
    } else {
        let s = before + middle + after;
        let none = Seq::<char>::empty();
        assert(s =~= s + none);
        lemma_trim_start_of(s, none);
        assert(middle =~= none);
    }
}

/// The capital letters of ASCII become the small ones, letter by letter.
pub proof fn capital_letters_become_small(s: Seq<char>, i: int, letter: int)
    requires
        0 <= i < s.len(),
        0 <= letter < 26,
        s[i] == "ABCDEFGHIJKLMNOPQRSTUVWXYZ"@[letter],
    ensures
        ascii_lower(s)[i] == "abcdefghijklmnopqrstuvwxyz"@[letter],
{
    reveal_strlit("ABCDEFGHIJKLMNOPQRSTUVWXYZ");
    reveal_strlit("abcdefghijklmnopqrstuvwxyz");
}

/// Every other character stays as it is, and no character is added or lost.
pub proof fn other_characters_have_no_case(s: Seq<char>, i: int)
    requires
        0 <= i < s.len(),
        !"ABCDEFGHIJKLMNOPQRSTUVWXYZ"@.contains(s[i]),
    ensures
        ascii_lower(s)[i] == s[i],
        ascii_lower(s).len() == s.len(),
{
    reveal_strlit("ABCDEFGHIJKLMNOPQRSTUVWXYZ");
    let c = s[i];
    lemma_capital(c);
}

proof fn lemma_capital(c: char)
    requires
        !"ABCDEFGHIJKLMNOPQRSTUVWXYZ"@.contains(c),
    ensures
        lower_char(c) == c,
{
    reveal_strlit("ABCDEFGHIJKLMNOPQRSTUVWXYZ");
    if 'A' <= c && c <= 'Z' {
        assert("ABCDEFGHIJKLMNOPQRSTUVWXYZ"@[c as int - 65] == c);
    }
}

/// A pattern stands at a position exactly if its characters do, one by one.
pub proof fn pattern_stands_by_its_characters(s: Seq<char>, pattern: Seq<char>, i: int)
    ensures
        matches_at(s, pattern, i) <==> 0 <= i && i + pattern.len() <= s.len() && forall|k: int|
            0 <= k < pattern.len() ==> s[i + k] == #[trigger] pattern[k],
        has_prefix(s, pattern) <==> pattern.is_prefix_of(s),
{
    if 0 <= i && i + pattern.len() <= s.len() {
        let part = s.subrange(i, i + pattern.len());
        if part == pattern {
            assert forall|k: int| 0 <= k < pattern.len() implies s[i + k]
                == #[trigger] pattern[k] by {
                assert(part[k] == pattern[k]);
            }
        }
        if forall|k: int| 0 <= k < pattern.len() ==> s[i + k] == #[trigger] pattern[k] {
            assert(part =~= pattern);
        }
    }
    if pattern.is_prefix_of(s) {
        assert(s.subrange(0, pattern.len() as int) =~= pattern);
    }
}

/// Whether a pattern stands at a position, character by character.
pub open spec fn stands(s: Seq<char>, pattern: Seq<char>, i: int) -> bool {
    i + pattern.len() <= s.len() && forall|k: int|
        0 <= k < pattern.len() ==> s[i + k] == #[trigger] pattern[k]
}

/// A search gives the first place where the pattern stands, from where it begins
/// on, and fails only if there is none; so does the search for a character.
pub proof fn first_place_is_found(s: Seq<char>, pattern: Seq<char>, c: char, from: int)
    requires
        0 <= from,
    ensures
        match find_from(s, pattern, from) {
            Some(i) => from <= i && stands(s, pattern, i) && forall|j: int|
                from <= j < i ==> !#[trigger] stands(s, pattern, j),
            None => forall|j: int| from <= j ==> !#[trigger] stands(s, pattern, j),
        },
        match find_char(s, c, from) {
            Some(i) => from <= i < s.len() && s[i] == c && forall|j: int|
                from <= j < i ==> #[trigger] s[j] != c,
            None => forall|j: int| from <= j < s.len() ==> #[trigger] s[j] != c,
        },
{
    lemma_find_from(s, pattern, from);
    lemma_find_char(s, c, from);
    assert forall|j: int| 0 <= j implies #[trigger] stands(s, pattern, j) == matches_at(
        s,
        pattern,
        j,
    ) by {
        pattern_stands_by_its_characters(s, pattern, j);
    }
    if let Some(i) = find_from(s, pattern, from) {
        assert(stands(s, pattern, i) == matches_at(s, pattern, i));
    }
}

/// A number below ten is written with its one digit; any greater number with the
/// digits of its tens and then the digit of its ones.
pub proof fn numbers_are_written_in_tens(tens: nat, ones: nat)
    requires
        ones < 10,
    ensures
        decimal(ones) == seq!["0123456789"@[ones as int]],
        tens > 0 ==> decimal(tens * 10 + ones) == decimal(tens).push("0123456789"@[ones as int]),
{
    reveal_strlit("0123456789");
    let n: nat = tens * 10 + ones;
    if tens > 0 {
        assert(n / 10 == tens && n % 10 == ones);
    }
}

/// Whether a character is the digit with the given value: a figure, or a letter
/// of either case for the values from ten on.
pub open spec fn is_digit_of(c: char, value: nat) -> bool {
    value < 36 && (c == "0123456789abcdefghijklmnopqrstuvwxyz"@[value as int] || c
        == "0123456789ABCDEFGHIJKLMNOPQRSTUVWXYZ"@[value as int])
}

/// The number that digits form in a number system.
pub open spec fn number_of(digits: Seq<nat>, radix: nat) -> nat
    decreases digits.len(),
{
    if digits.len() == 0 {
        0
    } else {
        number_of(digits.drop_last(), radix) * radix + digits.last()
    }
}

proof fn lemma_digit(c: char, value: nat, radix: nat)
    requires
        is_digit_of(c, value),
        radix <= 36,
    ensures
        digit_value(c, radix) == (if value < radix {
            Some(value)
        } else {
            None
        }),
        c != '+',
{
    reveal_strlit("0123456789abcdefghijklmnopqrstuvwxyz");
    reveal_strlit("0123456789ABCDEFGHIJKLMNOPQRSTUVWXYZ");
}

proof fn lemma_digits(s: Seq<char>, digits: Seq<nat>, radix: nat)
    requires
        s.len() == digits.len(),
        radix <= 36,
        forall|i: int|
            0 <= i < s.len() ==> is_digit_of(#[trigger] s[i], digits[i]) && digits[i] < radix,
    ensures
        digits_value(s, radix) == Some(number_of(digits, radix)),
    decreases s.len(),
{
    if s.len() > 0 {
        let last = s.len() - 1;
        lemma_digits(s.drop_last(), digits.drop_last(), radix);
        assert(is_digit_of(s[last], digits[last]));
        lemma_digit(s[last], digits[last], radix);
    }
}

/// Digits are read as the number that they form, with or without a plus sign
/// before them, unless that number is too great.
pub proof fn digits_are_read_as_their_number(s: Seq<char>, digits: Seq<nat>, radix: nat, max: nat)
    requires
        s.len() == digits.len(),
        s.len() > 0,
        radix <= 36,
        forall|i: int|
            0 <= i < s.len() ==> is_digit_of(#[trigger] s[i], digits[i]) && digits[i] < radix,
    ensures
        number_value(s, radix, max) == (if number_of(digits, radix) <= max {
            Some(number_of(digits, radix))
        } else {
            None
        }),
        number_value(seq!['+'] + s, radix, max) == number_value(s, radix, max),
{
    lemma_digits(s, digits, radix);
    assert(is_digit_of(s[0], digits[0]));
    lemma_digit(s[0], digits[0], radix);
    assert(unsigned_digits(seq!['+'] + s) =~= s);
}

proof fn lemma_no_number(s: Seq<char>, radix: nat, i: int)
    requires
        0 <= i < s.len(),
        digit_value(s[i], radix) is None,
    ensures
        digits_value(s, radix) is None,
    decreases s.len(),
{
    if i < s.len() - 1 {
        lemma_no_number(s.drop_last(), radix, i);
    }
}

/// What holds a character that is no digit of the number system, but for one plus
/// sign at the start, is no number; nor is a text without any digit.
pub proof fn other_texts_are_no_numbers(s: Seq<char>, radix: nat, max: nat, i: int)
    requires
        radix <= 36,
        0 <= i < s.len(),
        forall|value: nat| value < radix ==> !is_digit_of(s[i], value),
        i > 0 || s[i] != '+',
    ensures
        number_value(s, radix, max) is None,
        number_value(seq![], radix, max) is None,
        number_value(seq!['+'], radix, max) is None,
{
    let c = s[i];
    assert(digit_value(c, radix) is None) by {
        if let Some(value) = digit_value(c, radix) {
            lemma_digit_has_value(c, value, radix);
        }
    }
    let digits = unsigned_digits(s);
    if s[0] == '+' {
        assert(digits[i - 1] == s[i]);
        lemma_no_number(digits, radix, i - 1);
    } else {
        lemma_no_number(digits, radix, i);
    }
}

proof fn lemma_digit_has_value(c: char, value: nat, radix: nat)
    requires
        radix <= 36,
        digit_value(c, radix) == Some(value),
    ensures
        is_digit_of(c, value),
        value < radix,
{
    reveal_strlit("0123456789abcdefghijklmnopqrstuvwxyz");
    reveal_strlit("0123456789ABCDEFGHIJKLMNOPQRSTUVWXYZ");
}

} // verus!
