//! Characters, substrings and numbers: the vocabulary that every other module
//! of the crate states its contracts in.
//!
//! A string is modelled by the sequence of its characters. Executable scanning
//! code works on character slices and on positions counted in characters.

use vstd::prelude::*;
use vstd::slice::slice_subrange;

verus! {

/// `String::push` appends the given character to the end of the string.
pub assume_specification[ String::push ](s: &mut String, c: char)
    ensures
        final(s)@ == old(s)@.push(c),
;

/// `char::from_u32` converts exactly the Unicode scalar values: every number up
/// to `10FFFF` (hexadecimal) but the surrogates. The character has the number
/// as its code.
pub assume_specification[ char::from_u32 ](value: u32) -> (c: Option<char>)
    ensures
        c == (if is_scalar_value(value) {
            Some(value as char)
        } else {
            None
        }),
;

/// Whether a number is a Unicode scalar value.
pub open spec fn is_scalar_value(value: u32) -> bool {
    value < 0xD800 || (0xE000 <= value && value <= 0x10FFFF)
}

/// The views of an optional string slice.
pub open spec fn opt_str(value: Option<&str>) -> Option<Seq<char>> {
    match value {
        Some(text) => Some(text@),
        None => None,
    }
}

/// The view of an optional string.
pub open spec fn opt_string(value: Option<String>) -> Option<Seq<char>> {
    match value {
        Some(text) => Some(text@),
        None => None,
    }
}

/// An optional machine position as a mathematical one.
pub open spec fn opt_pos(value: Option<usize>) -> Option<int> {
    match value {
        Some(position) => Some(position as int),
        None => None,
    }
}

/// An optional pair of machine positions as mathematical ones.
pub open spec fn opt_span(value: Option<(usize, usize)>) -> Option<(int, int)> {
    match value {
        Some((start, end)) => Some((start as int, end as int)),
        None => None,
    }
}

/// The text from a position to the end.
pub open spec fn rest(s: Seq<char>, from: int) -> Seq<char> {
    s.subrange(from, s.len() as int)
}

/// The character at a position, if there is one.
pub open spec fn char_at(s: Seq<char>, i: int) -> Option<char> {
    if 0 <= i < s.len() {
        Some(s[i])
    } else {
        None
    }
}

/// The characters with the Unicode property White_Space.
pub open spec fn white_space(c: char) -> bool {
    ||| '\u{9}' <= c && c <= '\u{d}'
    ||| c == '\u{20}'
    ||| c == '\u{85}'
    ||| c == '\u{a0}'
    ||| c == '\u{1680}'
    ||| '\u{2000}' <= c && c <= '\u{200a}'
    ||| c == '\u{2028}'
    ||| c == '\u{2029}'
    ||| c == '\u{202f}'
    ||| c == '\u{205f}'
    ||| c == '\u{3000}'
}

/// Whether a character has the Unicode property White_Space.
pub fn is_whitespace(c: char) -> (white: bool)
    ensures
        white == white_space(c),
{
    ('\u{9}' <= c && c <= '\u{d}') || c == '\u{20}' || c == '\u{85}' || c == '\u{a0}' || c
        == '\u{1680}' || ('\u{2000}' <= c && c <= '\u{200a}') || c == '\u{2028}' || c == '\u{2029}'
        || c == '\u{202f}' || c == '\u{205f}' || c == '\u{3000}'
}

/// The lower case of an ASCII letter; any other character unchanged.
pub open spec fn lower_char(c: char) -> char {
    if 'A' <= c && c <= 'Z' {
        ((c as u32) + 32) as char
    } else {
        c
    }
}

/// A text with its ASCII letters in lower case.
pub open spec fn ascii_lower(s: Seq<char>) -> Seq<char> {
    Seq::new(s.len(), |i: int| lower_char(s[i]))
}

fn to_lower_char(c: char) -> (lower: char)
    ensures
        lower == lower_char(c),
{
    if 'A' <= c && c <= 'Z' {
        (c as u8 + 32) as char
    } else {
        c
    }
}

/// The lower case of a slice of characters.
pub fn lower_chars(s: &[char]) -> (lower: Vec<char>)
    ensures
        lower@ == ascii_lower(s@),
{
    let mut lower: Vec<char> = Vec::new();
    for i in 0..s.len()
        invariant
            lower@ == ascii_lower(s@.take(i as int)),
    {
        lower.push(to_lower_char(s[i]));
        assert(lower@ =~= ascii_lower(s@.take(i + 1)));
    }
    assert(s@.take(s@.len() as int) =~= s@);
    lower
}

/// Maps the ASCII letters of a string to lower case.
pub fn ascii_lowercase(value: &str) -> (lower: String)
    ensures
        lower@ == ascii_lower(value@),
{
    from_chars(lower_chars(to_chars(value).as_slice()).as_slice())
}

/// The characters of a string.
pub fn to_chars(s: &str) -> (chars: Vec<char>)
    ensures
        chars@ == s@,
{
    let mut chars: Vec<char> = Vec::new();
    for c in it: s.chars()
        invariant
            chars@ == it.seq().take(it.index()),
            it.seq() == s@,
    {
        chars.push(c);
        assert(it.seq().take(it.index() + 1) =~= it.seq().take(it.index()).push(c));
    }
    assert(s@.take(s@.len() as int) =~= s@);
    chars
}

/// Appends characters to a string.
pub fn push_chars(out: &mut String, chars: &[char])
    ensures
        final(out)@ == old(out)@ + chars@,
{
    let ghost before = out@;
    for i in 0..chars.len()
        invariant
            out@ == before + chars@.take(i as int),
    {
        out.push(chars[i]);
        assert(out@ =~= before + chars@.take(i + 1));
    }
    assert(chars@.take(chars@.len() as int) =~= chars@);
}

/// Appends the characters of a slice between two positions to a string.
pub fn push_range(out: &mut String, chars: &[char], from: usize, to: usize)
    requires
        from <= to <= chars@.len(),
    ensures
        final(out)@ == old(out)@ + chars@.subrange(from as int, to as int),
{
    push_chars(out, slice_subrange(chars, from, to));
}

/// The string with the given characters.
pub fn from_chars(chars: &[char]) -> (s: String)
    ensures
        s@ == chars@,
{
    let mut s = String::new();
    push_chars(&mut s, chars);
    assert(s@ =~= chars@);
    s
}

/// The owned copy of a string slice.
pub fn owned(s: &str) -> (copy: String)
    ensures
        copy@ == s@,
{
    s.to_owned()
}

/// Borrows an optional string.
pub fn as_text(value: &Option<String>) -> (text: Option<&str>)
    ensures
        opt_str(text) == opt_string(*value),
{
    match value {
        Some(text) => Some(text.as_str()),
        None => None,
    }
}

/// A text without the white space at its start.
pub open spec fn trim_start(s: Seq<char>) -> Seq<char>
    decreases s.len(),
{
    if s.len() > 0 && white_space(s[0]) {
        trim_start(s.subrange(1, s.len() as int))
    } else {
        s
    }
}

/// A text without the white space at its end.
pub open spec fn trim_end(s: Seq<char>) -> Seq<char>
    decreases s.len(),
{
    if s.len() > 0 && white_space(s.last()) {
        trim_end(s.drop_last())
    } else {
        s
    }
}

/// A text without the white space at its start and at its end.
pub open spec fn trim(s: Seq<char>) -> Seq<char> {
    trim_end(trim_start(s))
}

/// Drops the white space at the start of a slice of characters.
pub fn trim_start_chars(s: &[char]) -> (trimmed: &[char])
    ensures
        trimmed@ == trim_start(s@),
{
    let mut from: usize = 0;
    assert(rest(s@, 0) =~= s@);
    while from < s.len() && is_whitespace(s[from])
        invariant
            from <= s@.len(),
            trim_start(s@) == trim_start(rest(s@, from as int)),
        decreases s@.len() - from,
    {
        assert(rest(s@, from as int).subrange(1, s@.len() - from) =~= rest(s@, from + 1));
        from += 1;
    }
    slice_subrange(s, from, s.len())
}

/// Drops the white space at the end of a slice of characters.
pub fn trim_end_chars(s: &[char]) -> (trimmed: &[char])
    ensures
        trimmed@ == trim_end(s@),
{
    let mut to: usize = s.len();
    assert(s@.subrange(0, to as int) =~= s@);
    while to > 0 && is_whitespace(s[to - 1])
        invariant
            to <= s@.len(),
            trim_end(s@) == trim_end(s@.subrange(0, to as int)),
        decreases to,
    {
        assert(s@.subrange(0, to as int).drop_last() =~= s@.subrange(0, to - 1));
        to -= 1;
    }
    slice_subrange(s, 0, to)
}

/// Drops the white space at both ends of a slice of characters.
pub fn trim_chars(s: &[char]) -> (trimmed: &[char])
    ensures
        trimmed@ == trim(s@),
{
    trim_end_chars(trim_start_chars(s))
}

/// Drops the white space at both ends of a string.
pub fn trimmed(s: &str) -> (t: String)
    ensures
        t@ == trim(s@),
{
    from_chars(trim_chars(to_chars(s).as_slice()))
}

/// Whether `pattern` stands in `s` at position `i`.
pub open spec fn matches_at(s: Seq<char>, pattern: Seq<char>, i: int) -> bool {
    &&& 0 <= i
    &&& i + pattern.len() <= s.len()
    &&& s.subrange(i, i + pattern.len()) == pattern
}

/// The first position, from `from` on, at which `pattern` stands in `s`.
pub open spec fn find_from(s: Seq<char>, pattern: Seq<char>, from: int) -> Option<int>
    decreases s.len() - from + 1,
{
    if from + pattern.len() > s.len() {
        None
    } else if matches_at(s, pattern, from) {
        Some(from)
    } else {
        find_from(s, pattern, from + 1)
    }
}

/// The first position, from `from` on, of the character `c`.
pub open spec fn find_char(s: Seq<char>, c: char, from: int) -> Option<int>
    decreases s.len() - from,
{
    if from >= s.len() {
        None
    } else if s[from] == c {
        Some(from)
    } else {
        find_char(s, c, from + 1)
    }
}

/// `find_from` gives a position at which the pattern stands, and no earlier
/// position from the start on is one; it gives none only if there is none.
pub proof fn lemma_find_from(s: Seq<char>, pattern: Seq<char>, from: int)
    requires
        0 <= from,
    ensures
        match find_from(s, pattern, from) {
            Some(i) => {
                &&& from <= i
                &&& matches_at(s, pattern, i)
                &&& forall|j: int| from <= j < i ==> !matches_at(s, pattern, j)
            },
            None => forall|j: int| from <= j ==> !matches_at(s, pattern, j),
        },
    decreases s.len() - from + 1,
{
    if from + pattern.len() <= s.len() && !matches_at(s, pattern, from) {
        lemma_find_from(s, pattern, from + 1);
    }
}

/// `find_char` gives a position of the character, and no earlier position from
/// the start on is one; it gives none only if there is none.
pub proof fn lemma_find_char(s: Seq<char>, c: char, from: int)
    requires
        0 <= from,
    ensures
        match find_char(s, c, from) {
            Some(i) => {
                &&& from <= i < s.len()
                &&& s[i] == c
                &&& forall|j: int| from <= j < i ==> s[j] != c
            },
            None => forall|j: int| from <= j < s.len() ==> s[j] != c,
        },
    decreases s.len() - from,
{
    if from < s.len() && s[from] != c {
        lemma_find_char(s, c, from + 1);
    }
}

/// Tests whether a pattern stands at a position.
pub fn stands_at(s: &[char], pattern: &[char], i: usize) -> (stands: bool)
    ensures
        stands == matches_at(s@, pattern@, i as int),
{
    if pattern.len() > s.len() || i > s.len() - pattern.len() {
        return false;
    }
    let len: usize = s.len();
    for k in 0..pattern.len()
        invariant
            len == s@.len(),
            i + pattern@.len() <= len,
            forall|j: int| 0 <= j < k ==> s@[i + j] == pattern@[j],
    {
        if s[i + k] != pattern[k] {
            assert(s@.subrange(i as int, i + pattern@.len())[k as int] != pattern@[k as int]);
            return false;
        }
    }
    assert(s@.subrange(i as int, i + pattern@.len()) =~= pattern@);
    true
}

/// Finds the first position, from `from` on, at which a pattern stands.
pub fn find_pattern(s: &[char], pattern: &[char], from: usize) -> (found: Option<usize>)
    ensures
        opt_pos(found) == find_from(s@, pattern@, from as int),
{
    let mut i: usize = from;
    while i <= s.len()
        invariant
            find_from(s@, pattern@, from as int) == find_from(s@, pattern@, i as int),
        decreases s@.len() + 1 - i,
    {
        if pattern.len() > s.len() - i {
            return None;
        }
        if stands_at(s, pattern, i) {
            return Some(i);
        }
        assert(pattern@.len() > 0) by {
            if pattern@.len() == 0 {
                assert(s@.subrange(i as int, i + 0) =~= pattern@);
            }
        }
        i += 1;
    }
    None
}

/// Finds the first position, from `from` on, of a character.
pub fn find_char_pos(s: &[char], c: char, from: usize) -> (found: Option<usize>)
    ensures
        opt_pos(found) == find_char(s@, c, from as int),
{
    let mut i: usize = from;
    while i < s.len()
        invariant
            find_char(s@, c, from as int) == find_char(s@, c, i as int),
        decreases s@.len() - i,
    {
        if s[i] == c {
            return Some(i);
        }
        i += 1;
    }
    None
}

/// Compares a slice of characters with a string.
pub fn same_text(s: &[char], t: &str) -> (same: bool)
    ensures
        same == (s@ == t@),
{
    let other = to_chars(t);
    if s.len() != other.len() {
        return false;
    }
    for i in 0..s.len()
        invariant
            s@.len() == other@.len(),
            other@ == t@,
            forall|j: int| 0 <= j < i ==> s@[j] == other@[j],
    {
        if s[i] != other[i] {
            return false;
        }
    }
    assert(s@ =~= t@);
    true
}

/// Whether a text begins with a prefix.
pub open spec fn has_prefix(s: Seq<char>, prefix: Seq<char>) -> bool {
    matches_at(s, prefix, 0)
}

/// Tests whether a slice of characters begins with a prefix.
pub fn starts_with(s: &[char], prefix: &str) -> (b: bool)
    ensures
        b == has_prefix(s@, prefix@),
{
    stands_at(s, to_chars(prefix).as_slice(), 0)
}

/// The character of a decimal digit.
pub open spec fn digit_char(digit: int) -> char {
    (digit + 48) as char
}

/// A number in decimal notation.
pub open spec fn decimal(n: nat) -> Seq<char>
    decreases n,
{
    if n < 10 {
        seq![digit_char(n as int)]
    } else {
        decimal(n / 10).push(digit_char((n % 10) as int))
    }
}

/// Writes a number in decimal notation.
pub fn decimal_chars(n: u64) -> (digits: Vec<char>)
    ensures
        digits@ == decimal(n as nat),
    decreases n,
{
    if n < 10 {
        let mut digits: Vec<char> = Vec::new();
        digits.push((n as u8 + 48) as char);
        assert(digits@ =~= decimal(n as nat));
        digits
    } else {
        let mut digits = decimal_chars(n / 10);
        digits.push(((n % 10) as u8 + 48) as char);
        digits
    }
}

/// Appends a number in decimal notation to a string.
pub fn push_decimal(out: &mut String, n: u64)
    ensures
        final(out)@ == old(out)@ + decimal(n as nat),
{
    push_chars(out, decimal_chars(n).as_slice());
}

/// The value of a digit in a number system with up to 36 digits.
pub open spec fn digit_value(c: char, radix: nat) -> Option<nat> {
    let value: nat = if '0' <= c && c <= '9' {
        (c as nat - 48) as nat
    } else if 'a' <= c && c <= 'z' {
        (c as nat - 87) as nat
    } else if 'A' <= c && c <= 'Z' {
        (c as nat - 55) as nat
    } else {
        36
    };
    if value < radix {
        Some(value)
    } else {
        None
    }
}

/// The value of a sequence of digits; none if a character is no digit.
pub open spec fn digits_value(s: Seq<char>, radix: nat) -> Option<nat>
    decreases s.len(),
{
    if s.len() == 0 {
        Some(0)
    } else {
        match (digits_value(s.drop_last(), radix), digit_value(s.last(), radix)) {
            (Some(head), Some(digit)) => Some(head * radix + digit),
            _ => None,
        }
    }
}

/// The digits of a number that may carry a plus sign.
pub open spec fn unsigned_digits(s: Seq<char>) -> Seq<char> {
    if s.len() > 0 && s[0] == '+' {
        s.subrange(1, s.len() as int)
    } else {
        s
    }
}

/// The number that a text denotes: an optional plus sign and at least one
/// digit, with a value of at most `max`.
pub open spec fn number_value(s: Seq<char>, radix: nat, max: nat) -> Option<nat> {
    let digits = unsigned_digits(s);
    if digits.len() == 0 {
        None
    } else {
        match digits_value(digits, radix) {
            Some(value) => if value <= max {
                Some(value)
            } else {
                None
            },
            None => None,
        }
    }
}

fn to_digit(c: char, radix: u32) -> (digit: Option<u32>)
    requires
        radix <= 36,
    ensures
        match digit {
            Some(value) => digit_value(c, radix as nat) == Some(value as nat),
            None => digit_value(c, radix as nat) is None,
        },
{
    let value: u32 = if '0' <= c && c <= '9' {
        c as u32 - 48
    } else if 'a' <= c && c <= 'z' {
        c as u32 - 87
    } else if 'A' <= c && c <= 'Z' {
        c as u32 - 55
    } else {
        36
    };
    if value < radix {
        Some(value)
    } else {
        None
    }
}

proof fn lemma_digits_value_grows(s: Seq<char>, k: int, radix: nat)
    requires
        0 <= k <= s.len(),
        radix >= 1,
    ensures
        digits_value(s.take(k), radix) is None ==> digits_value(s, radix) is None,
        digits_value(s, radix) is Some ==> digits_value(s.take(k), radix)->0 <= digits_value(
            s,
            radix,
        )->0,
    decreases s.len() - k,
{
    if k == s.len() {
        assert(s.take(k) =~= s);
    } else {
        lemma_digits_value_grows(s, k + 1, radix);
        assert(s.take(k + 1).drop_last() =~= s.take(k));
        if let Some(head) = digits_value(s.take(k), radix) {
            assert(head <= head * radix) by (nonlinear_arith)
                requires
                    radix >= 1,
            ;
        }
    }
}

/// Reads the number that a slice of characters denotes.
pub fn parse_number(s: &[char], radix: u32, max: u64) -> (number: Option<u64>)
    requires
        2 <= radix <= 36,
    ensures
        match number {
            Some(value) => number_value(s@, radix as nat, max as nat) == Some(value as nat),
            None => number_value(s@, radix as nat, max as nat) is None,
        },
{
    let digits = if s.len() > 0 && s[0] == '+' {
        slice_subrange(s, 1, s.len())
    } else {
        s
    };
    assert(digits@ == unsigned_digits(s@));
    if digits.len() == 0 {
        return None;
    }
    let mut value: u64 = 0;
    for i in 0..digits.len()
        invariant
            2 <= radix <= 36,
            digits@ == unsigned_digits(s@),
            digits@.len() > 0,
            value <= max,
            digits_value(digits@.take(i as int), radix as nat) == Some(value as nat),
    {
        proof {
            assert(digits@.take(i + 1).drop_last() =~= digits@.take(i as int));
            lemma_digits_value_grows(digits@, i + 1, radix as nat);
            assert(value * radix <= 0xFFFF_FFFF_FFFF_FFFF * 36) by (nonlinear_arith)
                requires
                    value <= 0xFFFF_FFFF_FFFF_FFFF,
                    radix <= 36,
            ;
        }
        match to_digit(digits[i], radix) {
            Some(digit) => {
                let next: u128 = value as u128 * radix as u128 + digit as u128;
                if next > max as u128 {
                    return None;
                }
                value = next as u64;
            },
            None => {
                return None;
            },
        }
    }
    assert(digits@.take(digits@.len() as int) =~= digits@);
    Some(value)
}

} // verus!
