//! Laws of character references: what each of them stands for, and that a text is
//! decoded reference by reference.

use vstd::prelude::*;

use crate::entities::{code_char, entities_decoded, entity_char, numeric_entity};
use crate::laws::characters::{digits_are_read_as_their_number, is_digit_of, number_of};
use crate::laws::plain_text::lemma_decoded_behind;
use crate::laws::search::lacks;
use crate::text::{find_char, has_prefix, lemma_find_char, number_value, rest};

verus! {

/// The named references and what they stand for.
pub proof fn named_references_stand_for()
    ensures
        entity_char("nbsp"@) == Some(' '),
        entity_char("apos"@) == Some('\''),
        entity_char("quot"@) == Some('"'),
        entity_char("gt"@) == Some('>'),
        entity_char("lt"@) == Some('<'),
        entity_char("amp"@) == Some('&'),
{
    reveal_strlit("nbsp");
    reveal_strlit("#39");
    reveal_strlit("apos");
    reveal_strlit("quot");
    reveal_strlit("gt");
    reveal_strlit("lt");
    reveal_strlit("amp");
    assert("lt"@[0] != "gt"@[0]);
    assert("amp"@[0] != "#39"@[0]);
    assert("quot"@[0] != "nbsp"@[0] && "quot"@[0] != "apos"@[0]);
    assert("apos"@[0] != "nbsp"@[0]);
}

/// A reference that is none of the named ones and does not begin with a number sign
/// stands for nothing.
pub proof fn other_names_stand_for_nothing(name: Seq<char>)
    requires
        name != "nbsp"@,
        name != "apos"@,
        name != "quot"@,
        name != "gt"@,
        name != "lt"@,
        name != "amp"@,
        name.len() == 0 || name[0] != '#',
    ensures
        entity_char(name) is None,
        numeric_entity(name) is None,
{
    reveal_strlit("#39");
    reveal_strlit("#x");
    reveal_strlit("#X");
    reveal_strlit("#");
    if has_prefix(name, "#x"@) {
        assert(name.subrange(0, 2)[0] == '#');
    }
    if has_prefix(name, "#X"@) {
        assert(name.subrange(0, 2)[0] == '#');
    }
    if has_prefix(name, "#"@) {
        assert(name.subrange(0, 1)[0] == '#');
    }
}

proof fn lemma_hash(digits: Seq<char>, mark: char)
    ensures
        mark == 'x' || mark == 'X' ==> numeric_entity(seq!['#', mark] + digits)
            == code_char(digits, 16),
        digits.len() > 0 && digits[0] != 'x' && digits[0] != 'X' ==> numeric_entity(
            seq!['#'] + digits,
        ) == code_char(digits, 10),
        numeric_entity(seq!['#']) is None,
{
    reveal_strlit("#x");
    reveal_strlit("#X");
    reveal_strlit("#");
    let hex = seq!['#', mark] + digits;
    assert(hex.subrange(0, 2) =~= seq!['#', mark]);
    assert("#x"@ =~= seq!['#', 'x']);
    assert("#X"@ =~= seq!['#', 'X']);
    assert(rest(hex, 2) =~= digits);
    let dec = seq!['#'] + digits;
    assert(dec.subrange(0, 1) =~= "#"@);
    assert(rest(dec, 1) =~= digits);
    if digits.len() > 0 {
        assert(dec.subrange(0, 2)[1] == digits[0]);
    }
    let alone = seq!['#'];
    assert(alone.subrange(0, 1) =~= "#"@);
    assert(rest(alone, 1) =~= Seq::<char>::empty());
}

/// The character with a code; none if no character has it.
pub open spec fn char_with_code(code: nat) -> Option<char> {
    if code < 0xD800 || (0xE000 <= code <= 0x10FFFF) {
        Some(code as char)
    } else {
        None
    }
}

/// A numeric reference stands for the character with the code that its digits form:
/// decimal ones behind a number sign, hexadecimal ones behind a number sign and an
/// `x` of either case. A code that no character has stands for nothing.
pub proof fn numeric_reference_stands_for_its_code(
    digits: Seq<char>,
    values: Seq<nat>,
    radix: nat,
    mark: char,
)
    requires
        digits.len() == values.len(),
        digits.len() > 0,
        radix == 10 || radix == 16,
        forall|i: int|
            0 <= i < digits.len() ==> is_digit_of(#[trigger] digits[i], values[i]) && values[i]
                < radix,
        mark == 'x' || mark == 'X',
    ensures
        radix == 16 ==> numeric_entity(seq!['#', mark] + digits) == char_with_code(
            number_of(values, 16),
        ),
        radix == 10 ==> numeric_entity(seq!['#'] + digits) == char_with_code(
            number_of(values, 10),
        ),
{
    digits_are_read_as_their_number(digits, values, radix, u32::MAX as nat);
    lemma_hash(digits, mark);
    if radix == 10 {
        assert(is_digit_of(digits[0], values[0]));
        reveal_strlit("0123456789abcdefghijklmnopqrstuvwxyz");
        reveal_strlit("0123456789ABCDEFGHIJKLMNOPQRSTUVWXYZ");
    }
}

/// What stands behind the number sign is read as a number; where it is none, the
/// reference stands for nothing.
pub proof fn numeric_reference_is_read_as_a_number(digits: Seq<char>, mark: char)
    requires
        mark == 'x' || mark == 'X',
    ensures
        numeric_entity(seq!['#', mark] + digits) == (match number_value(
            digits,
            16,
            u32::MAX as nat,
        ) {
            Some(code) => char_with_code(code),
            None => None,
        }),
        digits.len() > 0 && digits[0] != 'x' && digits[0] != 'X' ==> numeric_entity(
            seq!['#'] + digits,
        ) == (match number_value(digits, 10, u32::MAX as nat) {
            Some(code) => char_with_code(code),
            None => None,
        }),
        numeric_entity(seq!['#']) is None,
{
    lemma_hash(digits, mark);
}

/// Any reference with a number sign is a numeric one.
pub proof fn number_sign_makes_it_numeric(name: Seq<char>)
    requires
        name.len() > 0,
        name[0] == '#',
        name != "#39"@,
    ensures
        entity_char(name) == numeric_entity(name),
        entity_char("#39"@) == Some('\''),
{
    reveal_strlit("nbsp");
    reveal_strlit("#39");
    reveal_strlit("apos");
    reveal_strlit("quot");
    reveal_strlit("gt");
    reveal_strlit("lt");
    reveal_strlit("amp");
}

/// A text is decoded up to its first reference as it stands; the reference becomes
/// what it stands for, or stays if that is nothing; and the rest is decoded by
/// itself. An ampersand that no semicolon follows stays, with all that follows it.
pub proof fn first_reference_is_decoded(before: Seq<char>, name: Seq<char>, after: Seq<char>)
    requires
        lacks(before, '&'),
        lacks(name, ';'),
    ensures
        entities_decoded(before + seq!['&'] + name + seq![';'] + after, 0) == before + (
        match entity_char(name) {
            Some(c) => seq![c],
            None => seq!['&'] + name + seq![';'],
        }) + entities_decoded(after, 0),
        entities_decoded(before + seq!['&'] + name, 0) == before + seq!['&'] + name,
{
    let head = before + seq!['&'] + name + seq![';'];
    let s = head + after;
    let start = before.len() as int;
    let end = start + 1 + name.len();
    lemma_find_char(s, '&', 0);
    assert(s[start] == '&');
    assert forall|i: int| 0 <= i < start implies s[i] != '&' by {
        assert(s[i] == before[i]);
    }
    assert(find_char(s, '&', 0) == Some(start));
    lemma_find_char(s, ';', start);
    assert(s[end] == ';');
    assert forall|i: int| start <= i < end implies s[i] != ';' by {
        if i > start {
            assert(s[i] == name[i - start - 1]);
        }
    }
    assert(find_char(s, ';', start) == Some(end));
    assert(s.subrange(start + 1, end) =~= name);
    assert(s.subrange(0, start) =~= before);
    assert(s.subrange(start, end + 1) =~= seq!['&'] + name + seq![';']);
    lemma_decoded_behind(head, after, 0);
    let t = before + seq!['&'] + name;
    lemma_find_char(t, '&', 0);
    assert(t[start] == '&');
    assert forall|i: int| 0 <= i < start implies t[i] != '&' by {
        assert(t[i] == before[i]);
    }
    assert(find_char(t, '&', 0) == Some(start));
    lemma_find_char(t, ';', start);
    assert forall|i: int| start <= i < t.len() implies t[i] != ';' by {
        if i > start {
            assert(t[i] == name[i - start - 1]);
        }
    }
    assert(rest(t, 0) =~= t);
}

} // verus!
