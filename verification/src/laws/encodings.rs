//! Laws of the encodings: what is encoded can be decoded again, and encoded text
//! holds only the characters that its place allows.

use vstd::prelude::*;
use vstd::utf8::{decode_utf8, encode_utf8, encode_utf8_decode_utf8};

use crate::encode::{
    base64, base64_digit, base64_group, encoded_byte, grouped, percent_encoded, response_base64,
    url_component, HOST_BINARY_BASE64_PREFIX,
};
use crate::json::{escaped, escaped_char, json_string, lower_hex_digit};
use crate::text::{decimal, digit_value, digits_value, number_value, rest, unsigned_digits};

verus! {

/// The value of a hexadecimal digit.
pub open spec fn hex_value(c: char) -> int {
    if c <= '9' {
        c as int - 48
    } else if c <= 'F' {
        c as int - 55
    } else {
        c as int - 87
    }
}

/// The bytes that a percent-encoded text stands for.
pub open spec fn percent_decoded(t: Seq<char>) -> Seq<u8>
    decreases t.len(),
{
    if t.len() == 0 {
        seq![]
    } else if t[0] == '%' && t.len() >= 3 {
        seq![(hex_value(t[1]) * 16 + hex_value(t[2])) as u8] + percent_decoded(
            t.subrange(3, t.len() as int),
        )
    } else {
        seq![t[0] as u8] + percent_decoded(t.subrange(1, t.len() as int))
    }
}

proof fn lemma_percent_front(bytes: Seq<u8>)
    requires
        bytes.len() > 0,
    ensures
        percent_encoded(bytes) == encoded_byte(bytes[0]) + percent_encoded(
            bytes.subrange(1, bytes.len() as int),
        ),
    decreases bytes.len(),
{
    let tail = bytes.subrange(1, bytes.len() as int);
    if bytes.len() == 1 {
        assert(bytes.drop_last() =~= Seq::<u8>::empty());
        assert(tail =~= Seq::<u8>::empty());
        assert(percent_encoded(bytes) =~= encoded_byte(bytes[0]) + percent_encoded(tail));
    } else {
        lemma_percent_front(bytes.drop_last());
        assert(bytes.drop_last().subrange(1, bytes.len() - 1) =~= tail.drop_last());
        assert(percent_encoded(bytes) =~= encoded_byte(bytes[0]) + percent_encoded(tail));
    }
}

/// Percent encoding loses nothing: decoding gives the bytes back.
pub proof fn percent_encoding_is_reversible(bytes: Seq<u8>)
    ensures
        percent_decoded(percent_encoded(bytes)) == bytes,
    decreases bytes.len(),
{
    if bytes.len() > 0 {
        let tail = bytes.subrange(1, bytes.len() as int);
        let code = encoded_byte(bytes[0]);
        let whole = percent_encoded(bytes);
        lemma_percent_front(bytes);
        percent_encoding_is_reversible(tail);
        assert(whole.subrange(code.len() as int, whole.len() as int) =~= percent_encoded(tail));
        assert(seq![bytes[0]] + tail =~= bytes);
    }
}

/// A text that has been encoded as a URL component is found again by decoding
/// the component.
pub proof fn url_component_is_reversible(s: Seq<char>)
    ensures
        decode_utf8(percent_decoded(url_component(s))) == s,
{
    percent_encoding_is_reversible(encode_utf8(s));
    encode_utf8_decode_utf8(s);
}

/// The characters that may stand in a URL component.
pub open spec fn component_char(c: char) -> bool {
    ||| 'A' <= c && c <= 'Z'
    ||| 'a' <= c && c <= 'z'
    ||| '0' <= c && c <= '9'
    ||| c == '-'
    ||| c == '.'
    ||| c == '_'
    ||| c == '~'
    ||| c == '%'
}

proof fn lemma_percent_chars(bytes: Seq<u8>)
    ensures
        forall|i: int|
            0 <= i < percent_encoded(bytes).len() ==> component_char(
                #[trigger] percent_encoded(bytes)[i],
            ),
    decreases bytes.len(),
{
    if bytes.len() > 0 {
        lemma_percent_chars(bytes.drop_last());
        let head = percent_encoded(bytes.drop_last());
        let code = encoded_byte(bytes.last());
        assert forall|i: int| 0 <= i < percent_encoded(bytes).len() implies component_char(
            #[trigger] percent_encoded(bytes)[i],
        ) by {
            if i < head.len() {
                assert(percent_encoded(bytes)[i] == head[i]);
            } else {
                assert(percent_encoded(bytes)[i] == code[i - head.len()]);
            }
        }
    }
}

/// A URL component holds no character with a meaning of its own in a URL, such
/// as one that separates parameters.
pub proof fn url_component_is_safe(s: Seq<char>)
    ensures
        forall|i: int|
            0 <= i < url_component(s).len() ==> component_char(#[trigger] url_component(s)[i]),
{
    lemma_percent_chars(encode_utf8(s));
}

/// The six-bit value of a Base64 digit.
pub open spec fn base64_value(c: char) -> int {
    if 'A' <= c && c <= 'Z' {
        c as int - 65
    } else if 'a' <= c && c <= 'z' {
        c as int - 71
    } else if '0' <= c && c <= '9' {
        c as int + 4
    } else if c == '+' {
        62
    } else if c == '/' {
        63
    } else {
        0
    }
}

/// The bytes that a group of four Base64 digits stands for.
pub open spec fn base64_group_decoded(t: Seq<char>) -> Seq<u8> {
    let number: int = base64_value(t[0]) * 262144 + base64_value(t[1]) * 4096 + base64_value(t[2])
        * 64 + base64_value(t[3]);
    if t[2] == '=' {
        seq![(number / 65536) as u8]
    } else if t[3] == '=' {
        seq![(number / 65536) as u8, (number / 256 % 256) as u8]
    } else {
        seq![(number / 65536) as u8, (number / 256 % 256) as u8, (number % 256) as u8]
    }
}

/// The bytes that a Base64 text stands for.
pub open spec fn base64_decoded(t: Seq<char>) -> Seq<u8>
    decreases t.len(),
{
    if t.len() < 4 {
        seq![]
    } else {
        base64_group_decoded(t.take(4)) + base64_decoded(t.skip(4))
    }
}

proof fn lemma_base64_digit(value: int)
    requires
        0 <= value < 64,
    ensures
        base64_value(base64_digit(value)) == value,
        base64_digit(value) != '=',
{
}

/// The six-bit digits of a number are those that it is made of.
proof fn lemma_six_bit_digits(number: int, high: int, upper: int, lower: int, low: int)
    requires
        0 <= high < 64,
        0 <= upper < 64,
        0 <= lower < 64,
        0 <= low < 64,
        number == high * 262144 + upper * 4096 + lower * 64 + low,
    ensures
        number / 262144 == high,
        number / 4096 % 64 == upper,
        number / 64 % 64 == lower,
        number % 64 == low,
{
    assert(number / 64 == high * 4096 + upper * 64 + lower);
    assert(number / 4096 == high * 64 + upper);
}

/// The bytes of a number are those that it is made of.
proof fn lemma_bytes(number: int, first: int, second: int, third: int)
    requires
        0 <= first < 256,
        0 <= second < 256,
        0 <= third < 256,
        number == first * 65536 + second * 256 + third,
    ensures
        number / 65536 == first,
        number / 256 % 256 == second,
        number % 256 == third,
{
    assert(number / 256 == first * 256 + second);
}

proof fn lemma_base64_group(group: Seq<u8>)
    requires
        1 <= group.len() <= 3,
    ensures
        base64_group_decoded(base64_group(group)) == group,
{
    let first: int = group[0] as int;
    let second: int = if group.len() > 1 {
        group[1] as int
    } else {
        0
    };
    let third: int = if group.len() > 2 {
        group[2] as int
    } else {
        0
    };
    let number: int = first * 65536 + second * 256 + third;
    let high: int = first / 4;
    let upper: int = first % 4 * 16 + second / 16;
    let lower: int = second % 16 * 4 + third / 64;
    let low: int = third % 64;
    lemma_bytes(number, first, second, third);
    lemma_six_bit_digits(number, high, upper, lower, low);
    lemma_base64_digit(high);
    lemma_base64_digit(upper);
    lemma_base64_digit(lower);
    lemma_base64_digit(low);
    assert(base64_group_decoded(base64_group(group)) =~= group);
}

/// Base64 loses nothing: decoding gives the bytes back.
pub proof fn base64_is_reversible(bytes: Seq<u8>)
    ensures
        base64_decoded(base64(bytes)) == bytes,
    decreases bytes.len(),
{
    let t = base64(bytes);
    if bytes.len() == 0 {
    } else if bytes.len() <= 3 {
        lemma_base64_group(bytes);
        assert(t.take(4) =~= t);
        reveal_with_fuel(base64_decoded, 2);
        assert(base64_decoded(t) =~= bytes);
    } else {
        lemma_base64_group(bytes.take(3));
        base64_is_reversible(bytes.skip(3));
        assert(t.take(4) =~= base64_group(bytes.take(3)));
        assert(t.skip(4) =~= base64(bytes.skip(3)));
        assert(bytes.take(3) + bytes.skip(3) =~= bytes);
    }
}

/// Base64 takes four characters for each three bytes that are begun.
pub proof fn base64_length(bytes: Seq<u8>)
    ensures
        base64(bytes).len() == (bytes.len() + 2) / 3 * 4,
    decreases bytes.len(),
{
    if bytes.len() > 3 {
        base64_length(bytes.skip(3));
    }
}

/// A body that a host has encoded and marked is handed on as it is.
pub proof fn marked_body_is_kept(payload: Seq<char>)
    ensures
        response_base64(HOST_BINARY_BASE64_PREFIX@ + payload) == payload,
{
    let mark = HOST_BINARY_BASE64_PREFIX@;
    let response = mark + payload;
    assert(response.subrange(0, mark.len() as int) =~= mark);
    assert(rest(response, mark.len() as int) =~= payload);
}

/// A number written in decimal notation is read back as the same number.
pub proof fn decimal_is_readable(n: nat, max: nat)
    requires
        n <= max,
    ensures
        number_value(decimal(n), 10, max) == Some(n),
{
    lemma_decimal_value(n);
    assert(unsigned_digits(decimal(n)) == decimal(n));
}

proof fn lemma_decimal_value(n: nat)
    ensures
        decimal(n).len() > 0,
        digits_value(decimal(n), 10) == Some(n),
        forall|i: int|
            0 <= i < decimal(n).len() ==> '0' <= #[trigger] decimal(n)[i] && decimal(n)[i] <= '9',
    decreases n,
{
    reveal_with_fuel(digits_value, 2);
    if n < 10 {
        assert(decimal(n).drop_last() =~= Seq::<char>::empty());
    } else {
        lemma_decimal_value(n / 10);
        assert(decimal(n).drop_last() =~= decimal(n / 10));
        assert(digit_value(decimal(n).last(), 10) == Some((n % 10) as nat));
    }
}

/// A number in decimal notation holds at least one character, and only digits.
pub proof fn decimal_holds_only_digits(n: nat)
    ensures
        decimal(n).len() > 0,
        forall|i: int|
            0 <= i < decimal(n).len() ==> '0' <= #[trigger] decimal(n)[i] && decimal(n)[i] <= '9',
{
    lemma_decimal_value(n);
}

/// Without its commas, a number with grouped digits is the number in decimal
/// notation.
pub proof fn grouping_keeps_the_digits(n: nat)
    ensures
        grouped(decimal(n)).filter(|c: char| c != ',') == decimal(n),
{
    lemma_decimal_value(n);
    lemma_grouped_filter(decimal(n));
}

proof fn lemma_filter_all(s: Seq<char>)
    requires
        forall|i: int| 0 <= i < s.len() ==> s[i] != ',',
    ensures
        s.filter(|c: char| c != ',') == s,
    decreases s.len(),
{
    reveal(Seq::filter);
    if s.len() > 0 {
        lemma_filter_all(s.drop_last());
        assert(s.drop_last().push(s.last()) =~= s);
    }
}

proof fn lemma_grouped_filter(digits: Seq<char>)
    requires
        forall|i: int| 0 <= i < digits.len() ==> digits[i] != ',',
    ensures
        grouped(digits).filter(|c: char| c != ',') == digits,
    decreases digits.len(),
{
    if digits.len() <= 3 {
        lemma_filter_all(digits);
    } else {
        let head = digits.take(digits.len() - 3);
        let tail = digits.skip(digits.len() - 3);
        lemma_grouped_filter(head);
        lemma_filter_all(tail);
        lemma_filter_comma(grouped(head), tail);
        assert(head + tail =~= digits);
        assert(grouped(digits) =~= grouped(head) + seq![','] + tail);
    }
}

proof fn lemma_filter_comma(head: Seq<char>, tail: Seq<char>)
    ensures
        (head + seq![','] + tail).filter(|c: char| c != ',') == head.filter(|c: char| c != ',')
            + tail.filter(|c: char| c != ','),
{
    let keep = |c: char| c != ',';
    let comma = seq![','];
    Seq::filter_distributes_over_add(head + comma, tail, keep);
    Seq::filter_distributes_over_add(head, comma, keep);
    assert(comma.filter(keep) =~= Seq::<char>::empty()) by {
        reveal_with_fuel(Seq::filter, 2);
        assert(comma.drop_last() =~= Seq::<char>::empty());
    }
    assert(head.filter(keep) + Seq::<char>::empty() =~= head.filter(keep));
}

/// In a number with grouped digits, a character is a comma exactly where the
/// number of characters from it to the end is a multiple of four: behind each
/// comma stand groups of three digits.
pub proof fn commas_stand_between_groups(n: nat, i: int)
    requires
        0 <= i < grouped(decimal(n)).len(),
    ensures
        (grouped(decimal(n))[i] == ',') == ((grouped(decimal(n)).len() - i) % 4 == 0),
{
    lemma_decimal_value(n);
    lemma_comma_places(decimal(n), i);
}

proof fn lemma_comma_places(digits: Seq<char>, i: int)
    requires
        digits.len() > 0,
        0 <= i < grouped(digits).len(),
        forall|k: int| 0 <= k < digits.len() ==> digits[k] != ',',
    ensures
        (grouped(digits)[i] == ',') == ((grouped(digits).len() - i) % 4 == 0),
    decreases digits.len(),
{
    if digits.len() > 3 {
        let head = digits.take(digits.len() - 3);
        let tail = digits.skip(digits.len() - 3);
        if i < grouped(head).len() {
            lemma_comma_places(head, i);
            assert(grouped(digits)[i] == grouped(head)[i]);
        } else if i > grouped(head).len() {
            assert(grouped(digits)[i] == tail[i - grouped(head).len() - 1]);
        }
    }
}

/// The text that stands between the quotes of a JSON string.
pub open spec fn unescaped(t: Seq<char>) -> Seq<char>
    decreases t.len(),
{
    if t.len() == 0 {
        seq![]
    } else if t[0] == '\\' && t.len() >= 2 {
        if t[1] == 'u' && t.len() >= 6 {
            seq![(hex_value(t[4]) * 16 + hex_value(t[5])) as char] + unescaped(
                t.subrange(6, t.len() as int),
            )
        } else {
            let c = if t[1] == 'b' {
                '\u{8}'
            } else if t[1] == 't' {
                '\u{9}'
            } else if t[1] == 'n' {
                '\u{a}'
            } else if t[1] == 'f' {
                '\u{c}'
            } else if t[1] == 'r' {
                '\u{d}'
            } else {
                t[1]
            };
            seq![c] + unescaped(t.subrange(2, t.len() as int))
        }
    } else {
        seq![t[0]] + unescaped(t.subrange(1, t.len() as int))
    }
}

proof fn lemma_escaped_front(s: Seq<char>)
    requires
        s.len() > 0,
    ensures
        escaped(s) == escaped_char(s[0]) + escaped(s.subrange(1, s.len() as int)),
    decreases s.len(),
{
    let tail = s.subrange(1, s.len() as int);
    if s.len() == 1 {
        assert(s.drop_last() =~= Seq::<char>::empty());
        assert(tail =~= Seq::<char>::empty());
        assert(escaped(s) =~= escaped_char(s[0]) + escaped(tail));
    } else {
        lemma_escaped_front(s.drop_last());
        assert(s.drop_last().subrange(1, s.len() - 1) =~= tail.drop_last());
        assert(escaped(s) =~= escaped_char(s[0]) + escaped(tail));
    }
}

proof fn lemma_unescaped_step(c: char, tail: Seq<char>)
    ensures
        unescaped(escaped_char(c) + tail) == seq![c] + unescaped(tail),
{
    let code = escaped_char(c);
    let whole = code + tail;
    assert(whole.subrange(code.len() as int, whole.len() as int) =~= tail);
    assert(whole[0] == code[0]);
    if c == '"' || c == '\\' || c == '\u{8}' || c == '\u{9}' || c == '\u{a}' || c == '\u{c}' || c
        == '\u{d}' {
        assert(whole[1] == code[1]);
    } else if c <= '\u{1f}' {
        let v: int = c as int;
        assert(whole[1] == code[1] && whole[4] == code[4] && whole[5] == code[5]);
        assert(hex_value(lower_hex_digit(v / 16)) == v / 16);
        assert(hex_value(lower_hex_digit(v % 16)) == v % 16);
    }
}

proof fn lemma_unescaped(s: Seq<char>)
    ensures
        unescaped(escaped(s)) == s,
    decreases s.len(),
{
    if s.len() > 0 {
        let tail = s.subrange(1, s.len() as int);
        lemma_escaped_front(s);
        lemma_unescaped(tail);
        lemma_unescaped_step(s[0], escaped(tail));
        assert(seq![s[0]] + tail =~= s);
    }
}

/// A JSON string stands in quotes, and the text is found again between them.
pub proof fn json_string_is_reversible(s: Seq<char>)
    ensures
        json_string(s).len() >= 2,
        json_string(s)[0] == '"',
        json_string(s).last() == '"',
        unescaped(json_string(s).subrange(1, json_string(s).len() - 1)) == s,
{
    reveal_strlit("\"");
    lemma_unescaped(s);
    assert(json_string(s).subrange(1, json_string(s).len() - 1) =~= escaped(s));
}

proof fn lemma_escaped_char_printable(c: char, i: int)
    requires
        0 <= i < escaped_char(c).len(),
    ensures
        escaped_char(c)[i] > '\u{1f}',
{
}

proof fn lemma_escaped_printable(s: Seq<char>)
    ensures
        forall|i: int| 0 <= i < escaped(s).len() ==> #[trigger] escaped(s)[i] > '\u{1f}',
    decreases s.len(),
{
    if s.len() > 0 {
        let head = escaped(s.drop_last());
        lemma_escaped_printable(s.drop_last());
        assert forall|i: int| 0 <= i < escaped(s).len() implies #[trigger] escaped(s)[i]
            > '\u{1f}' by {
            if i < head.len() {
                assert(escaped(s)[i] == head[i]);
            } else {
                lemma_escaped_char_printable(s.last(), i - head.len());
            }
        }
    }
}

/// A JSON string holds no control character, and so no line break.
pub proof fn json_string_is_one_line(s: Seq<char>, i: int)
    requires
        0 <= i < json_string(s).len(),
    ensures
        json_string(s)[i] > '\u{1f}',
{
    reveal_strlit("\"");
    lemma_escaped_printable(s);
    if 1 <= i < json_string(s).len() - 1 {
        assert(json_string(s)[i] == escaped(s)[i - 1]);
    }
}

} // verus!
