//! Laws of the codes: what each byte, each group of bytes and each character
//! becomes, written out in the alphabets of the codes, and which bytes of a host's
//! memory make up a string.

use vstd::prelude::*;
use vstd::utf8::encode_utf8;

use crate::encode::{
    base64, base64_digit, base64_group, encoded_byte, hex_digit, percent_encoded, response_base64,
    HOST_BINARY_BASE64_PREFIX,
};
use crate::host::{before_zero, host_window};
use crate::json::{escaped, escaped_char, lower_hex_digit};
use crate::text::rest;

verus! {

/// The characters that stand for themselves in a URL component.
pub open spec fn is_kept_in_urls(c: char) -> bool {
    ||| 'A' <= c && c <= 'Z'
    ||| 'a' <= c && c <= 'z'
    ||| '0' <= c && c <= '9'
    ||| c == '-'
    ||| c == '.'
    ||| c == '_'
    ||| c == '~'
}

/// Percent encoding goes byte by byte: what stands before and what stands behind a
/// byte does not change what it becomes.
pub proof fn bytes_are_encoded_one_by_one(p: Seq<u8>, q: Seq<u8>)
    ensures
        percent_encoded(p + q) == percent_encoded(p) + percent_encoded(q),
    decreases q.len(),
{
    if q.len() == 0 {
        assert(p + q =~= p);
        assert(percent_encoded(p) + percent_encoded(q) =~= percent_encoded(p));
    } else {
        bytes_are_encoded_one_by_one(p, q.drop_last());
        assert((p + q).drop_last() =~= p + q.drop_last());
        assert((p + q).last() == q.last());
        assert(percent_encoded(p + q) =~= percent_encoded(p) + percent_encoded(q));
    }
}

proof fn lemma_one_byte(byte: u8)
    ensures
        percent_encoded(seq![byte]) == encoded_byte(byte),
{
    let bytes = seq![byte];
    assert(bytes.drop_last() =~= Seq::<u8>::empty());
    assert(percent_encoded(bytes.drop_last()) =~= Seq::<char>::empty());
    assert(percent_encoded(bytes) =~= encoded_byte(byte));
}

/// A letter, a digit or one of `-`, `.`, `_` and `~` stands for itself in a URL
/// component.
pub proof fn unreserved_characters_are_kept(c: char)
    requires
        is_kept_in_urls(c),
    ensures
        percent_encoded(seq![c as u8]) == seq![c],
{
    lemma_one_byte(c as u8);
}

/// Every other byte becomes a percent sign and its two hexadecimal digits in upper
/// case.
pub proof fn other_bytes_become_their_digits(byte: u8)
    requires
        !is_kept_in_urls(byte as char),
    ensures
        percent_encoded(seq![byte]) == seq![
            '%',
            "0123456789ABCDEF"@[byte as int / 16],
            "0123456789ABCDEF"@[byte as int % 16],
        ],
{
    lemma_one_byte(byte);
    lemma_upper_digit(byte as int / 16);
    lemma_upper_digit(byte as int % 16);
}

proof fn lemma_upper_digit(value: int)
    requires
        0 <= value < 16,
    ensures
        hex_digit(value) == "0123456789ABCDEF"@[value],
{
    reveal_strlit("0123456789ABCDEF");
}

/// The six-bit values stand in the order of the Base64 alphabet: capital letters,
/// small letters, digits, `+` and `/`.
pub proof fn base64_digits_are_in_order(value: int)
    requires
        0 <= value < 64,
    ensures
        base64_digit(value)
            == "ABCDEFGHIJKLMNOPQRSTUVWXYZabcdefghijklmnopqrstuvwxyz0123456789+/"@[value],
{
    reveal_strlit("ABCDEFGHIJKLMNOPQRSTUVWXYZabcdefghijklmnopqrstuvwxyz0123456789+/");
}

/// The character for six bits in Base64.
pub open spec fn six_bits(value: int) -> char {
    "ABCDEFGHIJKLMNOPQRSTUVWXYZabcdefghijklmnopqrstuvwxyz0123456789+/"@[value]
}

proof fn lemma_three_bytes(a: int, b: int, c: int)
    requires
        0 <= a < 256,
        0 <= b < 256,
        0 <= c < 256,
    ensures
        (a * 65536 + b * 256 + c) / 262144 == a / 4,
        (a * 65536 + b * 256 + c) / 4096 % 64 == a % 4 * 16 + b / 16,
        (a * 65536 + b * 256 + c) / 64 % 64 == b % 16 * 4 + c / 64,
        (a * 65536 + b * 256 + c) % 64 == c % 64,
{
    let n: int = a * 65536 + b * 256 + c;
    let high: int = a / 4;
    let upper: int = a % 4 * 16 + b / 16;
    let lower: int = b % 16 * 4 + c / 64;
    let low: int = c % 64;
    assert(n == high * 262144 + upper * 4096 + lower * 64 + low);
    assert(n / 64 == high * 4096 + upper * 64 + lower);
    assert(n / 4096 == high * 64 + upper);
}

/// Three bytes become the four digits of their bits, whatever follows them.
pub proof fn three_bytes_become_four_digits(a: u8, b: u8, c: u8, tail: Seq<u8>)
    ensures
        base64(seq![a, b, c] + tail) == seq![
            six_bits(a as int / 4),
            six_bits(a as int % 4 * 16 + b as int / 16),
            six_bits(b as int % 16 * 4 + c as int / 64),
            six_bits(c as int % 64),
        ] + base64(tail),
{
    let bytes = seq![a, b, c] + tail;
    let group = seq![a, b, c];
    lemma_three_bytes(a as int, b as int, c as int);
    base64_digits_are_in_order(a as int / 4);
    base64_digits_are_in_order(a as int % 4 * 16 + b as int / 16);
    base64_digits_are_in_order(b as int % 16 * 4 + c as int / 64);
    base64_digits_are_in_order(c as int % 64);
    if tail.len() == 0 {
        assert(bytes =~= group);
        assert(base64(bytes) =~= base64_group(group) + base64(tail));
    } else {
        assert(bytes.take(3) =~= group);
        assert(bytes.skip(3) =~= tail);
    }
}

/// Two bytes at the end become three digits and an equals sign.
pub proof fn two_bytes_become_three_digits(a: u8, b: u8)
    ensures
        base64(seq![a, b]) == seq![
            six_bits(a as int / 4),
            six_bits(a as int % 4 * 16 + b as int / 16),
            six_bits(b as int % 16 * 4),
            '=',
        ],
{
    lemma_three_bytes(a as int, b as int, 0);
    base64_digits_are_in_order(a as int / 4);
    base64_digits_are_in_order(a as int % 4 * 16 + b as int / 16);
    base64_digits_are_in_order(b as int % 16 * 4);
}

/// One byte at the end becomes two digits and two equals signs, and no bytes become
/// nothing.
pub proof fn one_byte_becomes_two_digits(a: u8)
    ensures
        base64(seq![a]) == seq![six_bits(a as int / 4), six_bits(a as int % 4 * 16), '=', '='],
        base64(seq![]) == Seq::<char>::empty(),
{
    lemma_three_bytes(a as int, 0, 0);
    base64_digits_are_in_order(a as int / 4);
    base64_digits_are_in_order(a as int % 4 * 16);
}

/// The mark of a body that a host has encoded.
pub open spec fn body_mark() -> Seq<char> {
    seq![
        '_', '_', 'f', 'a', 'w', 'x', '_', 'b', 'i', 'n', 'a', 'r', 'y', '_', 'b', 'a', 's', 'e',
        '6', '4', '_', '_', ':',
    ]
}

/// Behind the mark of a host a body is taken as it is, whatever it holds.
pub proof fn encoded_body_is_taken(body: Seq<char>)
    ensures
        response_base64(body_mark() + body) == body,
{
    reveal_strlit("__fawx_binary_base64__:");
    let mark = HOST_BINARY_BASE64_PREFIX@;
    assert(mark =~= body_mark());
    let response = mark + body;
    assert(response.subrange(0, mark.len() as int) =~= mark);
    assert(rest(response, mark.len() as int) =~= body);
}

/// A body that does not begin with the whole mark is encoded as it stands.
pub proof fn other_bodies_are_encoded(response: Seq<char>)
    requires
        forall|body: Seq<char>| response != #[trigger] (body_mark() + body),
    ensures
        response_base64(response) == base64(encode_utf8(response)),
{
    reveal_strlit("__fawx_binary_base64__:");
    let mark = HOST_BINARY_BASE64_PREFIX@;
    assert(mark =~= body_mark());
    if response.len() >= mark.len() && response.subrange(0, mark.len() as int) == mark {
        let body = rest(response, mark.len() as int);
        assert(response =~= body_mark() + body);
    }
}

/// The marks with which quotes, backslashes and the common control characters are
/// escaped in a JSON string.
pub proof fn special_characters_are_escaped()
    ensures
        escaped_char('"') == seq!['\\', '"'],
        escaped_char('\\') == seq!['\\', '\\'],
        escaped_char('\u{8}') == seq!['\\', 'b'],
        escaped_char('\t') == seq!['\\', 't'],
        escaped_char('\n') == seq!['\\', 'n'],
        escaped_char('\u{c}') == seq!['\\', 'f'],
        escaped_char('\r') == seq!['\\', 'r'],
{
}

/// The other control characters are escaped with the four hexadecimal digits of
/// their code in lower case.
pub proof fn control_characters_are_escaped(c: char)
    requires
        c < ' ',
        c != '\u{8}' && c != '\t' && c != '\n' && c != '\u{c}' && c != '\r',
    ensures
        escaped_char(c) == seq![
            '\\',
            'u',
            '0',
            '0',
            "0123456789abcdef"@[c as int / 16],
            "0123456789abcdef"@[c as int % 16],
        ],
{
    lemma_lower_digit(c as int / 16);
    lemma_lower_digit(c as int % 16);
}

proof fn lemma_lower_digit(value: int)
    requires
        0 <= value < 16,
    ensures
        lower_hex_digit(value) == "0123456789abcdef"@[value],
{
    reveal_strlit("0123456789abcdef");
}

/// A text is escaped character by character.
pub proof fn characters_are_escaped_one_by_one(p: Seq<char>, c: char, q: Seq<char>)
    ensures
        escaped(p + seq![c] + q) == escaped(p) + escaped_char(c) + escaped(q),
    decreases q.len(),
{
    let s = p + seq![c] + q;
    if q.len() == 0 {
        assert(s.drop_last() =~= p);
        assert(escaped(q) =~= Seq::<char>::empty());
        assert(escaped(s) =~= escaped(p) + escaped_char(c) + escaped(q));
    } else {
        characters_are_escaped_one_by_one(p, c, q.drop_last());
        assert(s.drop_last() =~= p + seq![c] + q.drop_last());
        assert(s.last() == q.last());
        assert(escaped(s) =~= escaped(p) + escaped_char(c) + escaped(q));
    }
}

/// A string of the host ends before the first zero byte, whatever follows it.
pub proof fn string_ends_at_zero(text: Seq<u8>, junk: Seq<u8>)
    requires
        forall|i: int| 0 <= i < text.len() ==> #[trigger] text[i] != 0,
    ensures
        before_zero(text + seq![0u8] + junk) == text,
        before_zero(text) == text,
    decreases text.len(),
{
    let memory = text + seq![0u8] + junk;
    if text.len() > 0 {
        let tail = text.skip(1);
        assert forall|i: int| 0 <= i < tail.len() implies #[trigger] tail[i] != 0 by {
            assert(text[i + 1] != 0);
        }
        string_ends_at_zero(tail, junk);
        assert(memory.skip(1) =~= tail + seq![0u8] + junk);
        assert(seq![text[0]] + tail =~= text);
    } else {
        assert(before_zero(memory) =~= text);
        assert(before_zero(text) =~= text);
    }
}

/// Of the memory behind the start of a string no more than 1048576 bytes are looked
/// at, and all of it if it is no longer.
pub proof fn memory_is_read_up_to_its_limit(memory: Seq<u8>, beyond: Seq<u8>)
    ensures
        memory.len() <= 1048576 ==> host_window(memory) == memory,
        memory.len() == 1048576 ==> host_window(memory + beyond) == memory,
{
    if memory.len() == 1048576 {
        if beyond.len() > 0 {
            assert((memory + beyond).take(1048576) =~= memory);
        } else {
            assert(memory + beyond =~= memory);
        }
    }
}

} // verus!
