//! Encodings of outgoing text: percent encoding, Base64, and grouped digits.

use vstd::prelude::*;
use vstd::slice::slice_subrange;
use vstd::utf8::encode_utf8;

use crate::text::{
    decimal, decimal_chars, from_chars, has_prefix, push_range, rest, starts_with, to_chars,
};

verus! {

/// The mark with which a host prefixes a body that it has already encoded in
/// Base64.
pub const HOST_BINARY_BASE64_PREFIX: &'static str = "__fawx_binary_base64__:";

/// The bytes that stand for themselves in a URL component: ASCII letters and
/// digits, and `-`, `.`, `_` and `~`.
pub open spec fn unreserved(byte: u8) -> bool {
    ||| 0x41 <= byte <= 0x5a
    ||| 0x61 <= byte <= 0x7a
    ||| 0x30 <= byte <= 0x39
    ||| byte == 0x2d
    ||| byte == 0x2e
    ||| byte == 0x5f
    ||| byte == 0x7e
}

/// A hexadecimal digit in upper case.
pub open spec fn hex_digit(value: int) -> char {
    if value < 10 {
        (value + 48) as char
    } else {
        (value + 55) as char
    }
}

/// What a byte becomes in a URL component: itself, or a percent sign and its two
/// hexadecimal digits.
pub open spec fn encoded_byte(byte: u8) -> Seq<char> {
    if unreserved(byte) {
        seq![byte as char]
    } else {
        seq!['%', hex_digit(byte as int / 16), hex_digit(byte as int % 16)]
    }
}

/// The percent encoding of a sequence of bytes.
pub open spec fn percent_encoded(bytes: Seq<u8>) -> Seq<char>
    decreases bytes.len(),
{
    if bytes.len() == 0 {
        seq![]
    } else {
        percent_encoded(bytes.drop_last()) + encoded_byte(bytes.last())
    }
}

/// The percent encoding of a text in UTF-8.
pub open spec fn url_component(s: Seq<char>) -> Seq<char> {
    percent_encoded(encode_utf8(s))
}

fn hex_char(value: u8) -> (c: char)
    requires
        value < 16,
    ensures
        c == hex_digit(value as int),
{
    if value < 10 {
        (value + 48) as char
    } else {
        (value + 55) as char
    }
}

/// Encodes a text as a component of a URL.
pub fn encode_url_component(value: &str) -> (encoded: String)
    ensures
        encoded@ == url_component(value@),
{
    let bytes = value.as_bytes();
    let mut encoded = String::new();
    for i in 0..bytes.len()
        invariant
            encoded@ == percent_encoded(bytes@.take(i as int)),
    {
        assert(bytes@.take(i + 1).drop_last() =~= bytes@.take(i as int));
        let ghost before = encoded@;
        let byte = bytes[i];
        if (0x41 <= byte && byte <= 0x5a) || (0x61 <= byte && byte <= 0x7a) || (0x30 <= byte
            && byte <= 0x39) || byte == 0x2d || byte == 0x2e || byte == 0x5f || byte == 0x7e {
            encoded.push(byte as char);
        } else {
            encoded.push('%');
            encoded.push(hex_char(byte / 16));
            encoded.push(hex_char(byte % 16));
        }
        assert(encoded@ =~= before + encoded_byte(byte));
    }
    assert(bytes@.take(bytes@.len() as int) =~= bytes@);
    encoded
}

/// The character of a six-bit value in Base64.
pub open spec fn base64_digit(value: int) -> char {
    if value < 26 {
        (value + 65) as char
    } else if value < 52 {
        (value + 71) as char
    } else if value < 62 {
        (value - 4) as char
    } else if value == 62 {
        '+'
    } else {
        '/'
    }
}

/// The Base64 encoding of a group of one, two or three bytes: the digits of the
/// number that they form, and an equals sign for each byte that is missing.
pub open spec fn base64_group(group: Seq<u8>) -> Seq<char> {
    let second: int = if group.len() > 1 {
        group[1] as int
    } else {
        0
    };
    let third: int = if group.len() > 2 {
        group[2] as int
    } else {
        0
    };
    let number: int = group[0] * 65536 + second * 256 + third;
    seq![
        base64_digit(number / 262144),
        base64_digit(number / 4096 % 64),
        if group.len() > 1 {
            base64_digit(number / 64 % 64)
        } else {
            '='
        },
        if group.len() > 2 {
            base64_digit(number % 64)
        } else {
            '='
        },
    ]
}

/// The Base64 encoding of a sequence of bytes, in groups of three.
pub open spec fn base64(bytes: Seq<u8>) -> Seq<char>
    decreases bytes.len(),
{
    if bytes.len() == 0 {
        seq![]
    } else if bytes.len() <= 3 {
        base64_group(bytes)
    } else {
        base64_group(bytes.take(3)) + base64(bytes.skip(3))
    }
}

fn base64_char(value: u32) -> (c: char)
    requires
        value < 64,
    ensures
        c == base64_digit(value as int),
{
    let value: u8 = value as u8;
    if value < 26 {
        (value + 65) as char
    } else if value < 52 {
        (value + 71) as char
    } else if value < 62 {
        (value - 4) as char
    } else if value == 62 {
        '+'
    } else {
        '/'
    }
}

fn push_base64_group(out: &mut String, group: &[u8])
    requires
        1 <= group@.len() <= 3,
    ensures
        final(out)@ == old(out)@ + base64_group(group@),
{
    let len: usize = group.len();
    let first: u32 = group[0] as u32;
    let second: u32 = if len > 1 {
        group[1] as u32
    } else {
        0
    };
    let third: u32 = if len > 2 {
        group[2] as u32
    } else {
        0
    };
    let number: u32 = first * 65536 + second * 256 + third;
    out.push(base64_char(number / 262144));
    out.push(base64_char(number / 4096 % 64));
    if len > 1 {
        out.push(base64_char(number / 64 % 64));
    } else {
        out.push('=');
    }
    if len > 2 {
        out.push(base64_char(number % 64));
    } else {
        out.push('=');
    }
    assert(out@ =~= old(out)@ + base64_group(group@));
}

/// Encodes bytes in Base64, with padding.
pub fn base64_encode(bytes: &[u8]) -> (encoded: String)
    ensures
        encoded@ == base64(bytes@),
{
    let len: usize = bytes.len();
    let mut encoded = String::new();
    let mut from: usize = 0;
    assert(bytes@.skip(0) =~= bytes@);
    assert(encoded@ + base64(bytes@) =~= base64(bytes@));
    while from < len
        invariant
            len == bytes@.len(),
            from <= len,
            encoded@ + base64(bytes@.skip(from as int)) == base64(bytes@),
        decreases len - from,
    {
        let ghost left = bytes@.skip(from as int);
        let ghost before = encoded@;
        let to: usize = if len - from > 3 {
            from + 3
        } else {
            len
        };
        let group = slice_subrange(bytes, from, to);
        push_base64_group(&mut encoded, group);
        proof {
            if len - from > 3 {
                assert(left.take(3) =~= group@);
                assert(left.skip(3) =~= bytes@.skip(to as int));
            } else {
                assert(left =~= group@);
                assert(bytes@.skip(to as int).len() == 0);
            }
            assert(encoded@ + base64(bytes@.skip(to as int)) =~= before + base64(left));
        }
        from = to;
    }
    assert(encoded@ =~= base64(bytes@));
    encoded
}

/// The Base64 encoding of a response body: what follows the mark of a host that
/// has encoded it, else the encoding of its bytes.
pub open spec fn response_base64(response: Seq<char>) -> Seq<char> {
    if has_prefix(response, HOST_BINARY_BASE64_PREFIX@) {
        rest(response, HOST_BINARY_BASE64_PREFIX@.len() as int)
    } else {
        base64(encode_utf8(response))
    }
}

/// Gives the Base64 encoding of a response body.
pub fn response_binary_base64(response: &str) -> (encoded: String)
    ensures
        encoded@ == response_base64(response@),
{
    let chars = to_chars(response);
    let mark = to_chars(HOST_BINARY_BASE64_PREFIX);
    if starts_with(chars.as_slice(), HOST_BINARY_BASE64_PREFIX) {
        from_chars(slice_subrange(chars.as_slice(), mark.len(), chars.len()))
    } else {
        base64_encode(response.as_bytes())
    }
}

/// Digits with a comma before each full group of three, counted from the end.
pub open spec fn grouped(digits: Seq<char>) -> Seq<char>
    decreases digits.len(),
{
    if digits.len() <= 3 {
        digits
    } else {
        grouped(digits.take(digits.len() - 3)).push(',') + digits.skip(digits.len() - 3)
    }
}

/// Writes a number in decimal notation, with commas between groups of three
/// digits.
pub fn comma_number(value: usize) -> (text: String)
    ensures
        text@ == grouped(decimal(value as nat)),
{
    let digits = decimal_chars(value as u64);
    let s = digits.as_slice();
    let len: usize = s.len();
    proof {
        crate::encode::lemma_decimal_not_empty(value as nat);
    }
    let mut to: usize = (len - 1) % 3 + 1;
    let mut text = String::new();
    push_range(&mut text, s, 0, to);
    assert(text@ =~= s@.take(to as int));
    while to < len
        invariant
            len == s@.len(),
            1 <= to <= len,
            (len - to) % 3 == 0,
            text@ == grouped(s@.take(to as int)),
        decreases len - to,
    {
        let ghost longer = s@.take(to + 3);
        assert(longer.take(longer.len() - 3) =~= s@.take(to as int));
        assert(longer.skip(longer.len() - 3) =~= s@.subrange(to as int, to + 3));
        text.push(',');
        push_range(&mut text, s, to, to + 3);
        to += 3;
    }
    assert(s@.take(len as int) =~= s@);
    text
}

/// A number has at least one digit.
pub proof fn lemma_decimal_not_empty(n: nat)
    ensures
        decimal(n).len() > 0,
{
}

} // verus!
