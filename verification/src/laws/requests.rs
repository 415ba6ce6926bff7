//! Laws of requests and their answers, and of what the host hands over.

use vstd::prelude::*;
use vstd::utf8::*;

use crate::decode::Decoder;
use crate::error::ErrorView;
use crate::host::{before_zero, host_window, MAX_HOST_STRING_LEN};
use crate::html::content_of;
use crate::laws::encodings::{decimal_holds_only_digits, decimal_is_readable};
use crate::laws::search::lacks;
use crate::laws::whitespace::{bare_text_is_trimmed, is_trimmed, trimmed_text_has_bare_ends};
use crate::offsets::byte_offset;
use crate::request::{
    fetch_options, positive_number, required_url, result_count, screenshot_options, search_options,
    tool_named, FetchView, InputView, MAX_SEARCH_COUNT, Tool,
};
use crate::session::Exchange;
use crate::skill::{answers, fetched_content, is_cut};
use crate::tags::named_tag;
use crate::text::{ascii_lower, decimal, has_prefix, lower_char};

verus! {

/// An address that is accepted has no white space at its ends and is an HTTP
/// address, and it is accepted again as it is.
pub proof fn accepted_url_is_kept(value: Option<Seq<char>>)
    requires
        required_url(value) is Ok,
    ensures
        is_trimmed(required_url(value)->Ok_0),
        has_prefix(required_url(value)->Ok_0, "http://"@) || has_prefix(
            required_url(value)->Ok_0,
            "https://"@,
        ),
        required_url(Some(required_url(value)->Ok_0)) == required_url(value),
{
    let url = required_url(value)->Ok_0;
    trimmed_text_has_bare_ends(value.unwrap_or(seq![]));
    bare_text_is_trimmed(url);
}

/// A positive number that fits, written in decimal notation, is taken as it is;
/// the default is taken for a zero and without a number.
pub proof fn written_number_is_taken(n: nat, max: nat, default: nat)
    requires
        n <= max,
    ensures
        positive_number(Some(decimal(n)), max, default) == (if n > 0 {
            n
        } else {
            default
        }),
        positive_number(None, max, default) == default,
{
    decimal_is_readable(n, max);
    decimal_holds_only_digits(n);
    assert(decimal(n)[0] <= '9');
    assert(decimal(n)[decimal(n).len() - 1] == decimal(n).last());
    bare_text_is_trimmed(decimal(n));
}

/// Whatever is asked for, at least one and at most ten search results are.
pub proof fn result_count_is_bounded(value: Option<Seq<char>>)
    ensures
        1 <= result_count(value) <= MAX_SEARCH_COUNT,
{
}

/// The content of an answer is never longer than the request allows. It is the
/// whole content, or the start of it if that is longer.
pub proof fn content_is_bounded(options: FetchView, html: Seq<char>)
    ensures
        fetched_content(options, html).len() <= options.max_length,
        fetched_content(options, html) == content_of(html, options.format).take(
            fetched_content(options, html).len() as int,
        ),
        is_cut(options, html) <==> fetched_content(options, html) != content_of(
            html,
            options.format,
        ),
        is_cut(options, html) ==> fetched_content(options, html).len() == options.max_length,
{
    let content = content_of(html, options.format);
    assert(content.take(content.len() as int) =~= content);
}

/// The error with which a request is refused for what it says: it names no tool,
/// or the fields for its tool are wrong.
pub open spec fn refusal(input: InputView) -> Option<ErrorView> {
    match tool_named(input.tool) {
        Err(error) => Some(error),
        Ok(Tool::Fetch) => match fetch_options(input) {
            Err(error) => Some(error),
            Ok(_) => None,
        },
        Ok(Tool::Search) => match search_options(input) {
            Err(error) => Some(error),
            Ok(_) => None,
        },
        Ok(Tool::Screenshot) => match screenshot_options(input) {
            Err(error) => Some(error),
            Ok(_) => None,
        },
    }
}

/// A request that is refused has one answer, its error, and nothing is asked of
/// the host for it.
pub proof fn refused_request_gets_its_error<D: Decoder>(
    input: InputView,
    decoder: &D,
    exchanges: Seq<Exchange>,
    answer: Result<Seq<char>, ErrorView>,
)
    requires
        refusal(input) is Some,
    ensures
        answers(input, decoder, exchanges, answer) <==> exchanges.len() == 0 && answer == Err::<
            Seq<char>,
            ErrorView,
        >(refusal(input)->0),
{
}

/// For a request that is not refused, the host is asked for one key at most and
/// sent one request at most, in that order; for a fetch it is asked for no key.
pub proof fn host_is_asked_little<D: Decoder>(
    input: InputView,
    decoder: &D,
    exchanges: Seq<Exchange>,
    answer: Result<Seq<char>, ErrorView>,
)
    requires
        refusal(input) is None,
        answers(input, decoder, exchanges, answer),
    ensures
        tool_named(input.tool) == Ok::<Tool, ErrorView>(Tool::Fetch) ==> exchanges.len() == 1
            && exchanges[0] is Sent,
        tool_named(input.tool) != Ok::<Tool, ErrorView>(Tool::Fetch) ==> 1 <= exchanges.len() <= 2
            && exchanges[0] is Stored && (exchanges.len() == 2 ==> exchanges[1] is Sent),
{
    if exchanges.len() > 1 {
        assert(exchanges.skip(1)[0] == exchanges[1]);
    }
}

/// Each request that is sent asks for a resource and carries no body.
pub proof fn only_resources_are_requested<D: Decoder>(
    input: InputView,
    decoder: &D,
    exchanges: Seq<Exchange>,
    answer: Result<Seq<char>, ErrorView>,
    i: int,
)
    requires
        answers(input, decoder, exchanges, answer),
        0 <= i < exchanges.len(),
    ensures
        exchanges[i] matches Exchange::Sent { request, reply } ==> request.method == "GET"@
            && request.body == ""@,
{
    if refusal(input) is None {
        host_is_asked_little(input, decoder, exchanges, answer);
        if i == 1 {
            assert(exchanges.skip(1)[0] == exchanges[1]);
        }
    } else {
        refused_request_gets_its_error(input, decoder, exchanges, answer);
    }
}

/// A request is answered without an error only if the host has replied to what
/// was sent last.
pub proof fn success_needs_a_reply<D: Decoder>(
    input: InputView,
    decoder: &D,
    exchanges: Seq<Exchange>,
    answer: Result<Seq<char>, ErrorView>,
)
    requires
        answers(input, decoder, exchanges, answer),
        answer is Ok,
    ensures
        exchanges.len() > 0,
        exchanges.last() matches Exchange::Sent { request, reply } && reply is Some,
{
    if refusal(input) is None {
        host_is_asked_little(input, decoder, exchanges, answer);
        if exchanges.len() > 1 {
            assert(exchanges.skip(1)[0] == exchanges[1]);
        }
    } else {
        refused_request_gets_its_error(input, decoder, exchanges, answer);
    }
}

/// A request is refused only as wrong input.
pub proof fn refusal_is_about_the_input(input: InputView)
    requires
        refusal(input) is Some,
    ensures
        refusal(input)->0 is InvalidInput,
{
}

proof fn lemma_lower_width(c: char)
    ensures
        encode_scalar(lower_char(c) as u32).len() == encode_scalar(c as u32).len(),
        lower_char(lower_char(c)) == lower_char(c),
{
}

proof fn lemma_lower_encoded(s: Seq<char>)
    ensures
        encode_utf8(ascii_lower(s)).len() == encode_utf8(s).len(),
    decreases s.len(),
{
    if s.len() > 0 {
        lemma_lower_encoded(s.drop_first());
        lemma_lower_width(s[0]);
        assert(ascii_lower(s).drop_first() =~= ascii_lower(s.drop_first()));
    }
}

/// Lower case moves no character: each one begins at the same byte offset as
/// before. So positions found in the lower case of a text hold in the text.
pub proof fn lower_case_keeps_offsets(s: Seq<char>, i: int)
    requires
        0 <= i <= s.len(),
    ensures
        byte_offset(ascii_lower(s), i) == byte_offset(s, i),
{
    lemma_lower_encoded(s.take(i));
    assert(ascii_lower(s).take(i) =~= ascii_lower(s.take(i)));
}

/// Lower case of lower case is the same.
pub proof fn lower_case_is_stable(s: Seq<char>)
    ensures
        ascii_lower(ascii_lower(s)) == ascii_lower(s),
{
    assert forall|i: int| 0 <= i < s.len() implies ascii_lower(ascii_lower(s))[i] == ascii_lower(
        s,
    )[i] by {
        lemma_lower_width(s[i]);
    }
    assert(ascii_lower(ascii_lower(s)) =~= ascii_lower(s));
}

/// Tags are found whatever the case of their letters: documents that differ only
/// in the case of ASCII letters have their tags at the same places.
pub proof fn tags_are_found_in_any_case(
    s: Seq<char>,
    t: Seq<char>,
    tag: Seq<char>,
    closing: bool,
    from: int,
)
    requires
        ascii_lower(s) == ascii_lower(t),
    ensures
        named_tag(s, tag, closing, from) == named_tag(t, tag, closing, from),
{
}

proof fn lemma_no_zero_byte(c: char, i: int)
    requires
        c != '\0',
        0 <= i < encode_scalar(c as u32).len(),
    ensures
        encode_scalar(c as u32)[i] != 0,
{
    let code = c as u32;
    assert(0 < code <= 0x7F ==> (code & 0x7F) as u8 != 0) by (bit_vector);
    assert(0xC0u8 | ((code >> 6) & 0x1F) as u8 != 0) by (bit_vector);
    assert(0xE0u8 | ((code >> 12) & 0x0F) as u8 != 0) by (bit_vector);
    assert(0xF0u8 | ((code >> 18) & 0x7) as u8 != 0) by (bit_vector);
    assert(0x80u8 | (code & 0x3F) as u8 != 0) by (bit_vector);
    assert(0x80u8 | ((code >> 6) & 0x3F) as u8 != 0) by (bit_vector);
    assert(0x80u8 | ((code >> 12) & 0x3F) as u8 != 0) by (bit_vector);
}

proof fn lemma_no_zero(s: Seq<char>)
    requires
        lacks(s, '\0'),
    ensures
        forall|i: int| 0 <= i < encode_utf8(s).len() ==> #[trigger] encode_utf8(s)[i] != 0,
    decreases s.len(),
{
    if s.len() > 0 {
        let head = encode_scalar(s[0] as u32);
        let tail = encode_utf8(s.drop_first());
        lemma_no_zero(s.drop_first());
        assert forall|i: int| 0 <= i < encode_utf8(s).len() implies #[trigger] encode_utf8(s)[i]
            != 0 by {
            if i < head.len() {
                lemma_no_zero_byte(s[0], i);
            } else {
                assert(encode_utf8(s)[i] == tail[i - head.len()]);
            }
        }
    }
}

proof fn lemma_before_zero(bytes: Seq<u8>, junk: Seq<u8>)
    requires
        forall|i: int| 0 <= i < bytes.len() ==> #[trigger] bytes[i] != 0,
        junk.len() > 0 ==> junk[0] == 0,
    ensures
        before_zero(bytes + junk) == bytes,
    decreases bytes.len(),
{
    if bytes.len() == 0 {
        assert(bytes + junk =~= junk);
        assert(before_zero(junk) =~= bytes);
    } else {
        lemma_before_zero(bytes.skip(1), junk);
        assert((bytes + junk).skip(1) =~= bytes.skip(1) + junk);
        assert(seq![bytes[0]] + bytes.skip(1) =~= bytes);
    }
}

/// A string that the host writes in UTF-8 with a zero byte after it is read as
/// it was written, whatever follows in memory, if it holds no zero itself and is
/// not longer than the greatest length.
pub proof fn host_string_is_read_as_written(text: Seq<char>, junk: Seq<u8>)
    requires
        lacks(text, '\0'),
        encode_utf8(text).len() <= MAX_HOST_STRING_LEN,
    ensures
        valid_utf8(before_zero(host_window(encode_utf8(text) + seq![0u8] + junk))),
        decode_utf8(before_zero(host_window(encode_utf8(text) + seq![0u8] + junk))) == text,
{
    let bytes = encode_utf8(text);
    let memory = bytes + seq![0u8] + junk;
    let window = host_window(memory);
    let end = window.subrange(bytes.len() as int, window.len() as int);
    assert(window =~= bytes + end);
    lemma_no_zero(text);
    lemma_before_zero(bytes, end);
    encode_utf8_valid_utf8(text);
    encode_utf8_decode_utf8(text);
}

} // verus!
