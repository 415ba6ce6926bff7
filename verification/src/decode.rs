//! Incoming JSON text and the values that it is decoded to.

use vstd::prelude::*;

use crate::error::{outcome, BrowserError, ErrorView};
use crate::request::{BrowserInput, InputView};
use crate::search::BraveResponse;
use crate::text::owned;

verus! {

/// Turns incoming JSON text into values. Nothing is promised of the values; an
/// error carries the reason in words.
pub trait Decoder {
    /// Decodes a request.
    fn decode_input(&self, raw_input: &str) -> Result<BrowserInput, String>;

    /// Decodes a response of the search service.
    fn decode_response(&self, response: &str) -> Result<BraveResponse, String>;
}

/// Whether a decoder may decode a request to `decoded`.
pub open spec fn may_decode_input<D: Decoder>(
    decoder: &D,
    raw_input: Seq<char>,
    decoded: Result<BrowserInput, String>,
) -> bool {
    exists|text: &str| #[trigger]
        call_ensures(D::decode_input, (decoder, text), decoded) && text@ == raw_input
}

/// Whether a decoder may decode a response to `decoded`.
pub open spec fn may_decode_response<D: Decoder>(
    decoder: &D,
    response: Seq<char>,
    decoded: Result<BraveResponse, String>,
) -> bool {
    exists|text: &str| #[trigger]
        call_ensures(D::decode_response, (decoder, text), decoded) && text@ == response
}

/// The request that was decoded, or the error for one that could not be.
pub open spec fn decoded_input(decoded: Result<BrowserInput, String>) -> Result<
    InputView,
    ErrorView,
> {
    match decoded {
        Ok(input) => Ok(input@),
        Err(reason) => Err(ErrorView::InvalidInput("Invalid input JSON: "@ + reason@)),
    }
}

/// Decodes a response of the search service.
pub fn decode_with<D: Decoder>(decoder: &D, response: &str) -> (decoded: Result<
    BraveResponse,
    String,
>)
    ensures
        may_decode_response(decoder, response@, decoded),
{
    let decoded = decoder.decode_response(response);
    assert(call_ensures(D::decode_response, (decoder, response), decoded));
    decoded
}

/// Takes a decoded request.
pub fn take_input(decoded: Result<BrowserInput, String>) -> (input: Result<
    BrowserInput,
    BrowserError,
>)
    ensures
        outcome(input) == decoded_input(decoded),
{
    match decoded {
        Ok(input) => Ok(input),
        Err(reason) => {
            let mut message = owned("Invalid input JSON: ");
            message.append(reason.as_str());
            Err(BrowserError::InvalidInput(message))
        },
    }
}

/// Reads a request.
pub fn parse_input<D: Decoder>(raw_input: &str, decoder: &D) -> (input: Result<
    BrowserInput,
    BrowserError,
>)
    ensures
        exists|decoded: Result<BrowserInput, String>| #[trigger]
            may_decode_input(decoder, raw_input@, decoded) && outcome(input) == decoded_input(
                decoded,
            ),
{
    let decoded = decoder.decode_input(raw_input);
    proof {
        assert(call_ensures(D::decode_input, (decoder, raw_input), decoded));
        assert(may_decode_input(decoder, raw_input@, decoded));
    }
    take_input(decoded)
}

} // verus!
