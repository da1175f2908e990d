//! The answers given at the C boundary before or after a scan: decoding the
//! request text, and the responses for a missing request, a request that is
//! not JSON, a panic, and a response that could not be encoded.

use vstd::prelude::*;
use vstd::utf8::{decode_utf8, valid_utf8};
use crate::records::{ScanResponse, fatal_response, is_fatal, response_consistent};
use crate::text::{escape_json_string, join3, json_escaped};

verus! {

/// The text of `std::str::Utf8Error` for bytes that are not UTF-8.
pub uninterp spec fn utf8_error_text(bytes: Seq<u8>) -> Seq<char>;

/// `std::str::from_utf8`, copied into a `String`; the error is the
/// `Utf8Error`'s text.
#[verifier::external_body]
fn utf8_text(bytes: &[u8]) -> (res: Result<String, String>)
    ensures
        match res {
            Ok(text) => valid_utf8(bytes@) && text@ == decode_utf8(bytes@),
            Err(error) => !valid_utf8(bytes@) && error@ == utf8_error_text(bytes@),
        },
{
    match std::str::from_utf8(bytes) {
        Ok(text) => Ok(text.to_string()),
        Err(error) => Err(error.to_string()),
    }
}

/// Decodes the request's bytes as UTF-8; bytes that are not UTF-8 are
/// answered with an `invalid_request_utf8` error.
pub fn decode_request_text(bytes: &[u8]) -> (res: Result<String, ScanResponse>)
    ensures
        valid_utf8(bytes@) ==> (res matches Ok(text) && text@ == decode_utf8(bytes@)),
        !valid_utf8(bytes@) ==> (res matches Err(r) && response_consistent(r) && is_fatal(r,
            "invalid_request_utf8"@, "request_json is not valid UTF-8: "@ + utf8_error_text(bytes@))),
{
    match utf8_text(bytes) {
        Ok(text) => Ok(text),
        Err(error) => {
            let mut message = String::from_str("request_json is not valid UTF-8: ");
            message.append(error.as_str());
            Err(fatal_response("invalid_request_utf8", message.as_str()))
        },
    }
}

/// The answer when no request text was given.
pub fn null_request_response() -> (res: ScanResponse)
    ensures
        response_consistent(res),
        is_fatal(res, "null_request"@, "request_json must not be null"@),
{
    fatal_response("null_request", "request_json must not be null")
}

/// The answer when the request text is not a JSON request.
pub fn request_decode_failure(error: &str) -> (res: ScanResponse)
    ensures
        response_consistent(res),
        is_fatal(res, "invalid_request_json"@, "failed to decode ast-grep FFI request JSON: "@ + error@),
{
    let mut message = String::from_str("failed to decode ast-grep FFI request JSON: ");
    message.append(error);
    fatal_response("invalid_request_json", message.as_str())
}

/// The answer when a scan panicked.
pub fn panic_response() -> (res: ScanResponse)
    ensures
        response_consistent(res),
        is_fatal(res, "panic"@, "ast-grep FFI scan panicked"@),
{
    fatal_response("panic", "ast-grep FFI scan panicked")
}

/// The JSON text sent when a response could not be encoded: a failed
/// response whose message is the encoder's error, escaped.
pub fn response_encode_failure_json(error: &str) -> (res: String)
    ensures
        res@ == "{\"ok\":false,\"matches\":[],\"diagnostics\":[],\"error\":\"response_encode_failed\",\"message\":\""@
            + json_escaped(error@) + "\"}"@,
{
    let escaped = escape_json_string(error);
    join3(
        "{\"ok\":false,\"matches\":[],\"diagnostics\":[],\"error\":\"response_encode_failed\",\"message\":\"",
        escaped.as_str(),
        "\"}",
    )
}

} // verus!
