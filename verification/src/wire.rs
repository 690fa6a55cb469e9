//! What both sides of the protocol agree on: the media type, when a
//! request carries a payload, and which statuses mean success.

use vstd::prelude::*;
use vstd::utf8::{decode_utf8, valid_utf8};

verus! {

/// Media type of every JSON payload of the protocol.
pub const MEDIA_TYPE: &'static str = "application/external.dns.webhook+json;version=1";

/// Status of a response that reports success.
pub const STATUS_OK: u16 = 200;

/// Status of a response that reports a failure of the provider.
pub const STATUS_INTERNAL_SERVER_ERROR: u16 = 500;

/// The request methods that the protocol uses.
#[derive(Clone, Copy, Debug, PartialEq, Eq, Structural)]
pub enum Method {
    Get,
    Post,
}

/// Whether a status is in the success class, `200` to `299`.
pub open spec fn is_success(status: u16) -> bool {
    200 <= status < 300
}

/// Whether a status is in the success class, `200` to `299`, as
/// `http::StatusCode::is_success` has it.
pub fn status_is_success(status: u16) -> (success: bool)
    ensures
        success == is_success(status),
{
    200 <= status && status < 300
}

/// The text `null`, which is what a value without content serialises to.
pub open spec fn null_token() -> Seq<char> {
    seq!['n', 'u', 'l', 'l']
}

/// The payload that a request with the given serialised body carries:
/// none where there is no body or the body is the token `null`.
pub open spec fn payload_of(body: Option<Seq<char>>) -> Option<Seq<char>> {
    match body {
        Some(text) => if text == null_token() {
            None
        } else {
            Some(text)
        },
        None => None,
    }
}

/// Whether two texts are the same.
pub fn same_text(left: &str, right: &str) -> (same: bool)
    ensures
        same == (left@ == right@),
{
    left.to_owned() == right.to_owned()
}

/// The payload that a request with the given serialised body carries
/// (see [`payload_of`]).
pub fn payload(body: Option<String>) -> (carried: Option<String>)
    ensures
        carried.deep_view() == payload_of(body.deep_view()),
{
    match body {
        Some(text) => {
            proof {
                reveal_strlit("null");
                assert("null"@ =~= null_token());
            }
            if same_text(text.as_str(), "null") {
                None
            } else {
                Some(text)
            }
        },
        None => None,
    }
}

/// `std::string::FromUtf8Error`, the error of [`String::from_utf8`].
#[verifier::external_type_specification]
#[verifier::external_body]
pub struct ExFromUtf8Error(std::string::FromUtf8Error);

/// The text that `String::from_utf8_lossy` makes of `bytes`.
pub uninterp spec fn lossy_text(bytes: Seq<u8>) -> Seq<char>;

/// `String::from_utf8`: succeeds exactly on valid UTF-8, and the text is
/// then what the bytes encode.
#[verifier::external_body]
pub(crate) fn text_of(bytes: Vec<u8>) -> (text: Result<String, std::string::FromUtf8Error>)
    ensures
        text is Ok <==> valid_utf8(bytes@),
        text matches Ok(decoded) ==> decoded@ == decode_utf8(bytes@),
{
    String::from_utf8(bytes)
}

/// `String::from_utf8_lossy`, with the text handed back as a `String`:
/// the text that the bytes encode, with each invalid sequence replaced by
/// U+FFFD. The contract names the text ([`lossy_text`]) and says what it
/// is on valid UTF-8 only, where nothing is replaced.
#[verifier::external_body]
pub(crate) fn lossy_text_of(bytes: &[u8]) -> (text: String)
    ensures
        text@ == lossy_text(bytes@),
        valid_utf8(bytes@) ==> text@ == decode_utf8(bytes@),
{
    String::from_utf8_lossy(bytes).into_owned()
}

} // verus!
