//! The provider's side of the protocol: which capability a request asks
//! for, and the response that the outcome of a capability becomes.

use crate::change::{changes_of, Change, Changes, ChangeView};
use crate::wire::{
    payload, payload_of, text_of, Method, same_text, MEDIA_TYPE, STATUS_INTERNAL_SERVER_ERROR,
    STATUS_OK,
};
use vstd::prelude::*;
use vstd::utf8::{decode_utf8, valid_utf8};

verus! {

/// What a provider can be asked to do.
#[derive(Clone, Copy, Debug, PartialEq, Eq, Structural)]
pub enum Capability {
    /// Initialise, and report the domain filter.
    Init,
    /// Report the provider's health.
    Healthz,
    /// Report the current records.
    GetRecords,
    /// Apply a batch of changes.
    SetRecords,
    /// Adjust a list of desired endpoints.
    AdjustEndpoints,
}

/// The capability that a request for `path` with `method` asks for, if
/// any. `path` is taken below the prefix under which the provider is served.
pub open spec fn route_of(method: Method, path: Seq<char>) -> Option<Capability> {
    match method {
        Method::Get => if path == "/healthz"@ {
            Some(Capability::Healthz)
        } else if path == "/records"@ {
            Some(Capability::GetRecords)
        } else if path == "/"@ || path == ""@ {
            Some(Capability::Init)
        } else {
            None
        },
        Method::Post => if path == "/records"@ {
            Some(Capability::SetRecords)
        } else if path == "/adjustendpoints"@ {
            Some(Capability::AdjustEndpoints)
        } else {
            None
        },
    }
}

/// The capability that a request for `path` with `method` asks for (see [`route_of`]).
pub fn route(method: Method, path: &str) -> (capability: Option<Capability>)
    ensures
        capability == route_of(method, path@),
{
    match method {
        Method::Get => if same_text(path, "/healthz") {
            Some(Capability::Healthz)
        } else if same_text(path, "/records") {
            Some(Capability::GetRecords)
        } else if same_text(path, "/") || same_text(path, "") {
            Some(Capability::Init)
        } else {
            None
        },
        Method::Post => if same_text(path, "/records") {
            Some(Capability::SetRecords)
        } else if same_text(path, "/adjustendpoints") {
            Some(Capability::AdjustEndpoints)
        } else {
            None
        },
    }
}

/// The payload that a request with the body `body` carries: none where
/// the body is empty or the token `null`, else the text of the body. A
/// body that is not valid UTF-8 is refused.
pub fn received_payload(body: Vec<u8>) -> (carried: Result<
    Option<String>,
    std::string::FromUtf8Error,
>)
    ensures
        carried is Ok <==> valid_utf8(body@),
        carried matches Ok(carried) ==> carried.deep_view() == if decode_utf8(body@).len() == 0 {
            None
        } else {
            payload_of(Some(decode_utf8(body@)))
        },
{
    match text_of(body) {
        Ok(text) => {
            proof {
                reveal_strlit("");
                assert(text@.len() == 0 <==> text@ =~= ""@);
            }
            if same_text(text.as_str(), "") {
                Ok(None)
            } else {
                Ok(payload(Some(text)))
            }
        },
        Err(error) => Err(error),
    }
}

/// View of a [`Response`].
#[verifier::ext_equal]
pub struct ResponseView {
    pub status: u16,
    pub content_type: Option<Seq<char>>,
    pub body: Seq<char>,
}

/// A response of the protocol, ready to be sent.
#[derive(Debug)]
pub struct Response {
    pub status: u16,
    /// The `Content-Type` header that the protocol asks for, if it asks for one.
    pub content_type: Option<String>,
    pub body: String,
}

impl View for Response {
    type V = ResponseView;

    open spec fn view(&self) -> ResponseView {
        ResponseView {
            status: self.status,
            content_type: self.content_type.deep_view(),
            body: self.body@,
        }
    }
}

/// The response to a capability that answers in plain text and came to
/// `outcome`: success with the text, or a failure of the provider with
/// the text of its error.
pub open spec fn text_response(outcome: Result<Seq<char>, Seq<char>>) -> ResponseView {
    match outcome {
        Ok(text) => ResponseView { status: STATUS_OK, content_type: None, body: text },
        Err(text) => ResponseView {
            status: STATUS_INTERNAL_SERVER_ERROR,
            content_type: None,
            body: text,
        },
    }
}

/// The response to a capability that answers with a typed payload and
/// came to `outcome`: success with the serialised payload under the
/// protocol's media type, or a failure of the provider with the text of
/// its error.
pub open spec fn typed_response(outcome: Result<Seq<char>, Seq<char>>) -> ResponseView {
    match outcome {
        Ok(payload) => ResponseView {
            status: STATUS_OK,
            content_type: Some(MEDIA_TYPE@),
            body: payload,
        },
        Err(text) => ResponseView {
            status: STATUS_INTERNAL_SERVER_ERROR,
            content_type: None,
            body: text,
        },
    }
}

/// The response to a capability that answers with nothing and came to
/// `outcome`: success with an empty body, or a failure of the provider
/// with the text of its error.
pub open spec fn empty_response(outcome: Result<(), Seq<char>>) -> ResponseView {
    match outcome {
        Ok(_) => ResponseView { status: STATUS_OK, content_type: None, body: Seq::empty() },
        Err(text) => ResponseView {
            status: STATUS_INTERNAL_SERVER_ERROR,
            content_type: None,
            body: text,
        },
    }
}

/// The view of an outcome that holds texts.
pub open spec fn outcome_view(outcome: Result<String, String>) -> Result<Seq<char>, Seq<char>> {
    match outcome {
        Ok(text) => Ok(text@),
        Err(text) => Err(text@),
    }
}

fn respond_typed(outcome: Result<String, String>) -> (response: Response)
    ensures
        response@ == typed_response(outcome_view(outcome)),
{
    match outcome {
        Ok(payload) => Response {
            status: STATUS_OK,
            content_type: Some(MEDIA_TYPE.to_owned()),
            body: payload,
        },
        Err(text) => Response {
            status: STATUS_INTERNAL_SERVER_ERROR,
            content_type: None,
            body: text,
        },
    }
}

/// The response to an initialisation that came to `outcome`: the
/// serialised domain filter, or the text of the provider's error.
pub fn init(outcome: Result<String, String>) -> (response: Response)
    ensures
        response@ == typed_response(outcome_view(outcome)),
{
    respond_typed(outcome)
}

/// The response to a health check that came to `outcome`: the provider's
/// status text, or the text of its error.
pub fn healthz(outcome: Result<String, String>) -> (response: Response)
    ensures
        response@ == text_response(outcome_view(outcome)),
{
    match outcome {
        Ok(text) => Response { status: STATUS_OK, content_type: None, body: text },
        Err(text) => Response {
            status: STATUS_INTERNAL_SERVER_ERROR,
            content_type: None,
            body: text,
        },
    }
}

/// The response to a request for the records that came to `outcome`: the
/// serialised list of endpoints, or the text of the provider's error.
pub fn get_records(outcome: Result<String, String>) -> (response: Response)
    ensures
        response@ == typed_response(outcome_view(outcome)),
{
    respond_typed(outcome)
}

/// The changes that a request to apply a batch hands to the provider:
/// those of the batch, and none where the request carried no batch.
pub fn requested_changes(batch: Option<Changes>) -> (changes: Vec<Change>)
    ensures
        changes.deep_view() == match batch {
            Some(batch) => changes_of(batch@),
            None => Seq::<ChangeView>::empty(),
        },
{
    match batch {
        Some(batch) => Vec::<Change>::from(batch),
        None => {
            let changes: Vec<Change> = Vec::new();
            assert(changes.deep_view() =~= Seq::<ChangeView>::empty());
            changes
        },
    }
}

/// The response to a request to apply a batch that came to `outcome`:
/// success without a body, or the text of the provider's error.
pub fn set_records(outcome: Result<(), String>) -> (response: Response)
    ensures
        response@ == empty_response(
            match outcome {
                Ok(_) => Ok(()),
                Err(text) => Err(text@),
            },
        ),
{
    match outcome {
        Ok(_) => Response { status: STATUS_OK, content_type: None, body: String::new() },
        Err(text) => Response {
            status: STATUS_INTERNAL_SERVER_ERROR,
            content_type: None,
            body: text,
        },
    }
}

/// The response to a request to adjust endpoints that came to `outcome`:
/// the serialised list of resulting endpoints, or the text of the
/// provider's error.
pub fn adjust_endpoints(outcome: Result<String, String>) -> (response: Response)
    ensures
        response@ == typed_response(outcome_view(outcome)),
{
    respond_typed(outcome)
}

} // verus!
