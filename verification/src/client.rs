//! The driver's side of the protocol: the requests it sends and what it
//! makes of the responses.

use crate::wire::{
    is_success, lossy_text, lossy_text_of, null_token, payload, payload_of, status_is_success,
    text_of, Method, MEDIA_TYPE,
};
use vstd::prelude::*;
use vstd::utf8::{decode_utf8, valid_utf8};

verus! {

/// `url::ParseError`, the error of `url::Url::parse` and `url::Url::join`.
#[verifier::external_type_specification]
#[verifier::external_body]
pub struct ExParseError(url::ParseError);

/// The serialisation of the URL that `url::Url::parse` makes of `input`,
/// if it makes one.
pub uninterp spec fn parsed_url(input: Seq<char>) -> Option<Seq<char>>;

/// The serialisation of the URL that `url::Url::join` makes of
/// `reference`, taken relative to the URL that `url::Url::parse` makes of
/// `base`, if both succeed.
pub uninterp spec fn joined_url(base: Seq<char>, reference: Seq<char>) -> Option<Seq<char>>;

/// `url::Url::parse`, with the URL handed back as its serialisation. The
/// contract names the outcome ([`parsed_url`]) and does not say what it is.
#[verifier::external_body]
fn parse_url(input: &str) -> (parsed: Result<String, url::ParseError>)
    ensures
        match parsed {
            Ok(text) => parsed_url(input@) == Some(text@),
            Err(_) => parsed_url(input@) is None,
        },
{
    url::Url::parse(input).map(String::from)
}

/// `url::Url::join` on the URL that `url::Url::parse` makes of `base`,
/// with the URL handed back as its serialisation. An error of either step
/// is handed on. The contract names the outcome ([`joined_url`]) and does
/// not say what it is.
#[verifier::external_body]
fn join_url(base: &str, reference: &str) -> (joined: Result<String, url::ParseError>)
    ensures
        match joined {
            Ok(text) => joined_url(base@, reference@) == Some(text@),
            Err(_) => joined_url(base@, reference@) is None,
        },
{
    match url::Url::parse(base) {
        Ok(url) => url.join(reference).map(String::from),
        Err(error) => Err(error),
    }
}

/// What can go wrong between the driver and a provider.
#[derive(Debug)]
pub enum Error {
    /// Failure during transport, with the transport's account of it.
    Reqwest(String),
    /// Failed while serializing a request body, with the encoder's account of it.
    Serialization(String),
    /// Failed while deserializing a response body: the text that was received.
    Deserialization(String),
    /// Failed while resolving a URL.
    Url(url::ParseError),
    /// The provider answered with a status outside the success class:
    /// the status and the text of its answer.
    Webhook(u16, String),
    /// Response payload is not valid UTF-8.
    InvalidUtf8(std::string::FromUtf8Error),
}

/// View of a [`Request`].
#[verifier::ext_equal]
pub struct RequestView {
    pub method: Method,
    pub url: Seq<char>,
    pub content_type: Option<Seq<char>>,
    pub accept: Option<Seq<char>>,
    pub body: Option<Seq<char>>,
}

/// A request of the protocol, ready to be sent.
#[derive(Debug)]
pub struct Request {
    pub method: Method,
    /// Where the request goes.
    pub url: String,
    /// The `Content-Type` header, if the request has one.
    pub content_type: Option<String>,
    /// The `Accept` header, if the request has one.
    pub accept: Option<String>,
    /// The body, if the request has one.
    pub body: Option<String>,
}

impl View for Request {
    type V = RequestView;

    open spec fn view(&self) -> RequestView {
        RequestView {
            method: self.method,
            url: self.url@,
            content_type: self.content_type.deep_view(),
            accept: self.accept.deep_view(),
            body: self.body.deep_view(),
        }
    }
}

/// The request for `method` at `url`: it carries the payload of `body`
/// and names its media type exactly if there is such a payload, and asks
/// for that media type exactly if `typed` says that a typed answer is
/// expected.
pub open spec fn request_for(
    method: Method,
    url: Seq<char>,
    body: Option<Seq<char>>,
    typed: bool,
) -> RequestView {
    RequestView {
        method,
        url,
        content_type: if payload_of(body) is Some {
            Some(MEDIA_TYPE@)
        } else {
            None
        },
        accept: if typed {
            Some(MEDIA_TYPE@)
        } else {
            None
        },
        body: payload_of(body),
    }
}

/// Puts the request for `method` at `url` together (see [`request_for`]).
pub fn build_request(method: Method, url: String, body: Option<String>, typed: bool) -> (request:
    Request)
    ensures
        request@ == request_for(method, url@, body.deep_view(), typed),
        payload_of(body.deep_view()) is None ==> request.content_type is None && request.body
            is None,
{
    let carried = payload(body);
    let content_type = if carried.is_some() {
        Some(MEDIA_TYPE.to_owned())
    } else {
        None
    };
    let accept = if typed {
        Some(MEDIA_TYPE.to_owned())
    } else {
        None
    };
    Request { method, url, content_type, accept, body: carried }
}

/// Null-body omission: a request without payload has neither a body nor
/// a `Content-Type` header, and a request names a content type exactly
/// if it has a body. A request is without payload where it was given no
/// body, or the token `null` for one.
pub proof fn lemma_no_payload_no_content_type(
    method: Method,
    url: Seq<char>,
    body: Option<Seq<char>>,
    typed: bool,
)
    ensures
        body is None || body == Some(null_token()) ==> payload_of(body) is None,
        payload_of(body) is None ==> request_for(method, url, body, typed).content_type is None
            && request_for(method, url, body, typed).body is None,
        request_for(method, url, body, typed).content_type is Some <==> request_for(
            method,
            url,
            body,
            typed,
        ).body is Some,
{
}

/// What a response with `status` and `payload` is decoded to, where a
/// text is expected: an error where the payload is not valid UTF-8; its
/// text where the status reports success; else the status with the text.
pub open spec fn is_decoded(status: u16, payload: Seq<u8>, decoded: Result<String, Error>) -> bool {
    if !valid_utf8(payload) {
        decoded matches Err(Error::InvalidUtf8(_))
    } else if is_success(status) {
        decoded matches Ok(text) && text@ == decode_utf8(payload)
    } else {
        decoded matches Err(Error::Webhook(code, text)) && code == status && text@ == decode_utf8(
            payload,
        )
    }
}

/// What a response with `status` and `payload` is decoded to, where
/// nothing but success is expected: nothing where the status reports
/// success, whatever the payload; else the status with the payload as
/// text, which is the text that the payload encodes where it is valid
/// UTF-8, and has the invalid parts replaced where it is not.
pub open spec fn is_acknowledged(
    status: u16,
    payload: Seq<u8>,
    decoded: Result<(), Error>,
) -> bool {
    if is_success(status) {
        decoded is Ok
    } else {
        &&& decoded matches Err(Error::Webhook(code, text))
        &&& code == status
        &&& text@ == lossy_text(payload)
        &&& valid_utf8(payload) ==> text@ == decode_utf8(payload)
    }
}

/// A response whose status does not report success is never decoded to
/// an answer. Its status and text are handed on: always where nothing but
/// success is expected, and where a text is expected if the payload is
/// valid UTF-8.
pub proof fn lemma_failure_is_no_answer(
    status: u16,
    payload: Seq<u8>,
    decoded: Result<String, Error>,
    acknowledged: Result<(), Error>,
)
    requires
        !is_success(status),
        is_decoded(status, payload, decoded),
        is_acknowledged(status, payload, acknowledged),
    ensures
        decoded is Err,
        valid_utf8(payload) ==> (decoded matches Err(Error::Webhook(code, text)) && code == status
            && text@ == decode_utf8(payload)),
        acknowledged matches Err(Error::Webhook(code, text)) && code == status && text@
            == lossy_text(payload) && (valid_utf8(payload) ==> text@ == decode_utf8(payload)),
{
}

/// External-DNS webhook client.
///
/// Resolves the requests of the protocol against the prefix of a
/// provider's API, and decodes the provider's responses.
pub struct Client {
    /// Prefix of the API endpoints, as it was given.
    domain: String,
    /// The URL that the prefix parses to.
    root: String,
}

impl Client {
    #[verifier::type_invariant]
    spec fn well_formed(self) -> bool {
        parsed_url(self.domain@) == Some(self.root@)
    }

    /// The prefix of the API endpoints, as it was given to [`Client::new`].
    pub closed spec fn domain(&self) -> Seq<char> {
        self.domain@
    }

    /// A client for the API under the prefix `domain`.
    ///
    /// The endpoints are resolved against the prefix as relative
    /// references are: where the prefix does not end in a slash, its last
    /// path segment is replaced. A prefix that is no absolute URL is refused.
    pub fn new(domain: &str) -> (client: Result<Client, url::ParseError>)
        ensures
            match client {
                Ok(client) => parsed_url(domain@) is Some && client.domain() == domain@,
                Err(_) => parsed_url(domain@) is None,
            },
    {
        match parse_url(domain) {
            Ok(root) => Ok(Client { domain: domain.to_owned(), root }),
            Err(error) => Err(error),
        }
    }

    /// The request to the endpoint `path` of the API (see [`request_for`]).
    /// It fails exactly where `path` does not resolve against the prefix.
    pub fn request(
        &self,
        method: Method,
        path: &str,
        body: Option<String>,
        typed: bool,
    ) -> (request: Result<Request, Error>)
        ensures
            match request {
                Ok(request) => joined_url(self.domain(), path@) matches Some(url) && request@
                    == request_for(method, url, body.deep_view(), typed),
                Err(error) => joined_url(self.domain(), path@) is None && error is Url,
            },
    {
        match join_url(self.domain.as_str(), path) {
            Ok(url) => Ok(build_request(method, url, body, typed)),
            Err(error) => Err(Error::Url(error)),
        }
    }

    /// The request that initialises the provider and fetches its domain
    /// filter: a `GET` of the prefix itself, which asks for a typed answer.
    pub fn init(&self) -> (request: Request)
        ensures
            parsed_url(self.domain()) matches Some(url) && request@ == request_for(
                Method::Get,
                url,
                None,
                true,
            ),
    {
        proof {
            use_type_invariant(self);
        }
        build_request(Method::Get, self.root.clone(), None, true)
    }

    /// The request that checks the health of the provider: a `GET` of
    /// `healthz` without payload, answered in plain text.
    pub fn healthz(&self) -> (request: Result<Request, Error>)
        ensures
            match request {
                Ok(request) => joined_url(self.domain(), "healthz"@) matches Some(url) && request@
                    == request_for(Method::Get, url, None, false),
                Err(error) => joined_url(self.domain(), "healthz"@) is None && error is Url,
            },
    {
        self.request(Method::Get, "healthz", None, false)
    }

    /// The request that applies a batch of changes: a `POST` to `records`
    /// with the serialised batch as `body`.
    pub fn set_records(&self, body: String) -> (request: Result<Request, Error>)
        ensures
            match request {
                Ok(request) => joined_url(self.domain(), "records"@) matches Some(url) && request@
                    == request_for(Method::Post, url, Some(body@), false),
                Err(error) => joined_url(self.domain(), "records"@) is None && error is Url,
            },
    {
        self.request(Method::Post, "records", Some(body), false)
    }

    /// The request that fetches all records: a `GET` of `records` without
    /// payload, which asks for a typed answer.
    pub fn get_records(&self) -> (request: Result<Request, Error>)
        ensures
            match request {
                Ok(request) => joined_url(self.domain(), "records"@) matches Some(url) && request@
                    == request_for(Method::Get, url, None, true),
                Err(error) => joined_url(self.domain(), "records"@) is None && error is Url,
            },
    {
        self.request(Method::Get, "records", None, true)
    }

    /// The request that has the provider adjust a list of endpoints: a
    /// `POST` to `adjustendpoints` with the serialised list as `body`,
    /// which asks for a typed answer.
    pub fn adjust_endpoints(&self, body: String) -> (request: Result<Request, Error>)
        ensures
            match request {
                Ok(request) => joined_url(self.domain(), "adjustendpoints"@) matches Some(url)
                    && request@ == request_for(Method::Post, url, Some(body@), true),
                Err(error) => joined_url(self.domain(), "adjustendpoints"@) is None && error is Url,
            },
    {
        self.request(Method::Post, "adjustendpoints", Some(body), true)
    }

    /// Decodes a response of which a text is expected (see
    /// [`is_decoded`]). Where the status does not report success, the
    /// text is handed on in the error and is never taken for an answer.
    pub fn parse_response(status: u16, payload: Vec<u8>) -> (decoded: Result<String, Error>)
        ensures
            is_decoded(status, payload@, decoded),
    {
        match text_of(payload) {
            Ok(text) => if status_is_success(status) {
                Ok(text)
            } else {
                Err(Error::Webhook(status, text))
            },
            Err(error) => Err(Error::InvalidUtf8(error)),
        }
    }

    /// What a decoded text becomes once it was parsed: the value that the
    /// parser made of it, or an error that holds the text where the parser
    /// made none.
    pub fn decoded<T>(text: String, parsed: Option<T>) -> (value: Result<T, Error>)
        ensures
            match parsed {
                Some(answer) => value == Ok::<T, Error>(answer),
                None => value matches Err(Error::Deserialization(raw)) && raw@ == text@,
            },
    {
        match parsed {
            Some(answer) => Ok(answer),
            None => Err(Error::Deserialization(text)),
        }
    }

    /// Decodes a response of which nothing but success is expected (see
    /// [`is_acknowledged`]).
    pub fn parse_acknowledgement(status: u16, payload: &[u8]) -> (decoded: Result<(), Error>)
        ensures
            is_acknowledged(status, payload@, decoded),
    {
        if status_is_success(status) {
            Ok(())
        } else {
            Err(Error::Webhook(status, lossy_text_of(payload)))
        }
    }
}

} // verus!
