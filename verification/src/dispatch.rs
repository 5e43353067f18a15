//! The handling of one request: which backend it is for, and what the caller
//! is told once the backend has answered or failed.
//!
//! The backend call itself is made by the host of the library. [`dispatch`]
//! says whether a call is due and to which backend; [`relay`] turns the
//! call's outcome into the response, and [`relay_with_fault`] also hands back
//! what went wrong.
use vstd::prelude::*;
use vstd::string::*;
use crate::config::Config;
use crate::error::FetchError;
use crate::node::Node;

verus! {

/// A JSON value of `serde_json`: the payload of a backend's answer.
#[verifier::external_type_specification]
#[verifier::external_body]
pub struct ExJsonValue(serde_json::Value);

/// The error type of `serde_json`.
#[verifier::external_type_specification]
#[verifier::external_body]
pub struct ExJsonError(serde_json::Error);

/// The status of a relayed answer.
pub const STATUS_OK: u16 = 200;

/// The status for a key that no backend has.
pub const STATUS_NOT_FOUND: u16 = 404;

/// The status for a failed backend call or a payload that cannot be written.
pub const STATUS_INTERNAL_SERVER_ERROR: u16 = 500;

/// A response to the caller: a status and a body.
#[derive(Debug, Clone, PartialEq, Eq)]
pub struct HttpResponse {
    pub status: u16,
    pub body: String,
}

/// The mathematical value of an [`HttpResponse`].
pub struct ResponseModel {
    pub status: u16,
    pub body: Seq<char>,
}

impl View for HttpResponse {
    type V = ResponseModel;

    open spec fn view(&self) -> ResponseModel {
        ResponseModel { status: self.status, body: self.body@ }
    }
}

/// The response to a key that resolves to no backend.
pub open spec fn not_found() -> ResponseModel {
    ResponseModel { status: STATUS_NOT_FOUND, body: "NOT_FOUND"@ }
}

/// The response to any failure behind a resolved key. It holds a fixed token
/// and nothing of the failure.
pub open spec fn internal_server_error() -> ResponseModel {
    ResponseModel { status: STATUS_INTERNAL_SERVER_ERROR, body: "INTERNAL_SERVER_ERROR"@ }
}

/// The response that relays `text`.
pub open spec fn relayed(text: Seq<char>) -> ResponseModel {
    ResponseModel { status: STATUS_OK, body: text }
}

/// What is to be done for a request.
pub enum Action<'a> {
    /// Call this backend and hand the outcome to [`relay`].
    CallBackend(&'a Node),
    /// Answer at once.
    Respond(HttpResponse),
}

/// Resolves `key` against the registry of `config`: the backend to call, or
/// the response for a key that no backend has.
pub fn dispatch<'a>(config: &'a Config, key: &str) -> (action: Action<'a>)
    ensures
        match action {
            Action::CallBackend(node) => config@.nodes.contains_key(key@) && node@
                == config@.nodes[key@],
            Action::Respond(response) => !config@.nodes.contains_key(key@) && response@
                == not_found(),
        },
{
    match config.nodes.lookup(key) {
        Some(node) => Action::CallBackend(node),
        None => Action::Respond(
            HttpResponse { status: STATUS_NOT_FOUND, body: String::from_str("NOT_FOUND") },
        ),
    }
}

/// The JSON text that `serde_json::to_string` writes for `payload`, or
/// `None` where it reports an error. The text is a function of the value
/// alone; what it is for a given value is left to `serde_json`.
pub uninterp spec fn json_text(payload: serde_json::Value) -> Option<Seq<char>>;

/// Writes `payload` as JSON text with `serde_json::to_string`. The contract
/// claims only that the outcome is the one that [`json_text`] names for the
/// payload: the text where the call succeeds, none where it fails.
#[verifier::external_body]
fn encode_payload(payload: &serde_json::Value) -> (encoded: Result<String, serde_json::Error>)
    ensures
        match encoded {
            Ok(text) => json_text(*payload) == Some(text@),
            Err(_) => json_text(*payload) is None,
        },
{
    serde_json::to_string(payload)
}

/// The response for a payload that was written as JSON text, or could not be.
pub fn payload_reply(encoded: Result<String, serde_json::Error>) -> (response: HttpResponse)
    ensures
        response@ == (match encoded {
            Ok(text) => relayed(text@),
            Err(_) => internal_server_error(),
        }),
{
    match encoded {
        Ok(text) => HttpResponse { status: STATUS_OK, body: text },
        Err(_) => failure_reply(),
    }
}

/// The response for a failure behind a resolved key.
pub fn failure_reply() -> (response: HttpResponse)
    ensures
        response@ == internal_server_error(),
{
    HttpResponse {
        status: STATUS_INTERNAL_SERVER_ERROR,
        body: String::from_str("INTERNAL_SERVER_ERROR"),
    }
}

/// What went wrong behind a resolved key. The caller of the gateway never
/// sees it; it is for the operator's log.
#[derive(Debug)]
pub enum RelayFault {
    /// The backend call failed.
    Backend(FetchError),
    /// The payload could not be written as JSON text.
    Encoding(serde_json::Error),
}

/// The response to the outcome of a backend call: the payload's JSON text
/// with status 200, or the fixed failure response where the call failed or
/// the payload cannot be written.
pub open spec fn relay_decision(outcome: Result<serde_json::Value, FetchError>) -> ResponseModel {
    match outcome {
        Err(_) => internal_server_error(),
        Ok(payload) => match json_text(payload) {
            Some(text) => relayed(text),
            None => internal_server_error(),
        },
    }
}

/// Turns the outcome of a backend call into the response, and hands back
/// what went wrong, if anything did, so that it can be logged. The response
/// to a failure is the fixed one, whatever the failure was.
pub fn relay_with_fault(outcome: Result<serde_json::Value, FetchError>) -> (reported: (
    HttpResponse,
    Option<RelayFault>,
))
    ensures
        reported.0@ == relay_decision(outcome),
        match outcome {
            Err(cause) => reported.1 == Some(RelayFault::Backend(cause)),
            Ok(payload) => match json_text(payload) {
                Some(_) => reported.1 is None,
                None => reported.1 matches Some(RelayFault::Encoding(_)),
            },
        },
{
    match outcome {
        Ok(payload) => match encode_payload(&payload) {
            Ok(text) => (payload_reply(Ok(text)), None),
            Err(fault) => (failure_reply(), Some(RelayFault::Encoding(fault))),
        },
        Err(cause) => (failure_reply(), Some(RelayFault::Backend(cause))),
    }
}

/// Turns the outcome of a backend call into the response.
pub fn relay(outcome: Result<serde_json::Value, FetchError>) -> (response: HttpResponse)
    ensures
        response@ == relay_decision(outcome),
{
    relay_with_fault(outcome).0
}

} // verus!
