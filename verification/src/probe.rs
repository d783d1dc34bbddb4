//! Reading a provider's answer to the `getLatestLedger` health probe.
use vstd::prelude::*;
use crate::text::{decimal, push_decimal};

verus! {

/// Whether the bytes `body` are one well-formed JSON value, as `serde_json`
/// parses it.
pub uninterp spec fn json_well_formed(body: Seq<u8>) -> bool;

/// The unsigned integer at `result.sequence` in the JSON value `body`, if
/// there is one there.
pub uninterp spec fn json_result_sequence(body: Seq<u8>) -> Option<u64>;

/// Parses `body` with `serde_json::from_slice` into a `serde_json::Value` and
/// reads `value["result"]["sequence"].as_u64()`; `None` when the parse fails.
/// The contract claims that the parse succeeds exactly on well-formed JSON,
/// and that the number read depends on `body` alone.
#[verifier::external_body]
fn parse_result_sequence(body: &[u8]) -> (r: Option<Option<u64>>)
    ensures
        r is Some <==> json_well_formed(body@),
        r matches Some(seq) ==> seq == json_result_sequence(body@),
{
    match serde_json::from_slice::<serde_json::Value>(body) {
        Ok(value) => Some(value["result"]["sequence"].as_u64()),
        Err(_) => None,
    }
}

/// The error recorded when an answer's body cannot be decoded as JSON.
pub open spec fn undecodable_body_error() -> Seq<char> {
    "parse error: error decoding response body"@
}

/// What reading the ledger from the answer `body` gives: the number at
/// `result.sequence` when `body` is well-formed JSON that holds one there;
/// otherwise an error that says the sequence is missing, or that the body
/// could not be decoded.
pub open spec fn ledger_read(body: Seq<u8>, r: Result<u64, String>) -> bool {
    &&& r is Ok <==> json_well_formed(body) && json_result_sequence(body) is Some
    &&& r matches Ok(ledger) ==> json_result_sequence(body) == Some(ledger)
    &&& json_well_formed(body) && json_result_sequence(body) is None ==> (r matches Err(e) && e@
        == "missing sequence in response"@)
    &&& !json_well_formed(body) ==> (r matches Err(e) && e@ == undecodable_body_error())
}

/// The latest ledger that a provider's answer `body` reports, or why none
/// could be read.
pub fn ledger_from_response_body(body: &[u8]) -> (r: Result<u64, String>)
    ensures
        ledger_read(body@, r),
{
    match parse_result_sequence(body) {
        Some(Some(ledger)) => Ok(ledger),
        Some(None) => Err(String::from_str("missing sequence in response")),
        None => Err(String::from_str("parse error: error decoding response body")),
    }
}

/// Whether an HTTP status reports success: 200 to 299.
pub fn is_success_status(status: u16) -> (r: bool)
    ensures
        r == (200 <= status && status <= 299),
{
    200 <= status && status <= 299
}

/// How the network part of a health probe went.
pub enum ProbeAnswer {
    /// No answer came within the time allowed.
    TimedOut,
    /// The request failed; the text says why.
    RequestFailed(String),
    /// The provider answered with this status, which reports no success.
    HttpStatus(u16),
    /// The provider answered with success, but its body could not be read;
    /// the text says why.
    BodyUnreadable(String),
    /// The provider answered with success and this body.
    Body(Vec<u8>),
}

/// The error that a probe records for an answer that brought no body.
pub open spec fn probe_error(answer: ProbeAnswer) -> Seq<char> {
    match answer {
        ProbeAnswer::TimedOut => "timeout"@,
        ProbeAnswer::RequestFailed(e) => "request error: "@ + e@,
        ProbeAnswer::HttpStatus(status) => "HTTP "@ + decimal(status as nat),
        ProbeAnswer::BodyUnreadable(e) => "parse error: "@ + e@,
        ProbeAnswer::Body(_) => Seq::empty(),
    }
}

/// The outcome of a health probe that got `answer`: the latest ledger that
/// the provider reports, or why there is none.
pub fn probe_outcome(answer: ProbeAnswer) -> (r: Result<u64, String>)
    ensures
        !(answer is Body) ==> (r matches Err(e) && e@ == probe_error(answer)),
        answer matches ProbeAnswer::Body(body) ==> ledger_read(body@, r),
{
    let ghost a = answer;
    match answer {
        ProbeAnswer::TimedOut => Err(String::from_str("timeout")),
        ProbeAnswer::RequestFailed(e) => {
            let mut message = String::from_str("request error: ");
            message.append(e.as_str());
            Err(message)
        },
        ProbeAnswer::HttpStatus(status) => {
            let mut message = String::from_str("HTTP ");
            push_decimal(&mut message, status as u64);
            Err(message)
        },
        ProbeAnswer::BodyUnreadable(e) => {
            let mut message = String::from_str("parse error: ");
            message.append(e.as_str());
            Err(message)
        },
        ProbeAnswer::Body(body) => ledger_from_response_body(body.as_slice()),
    }
}

} // verus!
