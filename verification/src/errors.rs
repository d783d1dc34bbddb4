//! The service's error type: its HTTP status, its machine-readable kind, its
//! human-readable message, and the mapping from simulation failures.
use vstd::prelude::*;

verus! {

/// An error answered to an HTTP client.
#[derive(Debug)]
pub enum AppError {
    Internal(String),
    NotFound(String),
    BadRequest(String),
    Unauthorized(String),
}

/// A failure of a contract simulation. Variants that wrap another error
/// hold that error's rendered text.
#[derive(Debug)]
pub enum SimulationError {
    NodeError(String),
    InvalidContract(String),
    ParseError(String),
    XdrError(String),
    Base64Error(String),
    NodeTimeout,
    RpcRequestFailed(String),
    NetworkError(String),
    Io(String),
    SerializationError(String),
    ConsensusMismatch(String),
    InsufficientConsensusProviders(String),
}

impl AppError {
    /// The HTTP status answered for this error.
    pub open spec fn spec_status(&self) -> u16 {
        match self {
            AppError::Internal(_) => 500,
            AppError::NotFound(_) => 404,
            AppError::BadRequest(_) => 400,
            AppError::Unauthorized(_) => 401,
        }
    }

    /// The machine-readable kind of this error.
    pub open spec fn spec_kind(&self) -> Seq<char> {
        match self {
            AppError::Internal(_) => "INTERNAL_SERVER_ERROR"@,
            AppError::NotFound(_) => "NOT_FOUND"@,
            AppError::BadRequest(_) => "BAD_REQUEST"@,
            AppError::Unauthorized(_) => "UNAUTHORIZED"@,
        }
    }

    /// The text that this error carries.
    pub open spec fn detail(&self) -> Seq<char> {
        match self {
            AppError::Internal(s) => s@,
            AppError::NotFound(s) => s@,
            AppError::BadRequest(s) => s@,
            AppError::Unauthorized(s) => s@,
        }
    }

    /// The human-readable message of this error. An internal error does not
    /// show its detail to the client.
    pub open spec fn spec_message(&self) -> Seq<char> {
        match self {
            AppError::Internal(_) => "Internal server error"@,
            AppError::NotFound(s) => "Not found: "@ + s@,
            AppError::BadRequest(s) => "Bad request: "@ + s@,
            AppError::Unauthorized(s) => "Unauthorized: "@ + s@,
        }
    }

    /// The HTTP status code of this error.
    pub fn status_code(&self) -> (r: u16)
        ensures
            r == self.spec_status(),
    {
        match self {
            AppError::Internal(_) => 500,
            AppError::NotFound(_) => 404,
            AppError::BadRequest(_) => 400,
            AppError::Unauthorized(_) => 401,
        }
    }

    /// The machine-readable kind of this error.
    pub fn error_type(&self) -> (r: &'static str)
        ensures
            r@ == self.spec_kind(),
    {
        match self {
            AppError::Internal(_) => "INTERNAL_SERVER_ERROR",
            AppError::NotFound(_) => "NOT_FOUND",
            AppError::BadRequest(_) => "BAD_REQUEST",
            AppError::Unauthorized(_) => "UNAUTHORIZED",
        }
    }

    /// The human-readable message of this error.
    pub fn message(&self) -> (r: String)
        ensures
            r@ == self.spec_message(),
    {
        match self {
            AppError::Internal(_) => String::from_str("Internal server error"),
            AppError::NotFound(s) => prefixed("Not found: ", s),
            AppError::BadRequest(s) => prefixed("Bad request: ", s),
            AppError::Unauthorized(s) => prefixed("Unauthorized: ", s),
        }
    }

    /// Maps a simulation failure to the error answered to the client: the
    /// client's own mistakes become `BadRequest`, everything else `Internal`.
    pub fn from(err: SimulationError) -> (r: AppError)
        ensures
            r is BadRequest <==> err.is_client_error(),
            r is Internal <==> !err.is_client_error(),
            r.detail() == err.description(),
    {
        match err {
            SimulationError::NodeError(msg) => AppError::BadRequest(
                prefixed("RPC node error: ", &msg),
            ),
            SimulationError::InvalidContract(msg) => AppError::BadRequest(
                prefixed("Invalid contract: ", &msg),
            ),
            SimulationError::ParseError(e) => AppError::BadRequest(
                prefixed("Argument parse error: ", &e),
            ),
            SimulationError::XdrError(msg) => AppError::BadRequest(
                prefixed("XDR encoding error: ", &msg),
            ),
            SimulationError::Base64Error(e) => AppError::BadRequest(
                prefixed("Base64 decode error: ", &e),
            ),
            SimulationError::NodeTimeout => AppError::Internal(
                String::from_str("RPC request timed out"),
            ),
            SimulationError::RpcRequestFailed(msg) => AppError::Internal(
                prefixed("RPC request failed: ", &msg),
            ),
            SimulationError::NetworkError(e) => AppError::Internal(
                prefixed("Network error: ", &e),
            ),
            SimulationError::Io(e) => AppError::Internal(prefixed("IO error: ", &e)),
            SimulationError::SerializationError(e) => AppError::Internal(
                prefixed("Serialization error: ", &e),
            ),
            SimulationError::ConsensusMismatch(msg) => AppError::Internal(
                prefixed("Consensus mismatch: ", &msg),
            ),
            SimulationError::InsufficientConsensusProviders(msg) => AppError::Internal(
                prefixed("Insufficient providers for consensus: ", &msg),
            ),
        }
    }
}

impl SimulationError {
    /// Whether the failure lies with the request rather than the upstream pool.
    pub open spec fn is_client_error(&self) -> bool {
        match self {
            SimulationError::NodeError(_) => true,
            SimulationError::InvalidContract(_) => true,
            SimulationError::ParseError(_) => true,
            SimulationError::XdrError(_) => true,
            SimulationError::Base64Error(_) => true,
            _ => false,
        }
    }

    /// The text of the client error that reports this failure.
    pub open spec fn description(&self) -> Seq<char> {
        match self {
            SimulationError::NodeError(m) => "RPC node error: "@ + m@,
            SimulationError::InvalidContract(m) => "Invalid contract: "@ + m@,
            SimulationError::ParseError(e) => "Argument parse error: "@ + e@,
            SimulationError::XdrError(m) => "XDR encoding error: "@ + m@,
            SimulationError::Base64Error(e) => "Base64 decode error: "@ + e@,
            SimulationError::NodeTimeout => "RPC request timed out"@,
            SimulationError::RpcRequestFailed(m) => "RPC request failed: "@ + m@,
            SimulationError::NetworkError(e) => "Network error: "@ + e@,
            SimulationError::Io(e) => "IO error: "@ + e@,
            SimulationError::SerializationError(e) => "Serialization error: "@ + e@,
            SimulationError::ConsensusMismatch(m) => "Consensus mismatch: "@ + m@,
            SimulationError::InsufficientConsensusProviders(m) =>
                "Insufficient providers for consensus: "@ + m@,
        }
    }
}

/// `prefix` followed by `s`.
fn prefixed(prefix: &str, s: &String) -> (r: String)
    ensures
        r@ == prefix@ + s@,
{
    let mut out = String::from_str(prefix);
    out.append(s.as_str());
    out
}

} // verus!
