//! Errors of the transport around the selection engine.
use vstd::prelude::*;

verus! {

#[verifier::external_type_specification]
#[verifier::external_body]
pub struct ExSimdJsonError(simd_json::Error);

/// What went wrong while talking to a backend.
#[derive(Debug)]
pub enum RpcError {
    Unresponsive,
    OutOfBounds,
    InvalidResponse(String),
}

/// Relies on std's `format!`: the two strings one after the other.
#[verifier::external_body]
fn concat(a: &str, b: &str) -> (r: String)
    ensures
        r@ == a@ + b@,
{
    format!("{}{}", a, b)
}

impl RpcError {
    /// The text shown for this error.
    pub open spec fn message_spec(&self) -> Seq<char> {
        match self {
            RpcError::Unresponsive => "RPC is unresponsive"@,
            RpcError::OutOfBounds => "Request out of bounds. Most likeley a bad response from the current RPC node."@,
            RpcError::InvalidResponse(reason) => "Invalid RPC response: "@ + reason@,
        }
    }

    /// The text shown for this error.
    pub fn message(&self) -> (r: String)
        ensures
            r@ == self.message_spec(),
    {
        match self {
            RpcError::Unresponsive => "RPC is unresponsive".to_owned(),
            RpcError::OutOfBounds => {
                "Request out of bounds. Most likeley a bad response from the current RPC node.".to_owned()
            },
            RpcError::InvalidResponse(reason) => concat("Invalid RPC response: ", reason.as_str()),
        }
    }

    /// The error for a response body that is not valid JSON.
    pub fn json_parse_error() -> (r: RpcError)
        ensures
            r matches RpcError::InvalidResponse(reason) && reason@ == "Error while trying to parse JSON"@,
    {
        RpcError::InvalidResponse("Error while trying to parse JSON".to_owned())
    }
}

impl From<simd_json::Error> for RpcError {
    fn from(_e: simd_json::Error) -> (r: RpcError) {
        RpcError::json_parse_error()
    }
}

impl vstd::std_specs::convert::FromSpecImpl<simd_json::Error> for RpcError {
    open spec fn obeys_from_spec() -> bool {
        false
    }

    open spec fn from_spec(e: simd_json::Error) -> RpcError {
        RpcError::Unresponsive
    }
}

} // verus!
