use vstd::prelude::*;
use vstd::string::*;

verus! {

/// Errors that can occur during transport operations.
#[derive(Debug, Clone)]
pub enum TransportError {
    /// The transport is disconnected or was never connected.
    Disconnected,
    /// A receive operation timed out before a response arrived.
    Timeout,
    /// An I/O error occurred (e.g. socket closed, network failure).
    Io(String),
    /// The command was blocked by the transport policy.
    PolicyDenied(String),
    /// The rate limit was exceeded.
    RateLimited,
    /// Generic transport failure.
    Other(String),
}

/// The human-readable text of an error.
pub open spec fn error_text(e: TransportError) -> Seq<char> {
    match e {
        TransportError::Disconnected => "transport disconnected"@,
        TransportError::Timeout => "receive timed out"@,
        TransportError::Io(msg) => "I/O error: "@ + msg@,
        TransportError::PolicyDenied(msg) => "policy denied: "@ + msg@,
        TransportError::RateLimited => "rate limit exceeded"@,
        TransportError::Other(msg) => "transport error: "@ + msg@,
    }
}

impl TransportError {
    /// Renders the error as text, as `Display` would.
    pub fn to_string(&self) -> (text: String)
        ensures
            text@ == error_text(*self),
    {
        match self {
            TransportError::Disconnected => String::from_str("transport disconnected"),
            TransportError::Timeout => String::from_str("receive timed out"),
            TransportError::Io(msg) => String::from_str("I/O error: ").concat(msg.as_str()),
            TransportError::PolicyDenied(msg) => String::from_str("policy denied: ").concat(
                msg.as_str(),
            ),
            TransportError::RateLimited => String::from_str("rate limit exceeded"),
            TransportError::Other(msg) => String::from_str("transport error: ").concat(
                msg.as_str(),
            ),
        }
    }
}

} // verus!
