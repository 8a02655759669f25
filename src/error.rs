//! Failures of one request/response exchange.
use vstd::prelude::*;

verus! {

/// Why an exchange with the agent failed.
#[derive(Debug, Clone, Copy, PartialEq, Eq, Structural)]
pub enum ProtocolError {
    /// The stream failed or ended before a whole response had arrived.
    Io,
    /// A payload could not be put into a request frame.
    Encode,
    /// The received bytes are no known payload, or are cut short.
    Decode,
}

} // verus!
