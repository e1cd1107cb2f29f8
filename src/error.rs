use vstd::prelude::*;

verus! {

/// The failures that the library reports to its callers.
#[derive(Clone, Copy, Debug, PartialEq, Eq, Structural)]
pub enum Error {
    /// A text is not a hexadecimal identifier of 40 digits.
    BadHex,
    /// A connection could not be brought to a state where it can negotiate.
    TransportInit,
    /// A candidate connection is not connected yet.
    NotConnected,
    /// No connection is registered for the address.
    PeerUnreachable,
    /// A payload does not follow the expected layout.
    InvalidData,
}

} // verus!
