use vstd::prelude::*;

verus! {

/// The kinds of failure that the library reports.
#[derive(Debug, Clone, Copy, PartialEq, Eq, Structural)]
pub enum Error {
    /// Malformed snapshot, witness, key or digest bytes.
    DecodingError,
    /// Out-of-range index, unknown participant, slot already filled, malformed configuration.
    InvalidArgument,
    /// An aggregation or finalization step was asked for before all of its data was present.
    IncompleteState,
    /// Revealed data does not match what was committed or asserted earlier.
    ConsistencyError,
    /// The spendable balance does not cover the outputs and the fee.
    InsufficientFunds,
    /// The transport address does not select a supported strategy.
    TransportError,
}

} // verus!
