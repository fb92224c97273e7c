//! Error kinds reported by the parsers.

use vstd::prelude::*;

verus! {

/// Why a piece of protocol-version text was rejected.
#[derive(Clone, Copy, Debug, PartialEq, Eq, Structural)]
pub enum ProtoverError {
    /// A version that is not written as a range is not a decimal 32-bit number.
    MalformedVersion,
    /// A range does not consist of exactly two decimal 32-bit numbers around one `-`.
    MalformedRange,
    /// The name in front of `=` is not one of the known subprotocols.
    UnknownProtocol,
    /// More than [`MAX_PROTOCOLS_TO_EXPAND`](crate::versions::MAX_PROTOCOLS_TO_EXPAND)
    /// versions would have to be listed.
    TooManyVersions,
    /// There is no version text at all.
    EmptyInput,
}

} // verus!
