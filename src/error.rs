//! Failures of the indexer.
use vstd::prelude::*;

verus! {

/// Why indexing a block or a transaction failed.
#[derive(Clone, Copy, Debug, PartialEq, Eq, Structural)]
pub enum IndexError {
    /// An input spends an output point found neither in the cache nor in the table.
    MissingOutpoint,
    /// The input ranges ran out before every output value was met.
    InsufficientInputs,
    /// The block does not link to the hash stored at the given height.
    ReorgDetected(u64),
    /// A range does not fit the 51-bit base and the length field of its encoding.
    DomainEncode,
}

} // verus!
