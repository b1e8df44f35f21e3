//! Indexes the flow of ordinals, the individual units of a UTXO currency, through a chain.
//!
//! The library keeps, for each unspent output, the ordinal ranges it holds, and for each
//! uncommon ordinal, the output and offset where it currently stands. Blocks are applied one
//! at a time; new outputs go to a write cache that is flushed to the tables at each commit.
pub mod codec;
pub mod error;
pub mod flow;
pub mod height;
pub mod retry;
pub mod table;
pub mod updater;
