//! Verified statistics over a snapshot of a Snap Coin node's UTXO store.
//!
//! The store maps base-36 transaction ids to bincode-encoded lists of
//! transaction outputs, where a spent output is stored as `None`.

pub mod numerals;
pub mod frame;
pub mod codec;
pub mod ledger;
pub mod tally;
pub mod error;
pub mod metrics;
pub mod intelligence;
pub mod top;
pub mod history;
pub mod api;
pub mod laws;
