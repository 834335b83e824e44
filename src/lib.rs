//! Core of a transaction rollup: a ledger actor that owns account state,
//! the lock table, the processed-transaction log and settlement proofs; a
//! sequencer queue; and a batch execution engine that applies transactions
//! through a program cache.
pub mod frontend;
pub mod ledger;
pub mod processor;
pub mod sequencer;
