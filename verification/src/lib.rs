//! Core logic of a load-generation and capacity-recycling harness for a
//! remote blockchain: a queryable ledger of chain facts, harvest
//! consolidation arithmetic, safe-height planning, and throughput
//! statistics. Remote transport, persistence glue and terminal rendering
//! live outside this crate.

pub mod chain;
pub mod harvest;
pub mod hex;
pub mod ledger;
pub mod sender;
pub mod types;
pub mod wallet;
