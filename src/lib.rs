//! Synchronisation of automation rules between a document and a lighting bridge.
//!
//! The library holds the rule records, the numeric ordering of rule identifiers
//! and the reconciliation of a desired rule set against the bridge's current one.
//! Talking to the bridge and reading or writing documents is left to the caller.
pub mod order;
pub mod reconcile;
pub mod report;
pub mod rule;
