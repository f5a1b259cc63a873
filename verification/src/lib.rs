//! Symbol-coverage tracking engine: a content-addressed symbol tree with
//! Merkle-style hashing, a monotonic observation ledger, an event-to-symbol
//! matcher, coverage aggregation, and staleness reconciliation.

pub mod app;
pub mod coverage;
pub mod parser;
pub mod reconcile;
pub mod serena;
pub mod ingest;
pub mod symbols;
pub mod text;
pub mod tracking;
pub mod ui;
