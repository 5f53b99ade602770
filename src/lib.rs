//! Incremental per-participant daily message counting for a chat server's
//! history: a day index, an aggregate store with resumable per-channel fetch
//! cursors, a flat snapshot form for persistence, the decisions of the
//! ingestion loop, and the daily / running-total report tables.

pub mod counts;
pub mod day;
pub mod ingest;
pub mod pages;
pub mod participants;
pub mod report;
pub mod snapshot;
pub mod store;
pub mod text;
