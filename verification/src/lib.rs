//! Tracks web articles over time: a staleness-driven fetch scheduler with
//! content-addressed snapshot deduplication.
//!
//! The library holds the verified core: the content canonicalizer that turns
//! raw markup into comparable text, the change detector, the in-memory model
//! of the article/snapshot store with its freshness ledger, and the scheduler
//! cycle that selects the most stale article, stamps it, and commits a new
//! snapshot only when the canonical text changed.

pub mod canonical;
pub mod detect;
pub mod pages;
pub mod scheduler;
pub mod store;
pub mod text;
