//! A small content-delivery core for precompiled style fragments.
//!
//! Clients compose subsets of compiled fragments through a compact query
//! grammar (comma-separated fragments, colon-scoped groups, pipe-delimited
//! branches).  A snapshot holds the full key-to-content mapping produced by
//! one compilation run; a store publishes the current snapshot to many
//! concurrent readers while a background refresh replaces it wholesale.

pub mod laws;
pub mod query;
pub mod read_path;
pub mod snapshot;
pub mod store;
