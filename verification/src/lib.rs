//! Cache for nightly CI testsuite results.
//!
//! The crate models the core of a result cache: validated result records,
//! the canonical on-disk encoding of a record, the staleness/update state
//! machine that decides when fresh runs are fetched from upstream, and the
//! read path that serves filtered views of the accumulated record set.

pub mod archive;
pub mod args;
pub mod cache;
pub mod chart;
pub mod codec;
pub mod date;
pub mod error;
pub mod fetch;
pub mod laws;
pub mod query;
pub mod record;
