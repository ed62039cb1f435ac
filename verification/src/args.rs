//! The configuration surface of the cache service.

use vstd::prelude::*;

use crate::cache::DEFAULT_TTL_SECS;

verus! {

/// Configuration the embedding program hands to the cache core.
pub struct Args {
    /// Personal access token for the upstream CI service; absence means
    /// anonymous, rate-limited access.
    pub token: Option<String>,
    /// Location in which to store the cached record files; absence means
    /// memory-only operation without rehydration.
    pub cache: Option<String>,
    /// Run a pinned instance, which only serves records loaded from disk
    /// and never calls upstream.
    pub mock: bool,
    /// Override of the staleness time-to-live, in seconds.
    pub ttl_secs: Option<u64>,
}

impl Args {
    /// The time-to-live this configuration asks for, defaulting to 24
    /// hours.
    pub fn effective_ttl(&self) -> (r: u64)
        ensures
            r == (match self.ttl_secs {
                Some(t) => t,
                None => DEFAULT_TTL_SECS,
            }),
    {
        match self.ttl_secs {
            Some(t) => t,
            None => DEFAULT_TTL_SECS,
        }
    }
}

} // verus!
