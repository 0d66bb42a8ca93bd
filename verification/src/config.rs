//! Per-remote configuration kept by the aggregator.

use vstd::prelude::*;

verus! {

/// What the aggregator knows about one named remote: the channel its
/// events are forwarded to.
pub struct ServerConfig {
    pub channel: u64,
}

impl ServerConfig {
    /// A configuration entry for one remote.
    pub fn new(channel: u64) -> (r: ServerConfig)
        ensures
            r.channel == channel,
    {
        ServerConfig { channel }
    }
}

} // verus!
