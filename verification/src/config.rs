//! The configuration the capture server is constructed with.  Reading
//! and decoding a configuration file happens outside this crate; the
//! values arrive here as plain data.

use vstd::prelude::*;

verus! {

/// Everything needed to run the capture server: the two feed
/// endpoints, the instrument, the requested snapshot depth, how many
/// redundant depth connections to fan in, and the two intervals (in
/// milliseconds) governing reconnects and snapshot refreshes.
#[derive(Clone, Debug)]
pub struct Config {
    pub binance_rest_endpoint: String,
    pub binance_wss_endpoint: String,
    pub instrument: String,
    pub max_depth: u64,
    pub connections: u64,
    pub reconnect_timeout: u64,
    pub snapshot_update_interval: u64,
}

} // verus!
