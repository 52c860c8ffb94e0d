//! The capture server handle: it holds the configuration that the
//! pipeline — stream readers, snapshot fetcher, dispatcher, book
//! processor, logger — is wired up from.  The wiring itself is
//! asynchronous I/O and lives outside this crate.

use vstd::prelude::*;
use crate::config::Config;

verus! {

/// A market-data capture server, configured and ready to be started.
#[derive(Debug)]
pub struct MDCServer {
    config: Config,
}

impl MDCServer {
    /// The configuration the server was built with.
    pub closed spec fn spec_config(&self) -> Config {
        self.config
    }

    /// Wraps a configuration into a server handle.
    pub fn new(config: Config) -> (r: Self)
        ensures
            r.spec_config() == config,
    {
        MDCServer { config }
    }

    /// The held configuration.
    pub fn config(&self) -> (r: &Config)
        ensures
            *r == self.spec_config(),
    {
        &self.config
    }
}

} // verus!
