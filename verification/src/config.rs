//! Configuration.
use vstd::prelude::*;

verus! {

/// What the app is configured with.
#[derive(Clone, Copy, Debug)]
pub struct AppConfig {
    /// HTTP port for the local replay server (overridable per launch).
    pub port: u16,
}

impl Default for AppConfig {
    fn default() -> (r: Self)
        ensures
            r.port == 59994,
    {
        AppConfig { port: 59994 }
    }
}

} // verus!
