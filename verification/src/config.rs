//! The server's settings.

use vstd::prelude::*;

verus! {

/// The server's settings.
#[derive(Clone, Debug)]
pub struct Config {
    /// The address to listen on.
    pub bind: String,
    /// The port to listen on.
    pub port: u16,
    /// The largest number of clients served at a time.
    pub max_clients: usize,
    /// The data directory, if persistence is enabled.
    pub dir: Option<String>,
}

} // verus!
