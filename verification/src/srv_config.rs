//! The server's configuration values. Reading them from disk is the
//! surrounding program's business; the core only consumes them.

use vstd::prelude::*;

verus! {

/// Holds the server configuration.
pub struct Config {
    /// The TCP port the server listens on.
    pub port: u16,
    /// How many clients may be connected at once.
    pub max_clients: usize,
}

} // verus!
