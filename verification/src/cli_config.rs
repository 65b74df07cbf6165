//! The client's configuration values. Reading them from disk is the
//! surrounding program's business; the core only consumes them.

use vstd::prelude::*;

verus! {

/// Where and as whom to connect.
pub struct Network {
    /// The server's address.
    pub server_ip: String,
    /// The server's port.
    pub server_port: u16,
    /// The name to log in under, if one is configured.
    pub login_name: Option<String>,
}

/// What the board and the stones look like; opaque to the core.
pub struct Graphics {
    /// The board texture's path.
    pub board: String,
    /// The side length of one square, if overridden.
    pub square_size: Option<u16>,
    /// The white stone texture's path.
    pub white_piece: String,
    /// The black stone texture's path.
    pub black_piece: String,
    /// The stone shadow texture's path, if any.
    pub shadow: Option<String>,
    /// The colour of White's share of the score bar.
    pub white_score_colour: Vec<u8>,
    /// The colour of Black's share of the score bar.
    pub black_score_colour: Vec<u8>,
}

/// Holds the client configuration.
pub struct Config {
    /// The connection settings.
    pub network: Network,
    /// The rendering settings.
    pub graphics: Graphics,
}

} // verus!
