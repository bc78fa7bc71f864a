//! The settings of a client and of a server, and the limits of the library.

use vstd::prelude::*;

verus! {

/// The largest number of bytes that a key or a meaning of a plain-text source
/// may have; what is longer is cut.
pub const MAX_MDX_ITEM_SIZE: usize = 2_097_152;

/// The dictionaries that a client uses.
#[derive(Debug)]
pub struct ClientConfig {
    /// The addresses of the dictionaries: `file://`, `http://` or `https://`.
    pub uris: Vec<String>,
}

/// The dictionaries that a server offers, and where it listens.
#[derive(Debug)]
pub struct ServerConfig {
    /// The addresses of the dictionaries: `file://` only.
    pub uris: Vec<String>,
    /// The host on which the server listens.
    pub host: String,
    /// The port on which the server listens.
    pub port: u16,
}

/// The settings of a client and of a server.
#[derive(Debug)]
pub struct WikitConfig {
    /// The settings of the client.
    pub cltcfg: ClientConfig,
    /// The settings of the server.
    pub srvcfg: ServerConfig,
}

impl Default for WikitConfig {
    /// No dictionaries; a server on all interfaces, port 8888.
    fn default() -> (config: WikitConfig)
        ensures
            config.cltcfg.uris@.len() == 0,
            config.srvcfg.uris@.len() == 0,
            config.srvcfg.host@ == "0.0.0.0"@,
            config.srvcfg.port == 8888,
    {
        WikitConfig {
            cltcfg: ClientConfig { uris: Vec::new() },
            srvcfg: ServerConfig { uris: Vec::new(), host: "0.0.0.0".to_owned(), port: 8888 },
        }
    }
}

} // verus!
