use vstd::prelude::*;

verus! {

/// Where the server listens.
pub struct ServerConfig {
    /// Socket address to bind, such as "127.0.0.1:8080".
    pub address: String,
}

/// Settings resolved at startup.
pub struct Config {
    pub server: ServerConfig,
}

} // verus!
