//! The relay's settings. They are handed by value to the parts that need
//! them.

use vstd::prelude::*;

pub mod defaults;

verus! {

/// What an operator can set. An empty list of versions or of tokens lets
/// every version or token pass.
#[derive(Debug, Clone, PartialEq, Eq)]
pub struct Config {
    /// `host:port` that the datagram socket binds to.
    pub udp_bind_address: String,
    /// `host:port` of the liveness endpoint; empty for none.
    pub http_bind_address: String,
    /// The client versions that may authenticate.
    pub allowed_versions: Vec<String>,
    /// The application tokens that may authenticate.
    pub whitelist: Vec<String>,
    /// Base address of a remote service that knows the valid tokens; empty
    /// for none.
    pub remote_whitelist_endpoint: String,
    /// The credential that the remote service asks of this relay.
    pub remote_whitelist_token: String,
    /// A short name that tells this relay from its siblings.
    pub relay_id: String,
}

impl Default for Config {
    fn default() -> (r: Self)
        ensures
            r.udp_bind_address@ == "0.0.0.0:8080"@,
            r.http_bind_address@.len() == 0,
            r.allowed_versions@.len() == 0,
            r.whitelist@.len() == 0,
            r.remote_whitelist_endpoint@.len() == 0,
            r.remote_whitelist_token@.len() == 0,
            r.relay_id@.len() == 0,
    {
        Config {
            udp_bind_address: defaults::udp_bind_address(),
            http_bind_address: String::new(),
            allowed_versions: defaults::allowed_versions(),
            whitelist: defaults::app_whitelist(),
            remote_whitelist_endpoint: String::new(),
            remote_whitelist_token: String::new(),
            relay_id: defaults::relay_id(),
        }
    }
}

} // verus!
