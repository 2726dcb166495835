//! What a setting is when the operator leaves it out.

use vstd::prelude::*;

verus! {

/// Every interface, port 8080.
pub fn udp_bind_address() -> (r: String)
    ensures
        r@ == "0.0.0.0:8080"@,
{
    "0.0.0.0:8080".to_owned()
}

/// No token is named: every token passes.
pub fn app_whitelist() -> (r: Vec<String>)
    ensures
        r@.len() == 0,
{
    Vec::new()
}

/// No version is named: every version passes.
pub fn allowed_versions() -> (r: Vec<String>)
    ensures
        r@.len() == 0,
{
    Vec::new()
}

/// No name.
pub fn relay_id() -> (r: String)
    ensures
        r@.len() == 0,
{
    String::new()
}

} // verus!
