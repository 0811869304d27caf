//! Resolved process configuration, handed in by the startup code.

use vstd::prelude::*;

verus! {

/// Where to listen, which path to serve, and how to reach the device.
/// Immutable for the lifetime of the process.
#[derive(Debug, Clone, PartialEq, Eq)]
pub struct Config {
    pub ip: String,
    pub port: u16,
    pub slug: String,
    pub router_ip: String,
    pub admin_username: String,
    pub admin_password: String,
    pub http_id: String,
}

} // verus!
