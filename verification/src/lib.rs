//! Metrics exporter core for a consumer router's CGI interface: parsers for
//! the device's semi-structured command output, projectors from typed
//! measurements to metric series, a failure-isolating merge step, and a
//! serializer for the text exposition format.

pub mod bandwidth;
pub mod config;
pub mod coordinator;
pub mod cpu;
pub mod error;
pub mod load;
pub mod mem;
pub mod network;
pub mod node;
pub mod prometheus;
pub mod table;
pub mod time;
pub mod text;
pub mod transport;
pub mod uname;
pub mod value;

use vstd::prelude::*;

verus! {

/// Terminal ANSI support probe; on the platforms this exporter targets the
/// terminal always accepts ANSI escapes.
pub fn fix_ansi_term() -> (b: bool)
    ensures
        b,
{
    true
}

} // verus!
