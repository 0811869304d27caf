//! Error taxonomy of the exporter core.

use vstd::prelude::*;

verus! {

/// A device response did not match the textual pattern a parser expects,
/// or held a number too large for the measurement's integer type.
#[derive(Debug, Clone, Copy, PartialEq, Eq, Structural)]
pub struct ParseError;

/// A network, HTTP-status or authentication failure, reported by the
/// transport that performed the call.  The message is free text for the
/// operator; no decision is made on it.
#[derive(Debug, Clone, PartialEq, Eq)]
pub struct TransportError {
    pub message: String,
}

/// Why one collector produced no series this cycle.  Confined to that
/// collector: the coordinator still renders every other family.
#[derive(Debug, Clone, PartialEq, Eq)]
pub enum CollectorError {
    Transport(TransportError),
    Parse(ParseError),
}

} // verus!
