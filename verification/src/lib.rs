//! Serial telemetry line pipeline.
//!
//! Raw bytes from a serial transport arrive in arbitrarily sized chunks.
//! The library reassembles them into newline-terminated records, parses
//! each record into a typed sample of two axes, a diagnostic axis and two
//! button states, and delivers the sample atomically to a device sink.

use vstd::prelude::*;

pub mod queue;
pub mod scan;
pub mod parser;
pub mod sink;
pub mod framer;
pub mod laws;

verus! {

/// Everything that can go wrong while a chunk travels through the
/// pipeline.  All of these are recoverable: the session stays ready for
/// the next chunk.
#[derive(Clone, Copy, Debug, PartialEq, Eq, Structural)]
pub enum TelemetryError {
    /// A push exceeded the queue's remaining capacity; the accepted
    /// prefix is kept and the excess is dropped.
    QueueOverflow,
    /// An assembled record exceeded the capacity; the record is dropped
    /// and the queue reset.
    OversizedRecord,
    /// The assembled record is not valid text; the record is dropped
    /// and the queue reset.
    EncodingError,
    /// A field has no `:` separator.
    MissingValue,
    /// A field's value is not a signed integer.
    InvalidValue,
    /// A field's key is none of X, Y, Z, A, B.
    UnknownKey,
    /// A sample was parsed but no sink is attached; the sample is dropped.
    SinkUnavailable,
}

} // verus!
