//! Line framer and session.  One delivery consumes one chunk of bytes:
//! the chunk is scanned for the first line terminator; without one the
//! whole chunk is queued (subject to the overflow policy); with one, the
//! queued leftovers and the chunk up to the terminator are assembled into
//! a record, stripped of trailing line ends, checked as text, parsed, and
//! dispatched.  Bytes after the terminator are queued for the next call
//! and are not re-scanned within the same call, so a chunk holding two
//! terminators yields exactly one record per call.

use vstd::prelude::*;

use crate::TelemetryError;
use crate::parser::{Sample, parse_record, spec_parse_record};
use crate::queue::{ByteQueue, CAPACITY};
use crate::scan::{NL, find_byte, find_byte_from, strip_line_ends, strip_trailing_line_ends};
use crate::sink::{DeviceSink, spec_dispatch, dispatch_sample};

verus! {

/// Whether a byte string is valid text, as the host's text decoder
/// decides it.
pub uninterp spec fn is_text(bytes: Seq<u8>) -> bool;

/// Relies on core::str::from_utf8: whether a byte string is valid UTF-8
/// depends on the bytes alone, and an all-ASCII byte string always is.
#[verifier::external_body]
fn check_text(bytes: &Vec<u8>) -> (r: bool)
    ensures
        r == is_text(bytes@),
        (forall|i: int| 0 <= i < bytes@.len() ==> bytes@[i] < 128) ==> r,
{
    core::str::from_utf8(bytes.as_slice()).is_ok()
}

/// How many leading bytes of a string of length `pushed` a queue already
/// holding `queued` bytes accepts.
pub open spec fn accepted_len(queued: int, pushed: int) -> int {
    if queued > CAPACITY {
        0
    } else {
        vstd::math::min(pushed, CAPACITY - queued)
    }
}

/// One framing step at the level of byte sequences: the queue contents
/// after the call, the assembled record (terminator and trailing carriage
/// returns stripped) if one was completed, and the two framing errors.
pub struct StepModel {
    /// Queue contents after the step.
    pub queue2: Seq<u8>,
    /// The record handed to the parser, if the chunk completed one that
    /// fit within the capacity.
    pub record: Option<Seq<u8>>,
    /// A completed record exceeded the capacity and was dropped.
    pub oversized: bool,
    /// Some push exceeded the queue's remaining capacity.
    pub overflow: bool,
}

/// What one delivery does to the queue, as a function of the old queue
/// contents and the chunk.
pub open spec fn framer_step(q: Seq<u8>, chunk: Seq<u8>) -> StepModel {
    match find_byte(chunk, NL) {
        None => StepModel {
            queue2: q + chunk.take(accepted_len(q.len() as int, chunk.len() as int)),
            record: None,
            oversized: false,
            overflow: q.len() + chunk.len() > CAPACITY,
        },
        Some(p) => {
            let rem = chunk.skip(p + 1);
            let kept = rem.take(accepted_len(0, rem.len() as int));
            let overflow = rem.len() > CAPACITY;
            if q.len() + p + 1 > CAPACITY {
                StepModel { queue2: kept, record: None, oversized: true, overflow }
            } else {
                StepModel {
                    queue2: kept,
                    record: Some(strip_line_ends(q + chunk.take(p + 1))),
                    oversized: false,
                    overflow,
                }
            }
        },
    }
}

/// What became of an assembled record: rejected as non-text, rejected by
/// the parser, or parsed into a sample.
pub open spec fn record_verdict(r: Seq<u8>) -> Result<Sample, TelemetryError> {
    if !is_text(r) {
        Err(TelemetryError::EncodingError)
    } else {
        spec_parse_record(r)
    }
}

/// The record part of one delivery's report.
#[derive(Clone, Copy, Debug, PartialEq, Eq, Structural)]
pub enum RecordStatus {
    /// The chunk held no terminator: no record was attempted.
    NoRecord,
    /// A record was assembled, parsed and delivered to the sink.
    Dispatched(Sample),
    /// A record was assembled (or grew oversized) and dropped; the error
    /// says why.
    Rejected(TelemetryError),
}

/// One delivery's report: the record outcome, and whether a queue push
/// overflowed (the accepted prefix is kept, the excess dropped).
#[derive(Clone, Copy, Debug, PartialEq, Eq, Structural)]
pub struct DeliverOutcome {
    pub record: RecordStatus,
    pub queue_overflow: bool,
}

/// One open transport session: the bounded byte queue holding unconsumed
/// bytes between deliveries, and the attached device sink, if any.
pub struct Session {
    pub queue: ByteQueue,
    pub sink: Option<DeviceSink>,
}

impl Session {
    /// The session's queue never exceeds its capacity.
    pub open spec fn wf(&self) -> bool {
        self.queue.wf()
    }

    /// Opens a session: an empty queue and a freshly attached sink.
    pub fn open_session() -> (s: Session)
        ensures
            s.wf(),
            s.queue@ == Seq::<u8>::empty(),
            s.sink matches Some(d) && d@.log == Seq::<crate::sink::SinkCommand>::empty()
                && d@.axis_x == 0 && d@.axis_y == 0 && d@.button_a == 0 && d@.button_b == 0,
    {
        Session { queue: ByteQueue::new(), sink: Some(DeviceSink::new()) }
    }

    /// Closes the session: the sink is detached and the queued bytes are
    /// discarded.
    pub fn close_session(&mut self)
        ensures
            final(self).wf(),
            final(self).queue@ == Seq::<u8>::empty(),
            final(self).sink is None,
    {
        self.queue.reset();
        self.sink = None;
    }

    /// Delivers one chunk.  The whole behaviour is `framer_step` on the
    /// queue plus `record_verdict` and dispatch on the assembled record:
    /// without a terminator the chunk is queued and no record attempted;
    /// with one, exactly one record is assembled from the queued leftovers
    /// and the chunk up to the terminator, and the remainder is queued for
    /// the next call.  Every error is reported in the outcome and none
    /// stops the session from taking the next chunk.
    pub fn deliver(&mut self, chunk: &[u8]) -> (out: DeliverOutcome)
        requires
            old(self).wf(),
        ensures
            final(self).wf(),
            ({
                let m = framer_step(old(self).queue@, chunk@);
                &&& final(self).queue@ == m.queue2
                &&& out.queue_overflow == m.overflow
                &&& (m.record is None && !m.oversized ==> out.record == RecordStatus::NoRecord
                    && final(self).sink == old(self).sink)
                &&& (m.oversized ==> out.record == RecordStatus::Rejected(
                    TelemetryError::OversizedRecord,
                ) && final(self).sink == old(self).sink)
                &&& (m.record matches Some(r) ==> match record_verdict(r) {
                    Err(e) => out.record == RecordStatus::Rejected(e)
                        && final(self).sink == old(self).sink,
                    Ok(sample) => match old(self).sink {
                        None => out.record == RecordStatus::Rejected(
                            TelemetryError::SinkUnavailable,
                        ) && final(self).sink is None,
                        Some(d0) => out.record == RecordStatus::Dispatched(sample)
                            && (final(self).sink matches Some(d1)
                                && d1@ == spec_dispatch(d0@, sample)),
                    },
                })
            }),
    {
        proof {
            assert(chunk@.skip(0) =~= chunk@);
        }
        let pos = find_byte_from(chunk, 0, NL);
        match pos {
            None => {
                // No terminator: queue the whole chunk.
                let accepted = self.queue.push(chunk);
                proof {
                    assert(chunk@.take(accepted as int) =~= chunk@.subrange(0, accepted as int));
                }
                DeliverOutcome {
                    record: RecordStatus::NoRecord,
                    queue_overflow: accepted < chunk.len(),
                }
            },
            Some(p) => {
                let n = chunk.len();
                let ghost q0 = self.queue@;
                // Drain the queued leftovers into the assembly buffer.
                let mut assembled = self.queue.pop_all(CAPACITY);
                proof {
                    assert(assembled@ =~= q0);
                    assert(self.queue@ =~= Seq::<u8>::empty());
                }
                let room = CAPACITY - assembled.len();
                let record_status: RecordStatus;
                if p + 1 > room {
                    // Oversized record: drop it; the queue is already
                    // reset by the drain.
                    record_status = RecordStatus::Rejected(TelemetryError::OversizedRecord);
                } else {
                    // Append the chunk up to and including the terminator.
                    let mut j: usize = 0;
                    while j <= p
                        invariant
                            j <= p + 1,
                            p < chunk@.len(),
                            assembled@ == q0 + chunk@.subrange(0, j as int),
                        decreases p + 1 - j,
                    {
                        assembled.push(chunk[j]);
                        j = j + 1;
                        assert(assembled@ =~= q0 + chunk@.subrange(0, j as int));
                    }
                    proof {
                        assert(assembled@ == q0 + chunk@.take(p + 1));
                    }
                    strip_trailing_line_ends(&mut assembled);
                    let ghost r = strip_line_ends(q0 + chunk@.take(p + 1));
                    if !check_text(&assembled) {
                        record_status = RecordStatus::Rejected(TelemetryError::EncodingError);
                    } else {
                        match parse_record(assembled.as_slice()) {
                            Err(e) => {
                                record_status = RecordStatus::Rejected(e);
                            },
                            Ok(sample) => {
                                match &mut self.sink {
                                    Some(d) => {
                                        dispatch_sample(d, &sample);
                                        record_status = RecordStatus::Dispatched(sample);
                                    },
                                    None => {
                                        record_status = RecordStatus::Rejected(
                                            TelemetryError::SinkUnavailable,
                                        );
                                    },
                                }
                            },
                        }
                    }
                }
                // Queue the remainder after the terminator as the start of
                // the next record.
                let mut overflow = false;
                if p + 1 < chunk.len() {
                    let accepted = self.queue.push_from(chunk, p + 1);
                    overflow = accepted < chunk.len() - (p + 1);
                    proof {
                        assert(chunk@.skip(p + 1).take(accepted as int) =~= chunk@.subrange(
                            p + 1,
                            p + 1 + accepted,
                        ));
                    }
                } else {
                    proof {
                        assert(chunk@.skip(p + 1) =~= Seq::<u8>::empty());
                        assert(chunk@.skip(p + 1).take(0) =~= Seq::<u8>::empty());
                    }
                }
                DeliverOutcome { record: record_status, queue_overflow: overflow }
            },
        }
    }
}

} // verus!
