//! Bounded byte queue: a fixed-capacity FIFO holding the unconsumed bytes
//! between chunk deliveries.  Writes beyond the capacity are rejected, never
//! silently truncated in place: `push` reports how many leading bytes it
//! accepted.

use vstd::prelude::*;

verus! {

/// Capacity of the byte queue and of the record assembly buffer: no record
/// longer than this (terminator included) can be assembled.
pub const CAPACITY: usize = 1024;

/// Fixed-capacity FIFO of raw bytes.
pub struct ByteQueue {
    buf: Vec<u8>,
}

impl View for ByteQueue {
    type V = Seq<u8>;

    closed spec fn view(&self) -> Seq<u8> {
        self.buf@
    }
}

impl ByteQueue {
    /// The queue never holds more than `CAPACITY` bytes.
    pub open spec fn wf(&self) -> bool {
        self@.len() <= CAPACITY
    }

    /// An empty queue.
    pub fn new() -> (q: ByteQueue)
        ensures
            q@ == Seq::<u8>::empty(),
            q.wf(),
    {
        ByteQueue { buf: Vec::new() }
    }

    /// Number of queued bytes.
    pub fn len(&self) -> (n: usize)
        ensures
            n == self@.len(),
    {
        self.buf.len()
    }

    /// Empties the queue.  Idempotent: it always leaves length 0, whatever
    /// the queue held before, and never errors.
    pub fn reset(&mut self)
        ensures
            final(self)@ == Seq::<u8>::empty(),
            final(self).wf(),
    {
        self.buf.clear();
    }

    /// Appends the longest prefix of `bytes[start..]` that fits within the
    /// remaining capacity and returns how many bytes were accepted.
    /// Acceptance of a strict prefix is the caller-visible overflow
    /// condition.
    pub fn push_from(&mut self, bytes: &[u8], start: usize) -> (accepted: usize)
        requires
            old(self).wf(),
            start <= bytes@.len(),
        ensures
            accepted == vstd::math::min(
                bytes@.len() - start,
                CAPACITY - old(self)@.len(),
            ),
            final(self)@ == old(self)@ + bytes@.subrange(start as int, start + accepted),
            final(self).wf(),
            (accepted < bytes@.len() - start) <==> (old(self)@.len() + (bytes@.len() - start)
                > CAPACITY),
    {
        let mut i: usize = start;
        while self.buf.len() < CAPACITY && i < bytes.len()
            invariant
                start <= i <= bytes@.len(),
                self.buf@ == old(self)@ + bytes@.subrange(start as int, i as int),
                self.buf@.len() <= CAPACITY,
                i - start <= CAPACITY - old(self)@.len(),
            decreases bytes@.len() - i,
        {
            self.buf.push(bytes[i]);
            i = i + 1;
            assert(self.buf@ =~= old(self)@ + bytes@.subrange(start as int, i as int));
        }
        i - start
    }

    /// Appends the longest prefix of `bytes` that fits, as `push_from`
    /// does from the start of the slice.
    pub fn push(&mut self, bytes: &[u8]) -> (accepted: usize)
        requires
            old(self).wf(),
        ensures
            accepted == vstd::math::min(bytes@.len() as int, CAPACITY - old(self)@.len()),
            final(self)@ == old(self)@ + bytes@.subrange(0, accepted as int),
            final(self).wf(),
            (accepted < bytes@.len()) <==> (old(self)@.len() + bytes@.len() > CAPACITY),
    {
        self.push_from(bytes, 0)
    }

    /// Removes and returns the first `limit` queued bytes (everything, if
    /// fewer are queued), in arrival order.
    pub fn pop_all(&mut self, limit: usize) -> (out: Vec<u8>)
        ensures
            out@ == old(self)@.take(vstd::math::min(limit as int, old(self)@.len() as int)),
            final(self)@ == old(self)@.skip(
                vstd::math::min(limit as int, old(self)@.len() as int),
            ),
            final(self)@.len() <= old(self)@.len(),
    {
        let k = if limit < self.buf.len() {
            limit
        } else {
            self.buf.len()
        };
        let mut rest = self.buf.split_off(k);
        core::mem::swap(&mut self.buf, &mut rest);
        proof {
            assert(rest@ =~= old(self)@.take(k as int));
            assert(self.buf@ =~= old(self)@.skip(k as int));
        }
        rest
    }
}

} // verus!
