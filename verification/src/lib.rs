//! A wait-free single-producer/single-consumer byte ring for diagnostic
//! logs, with a writer-arbitration gate.
//!
//! Log bytes produced in arbitrarily prioritized, possibly preemption-masked
//! execution contexts are moved, without blocking or allocating, into a ring
//! a lower-priority or external consumer can drain. Delivery is best-effort:
//! a full ring answers a write with a short count, never by overwriting
//! unread data.

pub mod arbiter;
pub mod buffer;

pub use arbiter::AcquireOutcome;
pub use arbiter::WriterArbiter;
pub use buffer::Buffer;

use vstd::prelude::*;

verus! {

/// The read endpoint handed to the single external drain mechanism
/// (transport, probe, background task): it decouples the ring's read
/// operation from whoever calls it. Single-consumer by contract.
pub trait Reader {
    /// The well-formedness that servicing requires and preserves.
    spec fn ready(&self) -> bool;

    /// The buffered bytes still to be drained, oldest first.
    spec fn contents(&self) -> Seq<u8>;

    /// Services the log buffer by consuming unread data into `dest`.
    ///
    /// Exactly `min(dest.len(), contents.len())` bytes — the oldest buffered
    /// bytes, in order — land at the front of `dest`; the rest of `dest` is
    /// left as it was, its length never changes, and the endpoint keeps
    /// whatever it could not hand out.
    fn read(&mut self, dest: &mut Vec<u8>) -> (n: usize)
        requires
            old(self).ready(),
        ensures
            final(self).ready(),
            n as int == if old(dest)@.len() <= old(self).contents().len() {
                old(dest)@.len() as int
            } else {
                old(self).contents().len() as int
            },
            final(dest)@.len() == old(dest)@.len(),
            final(dest)@ == old(self).contents().subrange(0, n as int) + old(dest)@.subrange(
                n as int,
                old(dest)@.len() as int,
            ),
            final(self).contents() == old(self).contents().subrange(
                n as int,
                old(self).contents().len() as int,
            ),
    ;
}

impl Reader for Buffer {
    open spec fn ready(&self) -> bool {
        self.wf()
    }

    open spec fn contents(&self) -> Seq<u8> {
        Buffer::contents(*self)
    }

    fn read(&mut self, dest: &mut Vec<u8>) -> (n: usize) {
        let ghost pre: Buffer = *self;
        let n = Buffer::read(self, dest);
        proof {
            buffer::lemma_contents_len(pre);
        }
        n
    }
}

} // verus!
