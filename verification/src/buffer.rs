use vstd::prelude::*;

verus! {

/// Position `i` folded back into `[0, n)`, for `i` in `[0, 2n)`: the step a
/// cursor takes when it advances modulo the physical end of storage.
pub open spec fn wrap(i: int, n: int) -> int {
    if i < n {
        i
    } else {
        i - n
    }
}

/// Physical index of the `t`-th byte at or after position `base` in a ring
/// of capacity `n`, for `base` in `[0, n)` and `t` in `[0, n)`.
pub open spec fn pos_of(base: int, t: int, n: int) -> int {
    wrap(base + t, n)
}

/// A bounded, non-blocking byte ring with one write cursor and one read
/// cursor.
///
/// At most `capacity - 1` bytes are ever live: one slot stays permanently
/// reserved so that equal cursors mean "empty", never "full". A write never
/// overwrites unread data; excess bytes are dropped with a short count, and
/// offering them again is the caller's business.
///
/// Ownership is split by role: the writer side alone moves the write
/// cursor, the single designated consumer alone moves the read cursor, and
/// the split is maintained purely by the capacity arithmetic proved here.
/// In a preemptive port the cursors become atomic variables with this
/// ordering contract: each role stores its own cursor with release
/// ordering, publishing the bytes (or the freed capacity) along with it;
/// the writer re-loads its own cursor with acquire ordering and loads the
/// read cursor relaxed, as a conservative lower bound on capacity; the
/// reader loads the write cursor with acquire ordering and its own cursor
/// relaxed.
pub struct Buffer {
    storage: Vec<u8>,
    write_cursor: usize,
    read_cursor: usize,
}

/// Everything [`Buffer::write`] guarantees, relating the ring before
/// (`pre`) and after (`post`) a call that offered `bytes` and returned `n`:
/// exactly `min(bytes.len(), free_space)` bytes are consumed and appended,
/// in order, to the live contents; the read cursor and everything already
/// live stay untouched; a write that consumes nothing changes nothing.
pub open spec fn write_post(pre: Buffer, post: Buffer, bytes: Seq<u8>, n: int) -> bool {
    &&& post.wf()
    &&& post.cap() == pre.cap()
    &&& n == if bytes.len() <= pre.free_space() {
        bytes.len() as int
    } else {
        pre.free_space()
    }
    &&& post.contents() == pre.contents() + bytes.subrange(0, n)
    &&& post.rpos() == pre.rpos()
    &&& post.wpos() == wrap(pre.wpos() + n, pre.cap())
    &&& (n == 0 ==> post == pre)
}

/// Everything [`Buffer::read`] guarantees: exactly
/// `min(dest.len(), unread)` bytes are moved, they are the oldest live
/// bytes in order, they land at the front of `dest` whose remainder and
/// length stay as they were, the ring keeps the rest of its live bytes, and
/// the write cursor stays untouched; a read that moves nothing changes
/// nothing.
pub open spec fn read_post(
    pre: Buffer,
    post: Buffer,
    dest_pre: Seq<u8>,
    dest_post: Seq<u8>,
    n: int,
) -> bool {
    &&& post.wf()
    &&& post.cap() == pre.cap()
    &&& n == if dest_pre.len() <= pre.unread() {
        dest_pre.len() as int
    } else {
        pre.unread()
    }
    &&& dest_post.len() == dest_pre.len()
    &&& dest_post == pre.contents().subrange(0, n) + dest_pre.subrange(n, dest_pre.len() as int)
    &&& post.contents() == pre.contents().subrange(n, pre.contents().len() as int)
    &&& post.wpos() == pre.wpos()
    &&& post.rpos() == wrap(pre.rpos() + n, pre.cap())
    &&& (n == 0 ==> post == pre && dest_post == dest_pre)
}

impl Buffer {
    /// Physical capacity of the ring.
    pub closed spec fn cap(self) -> int {
        self.storage@.len() as int
    }

    /// The write cursor: where the next written byte lands.
    pub closed spec fn wpos(self) -> int {
        self.write_cursor as int
    }

    /// The read cursor: where the next read byte comes from.
    pub closed spec fn rpos(self) -> int {
        self.read_cursor as int
    }

    /// Well-formedness: capacity at least two (one slot being reserved),
    /// both cursors inside the storage.
    pub closed spec fn wf(self) -> bool {
        &&& 2 <= self.storage@.len()
        &&& (self.write_cursor as int) < self.cap()
        &&& (self.read_cursor as int) < self.cap()
    }

    /// How many live (written, unread) bytes the ring holds.
    pub open spec fn unread(self) -> int {
        if self.rpos() <= self.wpos() {
            self.wpos() - self.rpos()
        } else {
            self.cap() - self.rpos() + self.wpos()
        }
    }

    /// How many further bytes a write may consume before the ring is full.
    pub open spec fn free_space(self) -> int {
        self.cap() - 1 - self.unread()
    }

    /// The live bytes, oldest first.
    pub closed spec fn contents(self) -> Seq<u8> {
        Seq::new(self.unread() as nat, |t: int| self.storage@[pos_of(self.rpos(), t, self.cap())])
    }

    /// True iff no byte is live.
    pub open spec fn is_empty(self) -> bool {
        self.unread() == 0
    }
}

/// `pos_of(base, -, n)` is injective on `[0, n)` and lands in `[0, n)`.
proof fn lemma_pos_inj(base: int, n: int)
    requires
        0 <= base < n,
    ensures
        forall|t1: int, t2: int|
            0 <= t1 < n && 0 <= t2 < n && t1 != t2 ==> pos_of(base, t1, n) != pos_of(base, t2, n),
        forall|t: int| 0 <= t < n ==> 0 <= #[trigger] pos_of(base, t, n) < n,
{
}

/// Stepping `k` further from a wrapped position is the same as wrapping
/// once from the start.
proof fn lemma_pos_shift(base: int, d: int, k: int, n: int)
    requires
        0 <= base < n,
        0 <= d,
        0 <= k,
        d + k < n,
    ensures
        pos_of(wrap(base + d, n), k, n) == pos_of(base, d + k, n),
{
}

impl Buffer {
    /// A ring of physical capacity `size`: empty, both cursors at zero.
    pub fn new(size: usize) -> (b: Buffer)
        requires
            2 <= size,
        ensures
            b.wf(),
            b.cap() == size,
            b.contents() == Seq::<u8>::empty(),
            b.rpos() == 0,
            b.wpos() == 0,
    {
        let mut storage: Vec<u8> = Vec::new();
        while storage.len() < size
            invariant
                storage@.len() <= size,
            decreases size - storage@.len(),
        {
            storage.push(0);
        }
        let b = Buffer { storage, write_cursor: 0, read_cursor: 0 };
        proof {
            assert(b.contents() =~= Seq::<u8>::empty());
        }
        b
    }

    /// Exposes the physical capacity.
    pub fn capacity(&self) -> (c: usize)
        ensures
            c as int == self.cap(),
    {
        self.storage.len()
    }

    /// Exposes the write cursor.
    pub fn write_cursor(&self) -> (c: usize)
        ensures
            c as int == self.wpos(),
    {
        self.write_cursor
    }

    /// Exposes the read cursor.
    pub fn read_cursor(&self) -> (c: usize)
        ensures
            c as int == self.rpos(),
    {
        self.read_cursor
    }

    /// Consumes up to `free_space` bytes from the front of `bytes` into the
    /// ring, wrapping the copy across the physical end of storage where
    /// needed, and advances the write cursor by the count it returns. A full
    /// ring consumes nothing: that is flow control, not an error.
    pub fn write(&mut self, bytes: &[u8]) -> (n: usize)
        requires
            old(self).wf(),
        ensures
            write_post(*old(self), *final(self), bytes@, n as int),
    {
        let size = self.storage.len();
        let write = self.write_cursor;
        let read = self.read_cursor;
        let available = if read > write {
            read - write - 1
        } else if read == write {
            size - 1
        } else {
            size - (write - read) - 1
        };
        proof {
            assert(available as int == old(self).free_space());
        }
        if available == 0 {
            proof {
                assert(self.contents() =~= self.contents() + bytes@.subrange(0, 0));
            }
            return 0;
        }
        if bytes.len() == 0 {
            proof {
                assert(self.contents() =~= self.contents() + bytes@.subrange(0, 0));
            }
            return 0;
        }
        let len = if bytes.len() < available {
            bytes.len()
        } else {
            available
        };

        let ghost sz: int = size as int;
        let ghost w: int = write as int;
        let ghost r: int = read as int;
        let ghost unread0: int = old(self).unread();
        proof {
            assert(w == wrap(r + unread0, sz));
            lemma_pos_inj(r, sz);
        }

        let mut i: usize = 0;
        while i < len
            invariant
                old(self).wf(),
                sz == old(self).cap(),
                w == old(self).wpos(),
                r == old(self).rpos(),
                unread0 == old(self).unread(),
                w == wrap(r + unread0, sz),
                0 <= i <= len,
                len as int <= bytes@.len(),
                len as int <= old(self).free_space(),
                write as int == w,
                read as int == r,
                size as int == sz,
                self.write_cursor == old(self).write_cursor,
                self.read_cursor == old(self).read_cursor,
                self.storage@.len() == sz,
                forall|t: int|
                    0 <= t < unread0 ==> self.storage@[pos_of(r, t, sz)] == old(
                        self,
                    ).storage@[pos_of(r, t, sz)],
                forall|t: int|
                    unread0 <= t < unread0 + i ==> self.storage@[pos_of(r, t, sz)] == bytes@[t
                        - unread0],
            decreases len - i,
        {
            let pos = if i < size - write {
                write + i
            } else {
                i - (size - write)
            };
            proof {
                assert(pos as int == wrap(w + i, sz));
                lemma_pos_shift(r, unread0, i as int, sz);
                assert(pos as int == pos_of(r, unread0 + i, sz));
                lemma_pos_inj(r, sz);
            }
            self.storage.set(pos, bytes[i]);
            i = i + 1;
        }

        let new_write = if len < size - write {
            write + len
        } else {
            len - (size - write)
        };
        self.write_cursor = new_write;
        proof {
            assert(new_write as int == wrap(w + len, sz));
            lemma_pos_shift(r, unread0, len as int, sz);
            assert(new_write as int == wrap(r + (unread0 + len), sz));
            assert(self.unread() == unread0 + len);
            lemma_pos_inj(r, sz);
            assert forall|k: int| 0 <= k < unread0 + len implies self.contents()[k] == (old(
                self,
            ).contents() + bytes@.subrange(0, len as int))[k] by {
                if k < unread0 {
                    assert(self.contents()[k] == self.storage@[pos_of(r, k, sz)]);
                } else {
                    assert(self.contents()[k] == bytes@[k - unread0]);
                }
            }
            assert(self.contents() =~= old(self).contents() + bytes@.subrange(0, len as int));
        }
        len
    }

    /// Moves up to `dest.len()` of the oldest live bytes to the front of
    /// `dest`, wrapping the copy across the physical end of storage where
    /// needed, and advances the read cursor by the count it returns. An
    /// empty ring moves nothing. Single-consumer by contract: only the one
    /// designated drain context may call this.
    pub fn read(&mut self, dest: &mut Vec<u8>) -> (n: usize)
        requires
            old(self).wf(),
        ensures
            read_post(*old(self), *final(self), old(dest)@, final(dest)@, n as int),
    {
        let size = self.storage.len();
        let write = self.write_cursor;
        let read = self.read_cursor;
        let available = if read < write {
            write - read
        } else if read == write {
            0
        } else {
            (size - read) + write
        };
        proof {
            assert(available as int == old(self).unread());
        }
        if available == 0 {
            proof {
                assert(dest@ =~= self.contents().subrange(0, 0) + dest@.subrange(
                    0,
                    dest@.len() as int,
                ));
                assert(self.contents() =~= self.contents().subrange(
                    0,
                    self.contents().len() as int,
                ));
            }
            return 0;
        }
        if dest.len() == 0 {
            proof {
                assert(dest@ =~= self.contents().subrange(0, 0) + dest@.subrange(
                    0,
                    dest@.len() as int,
                ));
                assert(self.contents() =~= self.contents().subrange(
                    0,
                    self.contents().len() as int,
                ));
            }
            return 0;
        }
        let len = if dest.len() < available {
            dest.len()
        } else {
            available
        };

        let ghost sz: int = size as int;
        let ghost r: int = read as int;
        let ghost unread0: int = old(self).unread();
        let ghost dest0: Seq<u8> = dest@;

        let mut i: usize = 0;
        while i < len
            invariant
                old(self).wf(),
                sz == old(self).cap(),
                r == old(self).rpos(),
                unread0 == old(self).unread(),
                0 <= i <= len,
                len as int <= dest0.len(),
                len as int <= unread0,
                read as int == r,
                size as int == sz,
                *self == *old(self),
                dest@.len() == dest0.len(),
                forall|j: int| 0 <= j < i ==> dest@[j] == old(self).contents()[j],
                forall|j: int| i <= j < dest0.len() ==> dest@[j] == dest0[j],
            decreases len - i,
        {
            let pos = if i < size - read {
                read + i
            } else {
                i - (size - read)
            };
            proof {
                assert(pos as int == pos_of(r, i as int, sz));
                lemma_pos_inj(r, sz);
                assert(old(self).contents()[i as int] == self.storage@[pos_of(r, i as int, sz)]);
            }
            let b = self.storage[pos];
            dest.set(i, b);
            i = i + 1;
        }

        let new_read = if len < size - read {
            read + len
        } else {
            len - (size - read)
        };
        self.read_cursor = new_read;
        proof {
            assert(new_read as int == wrap(r + len, sz));
            assert(self.unread() == unread0 - len);
            assert forall|k: int| 0 <= k < unread0 - len implies self.contents()[k] == old(
                self,
            ).contents()[len + k] by {
                lemma_pos_shift(r, len as int, k, sz);
                assert(self.contents()[k] == self.storage@[pos_of(wrap(r + len, sz), k, sz)]);
            }
            assert(dest@ =~= old(self).contents().subrange(0, len as int) + dest0.subrange(
                len as int,
                dest0.len() as int,
            ));
            assert(self.contents() =~= old(self).contents().subrange(
                len as int,
                old(self).contents().len() as int,
            ));
        }
        len
    }

    /// Writes as much of `bytes` as fits, calling [`Buffer::write`] on the
    /// unconsumed remainder until all bytes are consumed or a call makes no
    /// progress. With no reader draining in between, this consumes exactly
    /// what a single `write` would: the ring stays best-effort and never
    /// queues excess bytes internally.
    pub fn write_all(&mut self, bytes: &[u8]) -> (n: usize)
        requires
            old(self).wf(),
        ensures
            write_post(*old(self), *final(self), bytes@, n as int),
    {
        let mut total: usize = 0;
        let mut progress: bool = true;
        while progress && total < bytes.len()
            invariant
                old(self).wf(),
                self.wf(),
                self.cap() == old(self).cap(),
                self.rpos() == old(self).rpos(),
                self.wpos() == wrap(old(self).wpos() + total, old(self).cap()),
                total as int <= bytes@.len(),
                total as int <= old(self).free_space(),
                self.contents() == old(self).contents() + bytes@.subrange(0, total as int),
                self.free_space() == old(self).free_space() - total,
                !progress ==> (total as int == old(self).free_space() && (total as int)
                    < bytes@.len()),
                total == 0 ==> *self == *old(self),
            decreases bytes@.len() - total, (if progress {
                1int
            } else {
                0int
            }),
        {
            let ghost mid: Buffer = *self;
            let ghost total0: int = total as int;
            let c = self.write(&bytes[total..bytes.len()]);
            proof {
                assert(bytes@.subrange(total0, bytes@.len() as int).subrange(0, c as int)
                    =~= bytes@.subrange(total0, total0 + c));
                assert(self.contents() =~= old(self).contents() + bytes@.subrange(
                    0,
                    total0 + c,
                ));
                lemma_contents_len(*old(self));
                lemma_contents_len(mid);
                lemma_contents_len(*self);
                lemma_pos_shift(old(self).wpos(), total0, c as int, old(self).cap());
            }
            if c == 0 {
                progress = false;
            } else {
                total = total + c;
            }
        }
        proof {
            assert(self.contents() =~= old(self).contents() + bytes@.subrange(0, total as int));
        }
        total
    }
}

/// A well-formed ring has capacity at least two and keeps both cursors
/// inside its storage.
pub proof fn lemma_cursor_bounds(b: Buffer)
    requires
        b.wf(),
    ensures
        2 <= b.cap(),
        0 <= b.rpos() < b.cap(),
        0 <= b.wpos() < b.cap(),
{
}

/// The live bytes are exactly `unread()` many, never more than the capacity
/// less the reserved slot; the ring is empty iff it holds no live byte.
pub proof fn lemma_contents_len(b: Buffer)
    requires
        b.wf(),
    ensures
        b.contents().len() == b.unread(),
        0 <= b.unread() <= b.cap() - 1,
        b.is_empty() <==> b.contents().len() == 0,
        b.is_empty() <==> b.rpos() == b.wpos(),
{
}

/// Reading from an empty ring returns zero bytes and mutates nothing:
/// neither the ring nor the destination changes.
pub proof fn lemma_read_empty(pre: Buffer, post: Buffer, dest_pre: Seq<u8>, dest_post: Seq<u8>, n: int)
    requires
        pre.wf(),
        pre.is_empty(),
        read_post(pre, post, dest_pre, dest_post, n),
    ensures
        n == 0,
        post == pre,
        dest_post == dest_pre,
{
}

/// Writing capacity-less-one bytes into an empty ring succeeds in full and
/// leaves no free space: any further byte offered before a read is not
/// consumed, so the reserved slot never holds data.
pub proof fn lemma_reserved_slot(pre: Buffer, post: Buffer, bytes: Seq<u8>, n: int)
    requires
        pre.wf(),
        pre.is_empty(),
        bytes.len() == pre.cap() - 1,
        write_post(pre, post, bytes, n),
    ensures
        n == pre.cap() - 1,
        post.free_space() == 0,
{
    lemma_contents_len(post);
}

/// One step of the FIFO ledger, writing: if the bytes read so far followed
/// by the live bytes equal the bytes written so far, then after a write the
/// same holds with exactly the consumed prefix appended to the written
/// side — nothing is reordered, duplicated or corrupted.
pub proof fn lemma_fifo_write(
    read_hist: Seq<u8>,
    write_hist: Seq<u8>,
    pre: Buffer,
    post: Buffer,
    bytes: Seq<u8>,
    n: int,
)
    requires
        read_hist + pre.contents() == write_hist,
        write_post(pre, post, bytes, n),
    ensures
        read_hist + post.contents() == write_hist + bytes.subrange(0, n),
{
    assert(read_hist + post.contents() =~= (read_hist + pre.contents()) + bytes.subrange(0, n));
}

/// One step of the FIFO ledger, reading: the bytes a read hands out are
/// exactly the oldest live bytes, in order, so appending them to the bytes
/// read so far keeps the ledger balanced.
pub proof fn lemma_fifo_read(
    read_hist: Seq<u8>,
    write_hist: Seq<u8>,
    pre: Buffer,
    post: Buffer,
    dest_pre: Seq<u8>,
    dest_post: Seq<u8>,
    n: int,
)
    requires
        pre.wf(),
        read_hist + pre.contents() == write_hist,
        read_post(pre, post, dest_pre, dest_post, n),
    ensures
        (read_hist + dest_post.subrange(0, n)) + post.contents() == write_hist,
{
    lemma_contents_len(pre);
    assert(dest_post.subrange(0, n) =~= pre.contents().subrange(0, n));
    assert((read_hist + dest_post.subrange(0, n)) + post.contents() =~= read_hist
        + pre.contents());
}

/// Round trip across the seam: from an empty ring whose cursors stand
/// anywhere — in particular just before the physical end, after wrapping —
/// a write of at most capacity-less-one bytes followed by a read with room
/// for all of them is consumed in full and reconstructs exactly the written
/// byte sequence, leaving the ring empty again.
pub proof fn lemma_round_trip(
    b0: Buffer,
    b1: Buffer,
    b2: Buffer,
    bytes: Seq<u8>,
    dest_pre: Seq<u8>,
    dest_post: Seq<u8>,
    nw: int,
    nr: int,
)
    requires
        b0.wf(),
        b0.is_empty(),
        bytes.len() <= b0.cap() - 1,
        dest_pre.len() == bytes.len(),
        write_post(b0, b1, bytes, nw),
        read_post(b1, b2, dest_pre, dest_post, nr),
    ensures
        nw == bytes.len(),
        nr == bytes.len(),
        dest_post == bytes,
        b2.is_empty(),
{
    lemma_contents_len(b0);
    lemma_contents_len(b1);
    lemma_contents_len(b2);
    assert(b1.contents() =~= bytes);
    assert(dest_post =~= bytes);
}

/// One observed call on the ring: what a write was offered and returned, or
/// what a read was handed and produced.
pub enum RingOp {
    Write { bytes: Seq<u8>, n: int },
    Read { dest_pre: Seq<u8>, dest_post: Seq<u8>, n: int },
}

/// The step from `pre` to `post` meets the contract of the call `op` records.
pub open spec fn step_ok(pre: Buffer, post: Buffer, op: RingOp) -> bool {
    match op {
        RingOp::Write { bytes, n } => write_post(pre, post, bytes, n),
        RingOp::Read { dest_pre, dest_post, n } => read_post(pre, post, dest_pre, dest_post, n),
    }
}

/// `states` is the run of ring states under the call sequence `ops`, each
/// step meeting the corresponding call's contract.
pub open spec fn steps_ok(states: Seq<Buffer>, ops: Seq<RingOp>) -> bool {
    &&& states.len() == ops.len() + 1
    &&& forall|i: int| #![trigger ops[i]] 0 <= i < ops.len() ==> step_ok(states[i], states[i + 1], ops[i])
}

/// All bytes the writes of `ops` consumed, concatenated in call order.
pub open spec fn written_bytes(ops: Seq<RingOp>) -> Seq<u8>
    decreases ops.len(),
{
    if ops.len() == 0 {
        Seq::empty()
    } else {
        written_bytes(ops.drop_last()) + match ops.last() {
            RingOp::Write { bytes, n } => bytes.subrange(0, n),
            RingOp::Read { .. } => Seq::<u8>::empty(),
        }
    }
}

/// All bytes the reads of `ops` produced, concatenated in call order.
pub open spec fn read_bytes(ops: Seq<RingOp>) -> Seq<u8>
    decreases ops.len(),
{
    if ops.len() == 0 {
        Seq::empty()
    } else {
        read_bytes(ops.drop_last()) + match ops.last() {
            RingOp::Write { .. } => Seq::<u8>::empty(),
            RingOp::Read { dest_post, n, .. } => dest_post.subrange(0, n),
        }
    }
}

/// For every capacity and every write/read call sequence starting from an
/// empty ring, the bytes read equal the bytes written, first in first out,
/// accounting for short counts: the concatenated read output followed by
/// the bytes still live in the ring is exactly the concatenated consumed
/// input — no reordering, duplication or corruption.
pub proof fn lemma_fifo(states: Seq<Buffer>, ops: Seq<RingOp>)
    requires
        states.len() >= 1,
        states[0].wf(),
        states[0].is_empty(),
        steps_ok(states, ops),
    ensures
        states.last().wf(),
        read_bytes(ops) + states.last().contents() == written_bytes(ops),
    decreases ops.len(),
{
    let l = ops.len() as int;
    if l == 0 {
        lemma_contents_len(states[0]);
        assert(read_bytes(ops) + states[0].contents() =~= written_bytes(ops));
    } else {
        let prefix = ops.drop_last();
        let states_prefix = states.drop_last();
        assert forall|i: int| 0 <= i < prefix.len() implies #[trigger] step_ok(
            states_prefix[i],
            states_prefix[i + 1],
            prefix[i],
        ) by {
            assert(step_ok(states[i], states[i + 1], ops[i]));
        }
        lemma_fifo(states_prefix, prefix);
        let pre = states[l - 1];
        let post = states[l];
        assert(states_prefix.last() == pre);
        assert(step_ok(pre, post, ops[l - 1]));
        match ops.last() {
            RingOp::Write { bytes, n } => {
                lemma_fifo_write(read_bytes(prefix), written_bytes(prefix), pre, post, bytes, n);
                assert(read_bytes(ops) =~= read_bytes(prefix));
            },
            RingOp::Read { dest_pre, dest_post, n } => {
                lemma_fifo_read(
                    read_bytes(prefix),
                    written_bytes(prefix),
                    pre,
                    post,
                    dest_pre,
                    dest_post,
                    n,
                );
                assert(written_bytes(ops) =~= written_bytes(prefix));
                assert(read_bytes(ops) + post.contents() =~= (read_bytes(prefix)
                    + dest_post.subrange(0, n)) + post.contents());
            },
        }
    }
}

} // verus!
