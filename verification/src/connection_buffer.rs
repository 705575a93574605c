//! The byte buffer of one direction of a connection.

use vstd::prelude::*;
use crate::protocol::BUF_LEN;

verus! {

/// A buffer of `BUF_LEN` bytes with a read head and a write head: bytes
/// come in at the write head and leave at the read head.
pub struct ConnectionBuffer {
    data: Vec<u8>,
    write_head: usize,
    read_head: usize,
}

impl ConnectionBuffer {
    /// All the bytes of the buffer, used or not.
    pub closed spec fn contents(&self) -> Seq<u8> {
        self.data@
    }

    /// The offset of the next byte to leave.
    pub closed spec fn read_pos(&self) -> int {
        self.read_head as int
    }

    /// The offset at which the next byte comes in.
    pub closed spec fn write_pos(&self) -> int {
        self.write_head as int
    }

    /// The buffer has its full size, and the read head is not behind the
    /// write head, which is not behind the end.
    pub open spec fn wf(&self) -> bool {
        &&& self.contents().len() == BUF_LEN
        &&& 0 <= self.read_pos() <= self.write_pos() <= BUF_LEN
    }

    /// The bytes that came in and did not leave yet.
    pub open spec fn pending(&self) -> Seq<u8> {
        self.contents().subrange(self.read_pos(), self.write_pos())
    }

    /// The number of bytes that can still come in.
    pub open spec fn room(&self) -> int {
        BUF_LEN - self.write_pos()
    }

    /// What `remove_processed` leaves of a buffer that was `self`: the
    /// pending bytes at the start, the read head before them, the write
    /// head behind them, and the bytes that follow as they were.
    pub open spec fn compacted(&self, after: &Self) -> bool {
        &&& after.read_pos() == 0
        &&& after.write_pos() == self.pending().len()
        &&& after.contents() == self.pending() + self.contents().subrange(
            self.pending().len() as int,
            BUF_LEN as int,
        )
    }

    /// To move the pending bytes to the start a second time changes nothing.
    pub proof fn lemma_compacted_twice(&self, once: &Self, twice: &Self)
        requires
            self.wf(),
            self.compacted(once),
            once.compacted(twice),
        ensures
            twice.read_pos() == once.read_pos(),
            twice.write_pos() == once.write_pos(),
            twice.contents() == once.contents(),
    {
        assert(once.pending() =~= self.pending());
        assert(twice.contents() =~= once.contents());
    }

    /// An empty buffer.
    pub fn new() -> (buffer: Self)
        ensures
            buffer.wf(),
            buffer.read_pos() == 0,
            buffer.write_pos() == 0,
    {
        let mut data = Vec::with_capacity(BUF_LEN);
        data.resize(BUF_LEN, 0xaa);
        Self { data, write_head: 0, read_head: 0 }
    }

    /// Puts both heads back at the start, which empties the buffer.
    pub fn reset(&mut self)
        ensures
            final(self).contents() == old(self).contents(),
            final(self).read_pos() == 0,
            final(self).write_pos() == 0,
            old(self).wf() ==> final(self).wf(),
    {
        self.read_head = 0;
        self.write_head = 0;
    }

    /// Whether no byte is pending.
    pub fn is_empty(&self) -> (empty: bool)
        ensures
            empty == (self.read_pos() == self.write_pos()),
    {
        self.read_head == self.write_head
    }

    /// The part of the buffer from the write head to the end, to be filled
    /// by the caller. The heads stay where they are, and so do the bytes
    /// before the write head.
    pub fn writable(&mut self) -> (w: &mut [u8])
        requires
            old(self).wf(),
        ensures
            w@ == old(self).contents().subrange(old(self).write_pos(), BUF_LEN as int),
            final(self).contents() == old(self).contents().subrange(0, old(self).write_pos())
                + final(w)@,
            final(self).read_pos() == old(self).read_pos(),
            final(self).write_pos() == old(self).write_pos(),
    {
        let (_, tail) = self.data.as_mut_slice().split_at_mut(self.write_head);
        tail
    }

    /// The pending bytes.
    pub fn readable(&self) -> (r: &[u8])
        requires
            self.wf(),
        ensures
            r@ == self.pending(),
    {
        vstd::slice::slice_subrange(self.data.as_slice(), self.read_head, self.write_head)
    }

    /// Moves the write head over `n` bytes that came in behind it.
    pub fn update_write_head(&mut self, n: usize)
        requires
            old(self).wf(),
            n <= old(self).room(),
        ensures
            final(self).wf(),
            final(self).contents() == old(self).contents(),
            final(self).read_pos() == old(self).read_pos(),
            final(self).write_pos() == old(self).write_pos() + n,
    {
        self.write_head += n;
    }

    /// Moves the read head over `n` pending bytes, which have left.
    pub fn update_read_head(&mut self, n: usize)
        requires
            old(self).wf(),
            n <= old(self).pending().len(),
        ensures
            final(self).wf(),
            final(self).contents() == old(self).contents(),
            final(self).read_pos() == old(self).read_pos() + n,
            final(self).write_pos() == old(self).write_pos(),
    {
        self.read_head += n;
    }

    /// Moves the pending bytes to the start of the buffer, to make room
    /// behind them. The bytes behind the pending ones stay as they were.
    pub fn remove_processed(&mut self)
        requires
            old(self).wf(),
        ensures
            final(self).wf(),
            old(self).compacted(final(self)),
            final(self).pending() == old(self).pending(),
    {
        let remaining = self.write_head - self.read_head;
        let next = self.read_head;
        let mut i: usize = 0;
        while i < remaining
            invariant
                i <= remaining,
                next + remaining <= BUF_LEN,
                next == old(self).read_pos(),
                remaining == old(self).pending().len(),
                self.data@.len() == BUF_LEN,
                self.read_head == old(self).read_head,
                self.write_head == old(self).write_head,
                old(self).wf(),
                self.data@ == old(self).pending().subrange(0, i as int)
                    + old(self).contents().subrange(i as int, BUF_LEN as int),
            decreases remaining - i,
        {
            let byte = self.data[next + i];
            self.data[i] = byte;
            i += 1;
            assert(self.data@ =~= old(self).pending().subrange(0, i as int)
                + old(self).contents().subrange(i as int, BUF_LEN as int));
        }
        self.read_head = 0;
        self.write_head = remaining;
        proof {
            assert(old(self).pending().subrange(0, remaining as int) =~= old(self).pending());
            assert(self.pending() =~= old(self).pending());
        }
    }
}

} // verus!
