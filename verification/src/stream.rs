//! In-memory model of the input descriptor, and the byte budget guard.
//!
//! A `ByteStream` holds the bytes the descriptor will deliver and a cursor
//! marking how many have been consumed.  Reading advances the cursor;
//! rollback moves it backward, which models repositioning a seekable
//! descriptor so that bytes read but not consumed remain available to later
//! readers.  A read past the end models end of input.

use vstd::prelude::*;

verus! {

/// Bash-compatible chunk size used by the chunked acquisition strategy.
pub const READ_CHUNK_SIZE: usize = 128;

/// True when `nbytes` raw bytes exceed the ceiling `limit`.  A ceiling of 0
/// disables the check.
pub open spec fn budget_exceeded(nbytes: nat, limit: nat) -> bool {
    limit != 0 && nbytes > limit
}

/// Stateless byte budget guard, consulted by every acquisition strategy
/// after each unit of raw-byte progress.
pub fn over_budget(nbytes: usize, limit: usize) -> (r: bool)
    ensures
        r == budget_exceeded(nbytes as nat, limit as nat),
{
    limit != 0 && nbytes > limit
}

/// The modelled descriptor: pending bytes plus a read cursor.
pub struct ByteStream {
    data: Vec<u8>,
    pos: usize,
}

impl ByteStream {
    /// All bytes the stream will ever deliver.
    pub closed spec fn data_seq(&self) -> Seq<u8> {
        self.data@
    }

    /// How many bytes have been consumed.
    pub closed spec fn cursor(&self) -> int {
        self.pos as int
    }

    /// The cursor never passes the end of the data.
    pub open spec fn wf(&self) -> bool {
        0 <= self.cursor() <= self.data_seq().len()
    }

    /// The data of a stream always fits in memory.
    pub proof fn lemma_len_bound(&self)
        ensures
            self.data_seq().len() <= usize::MAX,
    {
        vstd::std_specs::vec::axiom_spec_len(&self.data);
    }

    /// A stream positioned at the start of `data`.
    pub fn new(data: Vec<u8>) -> (s: ByteStream)
        ensures
            s.data_seq() == data@,
            s.cursor() == 0,
            s.wf(),
    {
        ByteStream { data, pos: 0 }
    }

    /// Current cursor position.
    pub fn position(&self) -> (p: usize)
        ensures
            p == self.cursor(),
    {
        self.pos
    }

    /// True when every byte has been consumed.
    pub fn at_end(&self) -> (r: bool)
        requires
            self.wf(),
        ensures
            r == (self.cursor() == self.data_seq().len()),
    {
        self.pos == self.data.len()
    }

    /// Consume one byte; `None` models end of input.
    pub fn read_byte(&mut self) -> (r: Option<u8>)
        requires
            old(self).wf(),
        ensures
            final(self).wf(),
            final(self).data_seq() == old(self).data_seq(),
            old(self).cursor() == old(self).data_seq().len() ==> r is None && final(self).cursor()
                == old(self).cursor(),
            old(self).cursor() < old(self).data_seq().len() ==> r == Some(
                old(self).data_seq()[old(self).cursor()],
            ) && final(self).cursor() == old(self).cursor() + 1,
    {
        if self.pos < self.data.len() {
            let b = self.data[self.pos];
            self.pos = self.pos + 1;
            Some(b)
        } else {
            None
        }
    }

    /// Consume up to `max` bytes as one chunk.  An empty chunk models end
    /// of input.
    pub fn read_chunk(&mut self, max: usize) -> (chunk: Vec<u8>)
        requires
            old(self).wf(),
        ensures
            final(self).wf(),
            final(self).data_seq() == old(self).data_seq(),
            chunk@ == old(self).data_seq().subrange(
                old(self).cursor(),
                if old(self).cursor() + max <= old(self).data_seq().len() {
                    old(self).cursor() + max
                } else {
                    old(self).data_seq().len() as int
                },
            ),
            final(self).cursor() == old(self).cursor() + chunk@.len(),
    {
        let mut chunk: Vec<u8> = Vec::new();
        let mut i: usize = 0;
        while i < max && self.pos < self.data.len()
            invariant
                old(self).wf(),
                self.data@ == old(self).data_seq(),
                self.pos == old(self).cursor() + i,
                self.wf(),
                i <= max,
                chunk@ == old(self).data_seq().subrange(old(self).cursor(), self.pos as int),
            decreases max - i,
        {
            let b = self.data[self.pos];
            chunk.push(b);
            self.pos = self.pos + 1;
            i = i + 1;
            proof {
                assert(old(self).data_seq().subrange(old(self).cursor(), self.pos as int)
                    =~= old(self).data_seq().subrange(old(self).cursor(), self.pos - 1).push(
                    old(self).data_seq()[self.pos - 1],
                ));
            }
        }
        chunk
    }

    /// Move the cursor backward by `n` bytes, modelling a backward seek on
    /// a seekable descriptor.
    pub fn seek_back(&mut self, n: usize)
        requires
            old(self).wf(),
            n <= old(self).cursor(),
        ensures
            final(self).wf(),
            final(self).data_seq() == old(self).data_seq(),
            final(self).cursor() == old(self).cursor() - n,
    {
        self.pos = self.pos - n;
    }
}

} // verus!
