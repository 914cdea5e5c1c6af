//! Fixed-size chunking of a byte source.
//!
//! The reader hands out successive slices of a byte sequence, each of the
//! configured size except possibly the last.  The pipeline only ever sees
//! the concatenation, so the chunk size never changes the result.

use vstd::prelude::*;

verus! {

/// Pulls fixed-size chunks from an in-memory byte source.
#[derive(Debug)]
pub struct ChunkReader {
    /// The byte source.
    data: Vec<u8>,
    /// How many bytes have been handed out already.
    pos: usize,
    /// The chunk size.
    size: usize,
}

impl ChunkReader {
    /// The bytes not yet handed out.
    pub closed spec fn remaining(&self) -> Seq<u8> {
        if self.pos <= self.data@.len() {
            self.data@.skip(self.pos as int)
        } else {
            Seq::empty()
        }
    }

    /// The configured chunk size.
    pub closed spec fn chunk_size(&self) -> usize {
        self.size
    }

    /// A reader over `data` that hands out chunks of `size` bytes.
    pub fn new(data: Vec<u8>, size: usize) -> (r: Self)
        ensures
            r.remaining() == data@,
            r.chunk_size() == size,
    {
        let r = ChunkReader { data, pos: 0, size };
        proof {
            assert(r.remaining() =~= r.data@);
        }
        r
    }

    /// The next chunk: `size` bytes, or whatever is left at the end of the
    /// source.  `None` once the source is exhausted, or right away when the
    /// chunk size is zero.
    #[verifier::loop_isolation(false)]
    pub fn next_chunk(&mut self) -> (r: Option<Vec<u8>>)
        ensures
            final(self).chunk_size() == old(self).chunk_size(),
            old(self).remaining().len() == 0 || old(self).chunk_size() == 0 ==> r is None
                && final(self).remaining() == old(self).remaining(),
            old(self).remaining().len() > 0 && old(self).chunk_size() > 0 ==> ({
                let n = if old(self).chunk_size() < old(self).remaining().len() {
                    old(self).chunk_size() as int
                } else {
                    old(self).remaining().len() as int
                };
                &&& r matches Some(chunk)
                &&& chunk@ == old(self).remaining().take(n)
                &&& final(self).remaining() == old(self).remaining().skip(n)
            }),
    {
        if self.size == 0 || self.pos >= self.data.len() {
            return None;
        }
        let available = self.data.len() - self.pos;
        let n = if self.size < available {
            self.size
        } else {
            available
        };
        let mut chunk: Vec<u8> = Vec::new();
        let mut i: usize = 0;
        while i < n
            invariant
                i <= n,
                n <= self.data@.len() - self.pos,
                chunk@ == self.data@.subrange(self.pos as int, self.pos + i),
            decreases n - i,
        {
            chunk.push(self.data[self.pos + i]);
            proof {
                assert(chunk@ =~= self.data@.subrange(self.pos as int, self.pos + i + 1));
            }
            i = i + 1;
        }
        proof {
            assert(chunk@ =~= old(self).remaining().take(n as int));
        }
        self.pos = self.pos + n;
        proof {
            assert(self.remaining() =~= old(self).remaining().skip(n as int));
        }
        Some(chunk)
    }
}

} // verus!
