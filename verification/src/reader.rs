//! A chunk reader over bytes held in memory: it hands out the bytes after a
//! starting offset in blocks of bounded size, each byte once.

use vstd::prelude::*;
use vstd::slice::slice_subrange;

verus! {

/// A forward-only cursor over a byte source, which delivers at most `block`
/// bytes at a time.
pub struct ChunkReader<'a> {
    pub source: &'a [u8],
    pub position: usize,
    pub block: usize,
}

impl<'a> ChunkReader<'a> {
    /// The cursor lies within the source, and a block holds at least one byte.
    pub open spec fn wf(&self) -> bool {
        &&& self.position <= self.source@.len()
        &&& self.block > 0
    }

    /// The bytes not delivered yet.
    pub open spec fn rest(&self) -> Seq<u8> {
        self.source@.skip(self.position as int)
    }

    /// The length of the chunk that a request for `max_len` bytes gets: the
    /// smallest of the request, the block size and what is left.
    pub open spec fn chunk_len(&self, max_len: usize) -> nat {
        let cap = if max_len <= self.block {
            max_len
        } else {
            self.block
        };
        if cap <= self.rest().len() {
            cap as nat
        } else {
            self.rest().len()
        }
    }

    /// A reader over `source` that starts `offset` bytes in.
    pub fn new(source: &'a [u8], offset: usize, block: usize) -> (reader: Self)
        requires
            offset <= source@.len(),
            block > 0,
        ensures
            reader.wf(),
            reader.source == source,
            reader.position == offset,
            reader.block == block,
            reader.rest() == source@.skip(offset as int),
    {
        ChunkReader { source, position: offset, block }
    }

    /// Delivers the next chunk, of at most `max_len` bytes and at most one
    /// block. For a request of at least one byte the chunk is empty exactly
    /// when the source is exhausted. No byte is delivered twice.
    pub fn next_chunk(&mut self, max_len: usize) -> (chunk: &'a [u8])
        requires
            old(self).wf(),
        ensures
            final(self).wf(),
            final(self).source == old(self).source,
            final(self).block == old(self).block,
            chunk@ == old(self).rest().take(old(self).chunk_len(max_len) as int),
            final(self).position == old(self).position + chunk@.len(),
            final(self).rest() == old(self).rest().skip(chunk@.len() as int),
            max_len > 0 ==> (chunk@.len() == 0 <==> old(self).rest().len() == 0),
    {
        let left: usize = self.source.len() - self.position;
        let cap: usize = if max_len <= self.block {
            max_len
        } else {
            self.block
        };
        let n: usize = if cap <= left {
            cap
        } else {
            left
        };
        let chunk = slice_subrange(self.source, self.position, self.position + n);
        proof {
            assert(chunk@ =~= self.rest().take(n as int));
            assert(self.source@.skip(self.position + n) =~= self.rest().skip(n as int));
        }
        self.position = self.position + n;
        chunk
    }
}

} // verus!
