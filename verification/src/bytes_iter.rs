//! A chunked byte source over an in-memory buffer: yields successive
//! buffers of at most a fixed size, the way a buffered reader delivers its
//! chunks. Callers that stream from a file read it into memory (or feed the
//! transforms chunk by chunk themselves) and let this type cut the bytes
//! into buffers.

use vstd::prelude::*;

verus! {

/// Cuts a byte sequence into successive chunks of at most `size` bytes.
pub struct BytesIter {
    data: Vec<u8>,
    pos: usize,
    size: usize,
}

impl BytesIter {
    /// The bytes this source yields, in order.
    pub closed spec fn data_seq(&self) -> Seq<u8> {
        self.data@
    }

    /// How many bytes have been yielded so far.
    pub closed spec fn cursor(&self) -> int {
        self.pos as int
    }

    /// The largest chunk this source yields.
    pub closed spec fn chunk_size(&self) -> int {
        self.size as int
    }

    /// The cursor stays inside the data and chunks are non-empty.
    pub open spec fn wf(&self) -> bool {
        0 <= self.cursor() <= self.data_seq().len() && self.chunk_size() >= 1
    }

    /// A source positioned at the start of `data`.
    pub fn new(data: Vec<u8>, size: usize) -> (it: BytesIter)
        requires
            size >= 1,
        ensures
            it.wf(),
            it.data_seq() == data@,
            it.cursor() == 0,
            it.chunk_size() == size as int,
    {
        BytesIter { data, pos: 0, size }
    }

    /// The next chunk: the following `size` bytes, or whatever remains if
    /// that is shorter, or `None` at end of stream. Yielded chunks are
    /// never empty.
    pub fn next_chunk(&mut self) -> (r: Option<Vec<u8>>)
        requires
            old(self).wf(),
        ensures
            final(self).wf(),
            final(self).data_seq() == old(self).data_seq(),
            final(self).chunk_size() == old(self).chunk_size(),
            match r {
                None => {
                    &&& old(self).cursor() == old(self).data_seq().len()
                    &&& final(self).cursor() == old(self).cursor()
                },
                Some(chunk) => {
                    let end = if old(self).cursor() + old(self).chunk_size() <= old(
                        self,
                    ).data_seq().len() {
                        old(self).cursor() + old(self).chunk_size()
                    } else {
                        old(self).data_seq().len() as int
                    };
                    &&& old(self).cursor() < old(self).data_seq().len()
                    &&& chunk@ == old(self).data_seq().subrange(old(self).cursor(), end)
                    &&& chunk@.len() >= 1
                    &&& final(self).cursor() == end
                },
            },
    {
        if self.pos == self.data.len() {
            return None;
        }
        let start = self.pos;
        let end = if self.data.len() - start <= self.size {
            self.data.len()
        } else {
            start + self.size
        };
        let mut chunk: Vec<u8> = Vec::new();
        let mut k = start;
        proof {
            assert(self.data@.subrange(start as int, start as int) =~= Seq::<u8>::empty());
        }
        while k < end
            invariant
                start <= k <= end <= self.data.len(),
                chunk@ == self.data@.subrange(start as int, k as int),
            decreases end - k,
        {
            chunk.push(self.data[k]);
            k = k + 1;
            proof {
                assert(self.data@.subrange(start as int, k as int) =~= self.data@.subrange(
                    start as int,
                    k as int - 1,
                ) + seq![self.data@[k as int - 1]]);
            }
        }
        self.pos = end;
        Some(chunk)
    }
}

} // verus!
