//! The I/O backend: positional read, append, sync and size over one
//! segment's bytes.
//!
//! The backend holds the segment's bytes in memory; persisting them to a
//! backing file is the embedding program's concern.  Reads past the end
//! come back zero-padded, the way a positional read near the end of a
//! mapped file does.

use vstd::prelude::*;

use crate::meta::push_all;
use crate::varint::byte_at;

verus! {

pub struct MMap {
    buf: Vec<u8>,
}

impl View for MMap {
    type V = Seq<u8>;

    closed spec fn view(&self) -> Seq<u8> {
        self.buf@
    }
}

impl MMap {
    /// A fresh, empty backend.
    pub fn new() -> (r: MMap)
        ensures
            r@ == Seq::<u8>::empty(),
    {
        MMap { buf: Vec::new() }
    }

    /// A backend over the given bytes.
    pub fn from_bytes(buf: Vec<u8>) -> (r: MMap)
        ensures
            r@ == buf@,
    {
        MMap { buf }
    }

    /// Append `data`; returns the number of bytes written.
    pub fn append(&mut self, data: &Vec<u8>) -> (r: usize)
        ensures
            final(self)@ == old(self)@ + data@,
            r == data@.len(),
    {
        let n = data.len();
        push_all(&mut self.buf, data);
        n
    }

    /// Read `n` bytes at `off`; positions past the end read as zero.
    pub fn read(&self, off: usize, n: usize) -> (r: Vec<u8>)
        ensures
            r@.len() == n,
            forall|i: nat| i < n ==> r@[i as int] == byte_at(self@, (off + i) as nat),
    {
        let len = self.buf.len();
        let mut out: Vec<u8> = Vec::new();
        let mut i: usize = 0;
        while i < n
            invariant
                i <= n,
                len == self@.len(),
                out@.len() == i,
                forall|j: nat| j < i ==> out@[j as int] == byte_at(self@, (off + j) as nat),
            decreases n - i,
        {
            let b: u8 = if off < len && i < len - off {
                self.buf[off + i]
            } else {
                0
            };
            assert(b == byte_at(self@, (off + i) as nat));
            out.push(b);
            i = i + 1;
        }
        out
    }

    /// Flush to stable storage: the in-memory backend has nothing to flush.
    pub fn sync(&self) {
    }

    /// The number of bytes held, reflecting the last append.
    pub fn size(&self) -> (r: usize)
        ensures
            r == self@.len(),
    {
        self.buf.len()
    }

    /// The whole content, for decoding in place.
    pub fn borrow_all(&self) -> (r: &Vec<u8>)
        ensures
            r@ == self@,
    {
        &self.buf
    }
}

} // verus!
