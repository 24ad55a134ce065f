//! Byte sources that a streaming backend reads from its start on every walk.
use vstd::prelude::*;

verus! {

/// Bytes that can be read from their start again and again: a file, or bytes
/// held in memory. Nothing is assumed of what a read returns.
pub trait ByteSource {
    type Stream;

    /// Opens a new stream at the start of the bytes.
    fn open(&self) -> Self::Stream;

    /// The next bytes of `stream`; an empty result marks its end.
    fn read_chunk(&self, stream: &mut Self::Stream) -> Vec<u8>;
}

/// Bytes read a chunk at a time.
pub const CHUNK_BYTES: usize = 65536;

/// Bytes held in memory.
pub struct MemorySource {
    pub bytes: Vec<u8>,
}

impl MemorySource {
    pub fn new(bytes: Vec<u8>) -> (r: MemorySource)
        ensures
            r.bytes@ == bytes@,
    {
        MemorySource { bytes }
    }
}

impl ByteSource for MemorySource {
    /// The position of the next byte to read.
    type Stream = usize;

    fn open(&self) -> usize {
        0
    }

    fn read_chunk(&self, stream: &mut usize) -> Vec<u8> {
        let n = self.bytes.len();
        let start = *stream;
        let mut out: Vec<u8> = Vec::new();
        if start >= n {
            return out;
        }
        let end = if n - start > CHUNK_BYTES {
            start + CHUNK_BYTES
        } else {
            n
        };
        let mut i = start;
        while i < end
            invariant
                start <= i <= end <= n,
                n == self.bytes@.len(),
            decreases end - i,
        {
            out.push(self.bytes[i]);
            i = i + 1;
        }
        *stream = end;
        out
    }
}

} // verus!
