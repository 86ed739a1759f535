//! The input of the sanitizer: a stream that can be read and skipped forward.

use vstd::prelude::*;

verus! {

/// The standard library's I/O error, carried through unchanged.
#[verifier::external_type_specification]
#[verifier::external_body]
pub struct ExIoError(std::io::Error);

/// A cursor which can skip forward within a stream of bytes.
pub trait Skip {
    /// Skips `amount` bytes. A skip beyond the end of the stream is allowed; what follows is up to
    /// the implementation.
    fn skip(&mut self, amount: u64) -> Result<(), std::io::Error>;

    /// The position of the cursor from the start of the stream.
    fn stream_position(&mut self) -> Result<u64, std::io::Error>;

    /// The length of the stream, in bytes.
    fn stream_len(&mut self) -> Result<u64, std::io::Error>;
}

/// A stream of bytes that can be read in order.
pub trait ReadBytes {
    /// Reads at most `max` bytes; none at the end of the stream.
    fn read_bytes(&mut self, max: usize) -> Result<Vec<u8>, std::io::Error>;
}

/// A stream over bytes held in memory.
pub struct ByteCursor {
    data: Vec<u8>,
    pos: u64,
}

impl ByteCursor {
    /// The bytes of the stream.
    pub closed spec fn bytes(&self) -> Seq<u8> {
        self.data@
    }

    /// The position of the cursor.
    pub closed spec fn position(&self) -> nat {
        self.pos as nat
    }

    /// A stream over `data`, its cursor at the start.
    pub fn new(data: Vec<u8>) -> (r: ByteCursor)
        ensures
            r.bytes() == data@,
            r.position() == 0,
    {
        ByteCursor { data, pos: 0 }
    }
}

impl ReadBytes for ByteCursor {
    fn read_bytes(&mut self, max: usize) -> Result<Vec<u8>, std::io::Error> {
        let n = self.data.len();
        let mut out: Vec<u8> = Vec::new();
        if self.pos >= n as u64 {
            return Ok(out);
        }
        let start = self.pos as usize;
        let mut i: usize = start;
        while i < n && i - start < max
            invariant
                start <= i <= n == self.data@.len(),
            decreases n - i,
        {
            out.push(self.data[i]);
            i = i + 1;
        }
        self.pos = i as u64;
        Ok(out)
    }
}

impl Skip for ByteCursor {
    fn skip(&mut self, amount: u64) -> Result<(), std::io::Error> {
        self.pos = self.pos.saturating_add(amount);
        Ok(())
    }

    fn stream_position(&mut self) -> Result<u64, std::io::Error> {
        Ok(self.pos)
    }

    fn stream_len(&mut self) -> Result<u64, std::io::Error> {
        Ok(self.data.len() as u64)
    }
}

} // verus!
