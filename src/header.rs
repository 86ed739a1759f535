//! Box headers: a size and a type, in 8 or 16 bytes.

use vstd::prelude::*;

use crate::codec::{be32, be64, push_u32, push_u64, read_u32, read_u64, u32_be, u64_be, FourCC};
use crate::codec::{lemma_be32_of_u32_be, lemma_be64_of_u64_be};
use crate::error::ParseError;

verus! {

/// The largest encoding of a header.
pub const MAX_HEADER_SIZE: u64 = 16;

/// The size field of a box header.
#[derive(Clone, Copy, Debug, PartialEq, Eq, Structural)]
pub enum BoxSize {
    /// A 32-bit total size, header included.
    Size(u32),
    /// A 64-bit total size, header included, after the 32-bit marker 1.
    Ext(u64),
    /// The box runs to the end of what holds it (the marker 0).
    UntilEof,
}

/// A box header.
#[derive(Clone, Copy, Debug, PartialEq, Eq, Structural)]
pub struct BoxHeader {
    pub box_size: BoxSize,
    pub box_type: FourCC,
}

/// What the bytes `s`, standing at the start of a box, give as its header.
pub open spec fn spec_parse_header(s: Seq<u8>) -> Result<BoxHeader, ParseError> {
    if s.len() < 8 {
        Err(ParseError::TruncatedBox)
    } else {
        let size = be32(s, 0);
        let box_type = FourCC { value: be32(s, 4) };
        if size == 1 {
            if s.len() < 16 {
                Err(ParseError::TruncatedBox)
            } else if be64(s, 8) < 16 {
                Err(ParseError::InvalidInput)
            } else {
                Ok(BoxHeader { box_size: BoxSize::Ext(be64(s, 8)), box_type })
            }
        } else if size == 0 {
            Ok(BoxHeader { box_size: BoxSize::UntilEof, box_type })
        } else if size < 8 {
            Err(ParseError::InvalidInput)
        } else {
            Ok(BoxHeader { box_size: BoxSize::Size(size), box_type })
        }
    }
}

/// The header of a box of type `ty` whose body is `n` bytes long, in its smallest encoding.
pub open spec fn spec_header_for(ty: FourCC, n: nat) -> Result<BoxHeader, ParseError> {
    if n + 8 <= u32::MAX {
        Ok(BoxHeader { box_size: BoxSize::Size((n + 8) as u32), box_type: ty })
    } else if n + 16 <= u64::MAX {
        Ok(BoxHeader { box_size: BoxSize::Ext((n + 16) as u64), box_type: ty })
    } else {
        Err(ParseError::InvalidInput)
    }
}

impl BoxHeader {
    /// The length of the header's encoding.
    pub open spec fn spec_encoded_len(self) -> nat {
        match self.box_size {
            BoxSize::Ext(_) => 16,
            _ => 8,
        }
    }

    /// The bytes of the header.
    pub open spec fn spec_encode(self) -> Seq<u8> {
        match self.box_size {
            BoxSize::Size(v) => u32_be(v) + u32_be(self.box_type.value),
            BoxSize::Ext(v) => u32_be(1) + u32_be(self.box_type.value) + u64_be(v),
            BoxSize::UntilEof => u32_be(0) + u32_be(self.box_type.value),
        }
    }

    /// The length of the body, where the size gives it: `None` for a box that runs to the end.
    pub open spec fn spec_data_size(self) -> Result<Option<nat>, ParseError> {
        match self.box_size {
            BoxSize::Size(v) => if v < 8 {
                Err(ParseError::InvalidInput)
            } else {
                Ok(Some((v - 8) as nat))
            },
            BoxSize::Ext(v) => if v < 16 {
                Err(ParseError::InvalidInput)
            } else {
                Ok(Some((v - 16) as nat))
            },
            BoxSize::UntilEof => Ok(None),
        }
    }

    /// The size of the whole box, header included, where the header gives it.
    pub open spec fn spec_total(self) -> int {
        match self.box_size {
            BoxSize::Size(v) => v as int,
            BoxSize::Ext(v) => v as int,
            BoxSize::UntilEof => 0,
        }
    }

    /// The length of the header's encoding: 16 with a 64-bit size, else 8.
    pub fn encoded_len(&self) -> (r: u64)
        ensures
            r == self.spec_encoded_len(),
    {
        match self.box_size {
            BoxSize::Ext(_) => 16,
            _ => 8,
        }
    }

    /// The box's type.
    pub fn box_type(&self) -> (r: FourCC)
        ensures
            r == self.box_type,
    {
        self.box_type
    }

    /// Decodes the header that starts at `at` in `buf`.
    pub fn parse(buf: &[u8], at: usize) -> (r: Result<BoxHeader, ParseError>)
        requires
            at <= buf@.len(),
        ensures
            r == spec_parse_header(buf@.subrange(at as int, buf@.len() as int)),
    {
        Self::parse_within(buf, at, buf.len())
    }

    /// Decodes the header that starts at `at` in `buf`, within a container that ends at `end`.
    pub fn parse_within(buf: &[u8], at: usize, end: usize) -> (r: Result<BoxHeader, ParseError>)
        requires
            at <= end <= buf@.len(),
        ensures
            r == spec_parse_header(buf@.subrange(at as int, end as int)),
    {
        let ghost s = buf@.subrange(at as int, end as int);
        let n = end;
        if n - at < 8 {
            return Err(ParseError::TruncatedBox);
        }
        let size = read_u32(buf, at);
        let box_type = FourCC { value: read_u32(buf, at + 4) };
        assert(be32(s, 0) == size);
        assert(be32(s, 4) == box_type.value);
        if size == 1 {
            if n - at < 16 {
                Err(ParseError::TruncatedBox)
            } else {
                let ext = read_u64(buf, at + 8);
                assert(be32(s, 8) == be32(buf@, at + 8));
                assert(be32(s, 12) == be32(buf@, at + 12));
                assert(be64(s, 8) == ext);
                if ext < 16 {
                    Err(ParseError::InvalidInput)
                } else {
                    Ok(BoxHeader { box_size: BoxSize::Ext(ext), box_type })
                }
            }
        } else if size == 0 {
            Ok(BoxHeader { box_size: BoxSize::UntilEof, box_type })
        } else if size < 8 {
            Err(ParseError::InvalidInput)
        } else {
            Ok(BoxHeader { box_size: BoxSize::Size(size), box_type })
        }
    }

    /// The header of a box of type `ty` with a body of `n` bytes, in its smallest encoding.
    pub fn with_data_size(ty: FourCC, n: u64) -> (r: Result<BoxHeader, ParseError>)
        ensures
            r == spec_header_for(ty, n as nat),
    {
        if n <= u32::MAX as u64 - 8 {
            Ok(BoxHeader { box_size: BoxSize::Size((n + 8) as u32), box_type: ty })
        } else if n <= u64::MAX - 16 {
            Ok(BoxHeader { box_size: BoxSize::Ext(n + 16), box_type: ty })
        } else {
            Err(ParseError::InvalidInput)
        }
    }

    /// The header of a box of type `ty` with a body of `n` bytes, with a 32-bit size.
    pub fn with_u32_data_size(ty: FourCC, n: u32) -> (r: BoxHeader)
        requires
            n <= u32::MAX - 8,
        ensures
            r == (BoxHeader { box_size: BoxSize::Size((n + 8) as u32), box_type: ty }),
    {
        BoxHeader { box_size: BoxSize::Size(n + 8), box_type: ty }
    }

    /// The header of a box of type `ty` that runs to the end.
    pub fn until_eof(ty: FourCC) -> (r: BoxHeader)
        ensures
            r == (BoxHeader { box_size: BoxSize::UntilEof, box_type: ty }),
    {
        BoxHeader { box_size: BoxSize::UntilEof, box_type: ty }
    }

    /// The length of the body, where the size gives it.
    pub fn box_data_size(&self) -> (r: Result<Option<u64>, ParseError>)
        ensures
            match (r, self.spec_data_size()) {
                (Ok(Some(a)), Ok(Some(b))) => a == b,
                (Ok(None), Ok(None)) => true,
                (Err(e), Err(f)) => e == f,
                _ => false,
            },
    {
        match self.box_size {
            BoxSize::Size(v) => if v < 8 {
                Err(ParseError::InvalidInput)
            } else {
                Ok(Some((v - 8) as u64))
            },
            BoxSize::Ext(v) => if v < 16 {
                Err(ParseError::InvalidInput)
            } else {
                Ok(Some(v - 16))
            },
            BoxSize::UntilEof => Ok(None),
        }
    }

    /// Appends the header's bytes to `out`.
    pub fn put_buf(&self, out: &mut Vec<u8>)
        ensures
            final(out)@ == old(out)@ + self.spec_encode(),
    {
        match self.box_size {
            BoxSize::Size(v) => {
                push_u32(out, v);
                push_u32(out, self.box_type.value);
            },
            BoxSize::Ext(v) => {
                push_u32(out, 1);
                push_u32(out, self.box_type.value);
                push_u64(out, v);
            },
            BoxSize::UntilEof => {
                push_u32(out, 0);
                push_u32(out, self.box_type.value);
            },
        }
        assert(final(out)@ =~= old(out)@ + self.spec_encode());
    }
}

/// A header made for a body length decodes, from its encoding, as itself.
pub proof fn lemma_parse_header_for(ty: FourCC, n: nat, rest: Seq<u8>)
    requires
        spec_header_for(ty, n) is Ok,
    ensures
        ({
            let h = spec_header_for(ty, n)->Ok_0;
            &&& spec_parse_header(h.spec_encode() + rest) == Ok::<BoxHeader, ParseError>(h)
            &&& h.spec_encode().len() == h.spec_encoded_len()
            &&& h.spec_total() == h.spec_encoded_len() + n
            &&& !(h.box_size is UntilEof)
        }),
{
    let h = spec_header_for(ty, n)->Ok_0;
    let s = h.spec_encode() + rest;
    match h.box_size {
        BoxSize::Size(v) => {
            assert(s.subrange(0, 4) =~= u32_be(v));
            assert(s.subrange(4, 8) =~= u32_be(ty.value));
            lemma_be32_of_u32_be(v, s, 0);
            lemma_be32_of_u32_be(ty.value, s, 4);
        },
        BoxSize::Ext(v) => {
            assert(s.subrange(0, 4) =~= u32_be(1));
            assert(s.subrange(4, 8) =~= u32_be(ty.value));
            assert(s.subrange(8, 16) =~= u64_be(v));
            lemma_be32_of_u32_be(1, s, 0);
            lemma_be32_of_u32_be(ty.value, s, 4);
            lemma_be64_of_u64_be(v, s, 8);
        },
        BoxSize::UntilEof => {},
    }
}

} // verus!
