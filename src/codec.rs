//! Big-endian integers and four-character codes.

use vstd::prelude::*;

verus! {

/// The big-endian `u32` held by the four bytes of `s` starting at `at`.
pub open spec fn be32(s: Seq<u8>, at: int) -> u32 {
    (s[at] as u32) << 24u32 | (s[at + 1] as u32) << 16u32 | (s[at + 2] as u32) << 8u32 | (
    s[at + 3] as u32)
}

/// The big-endian `u64` held by the eight bytes of `s` starting at `at`.
pub open spec fn be64(s: Seq<u8>, at: int) -> u64 {
    (be32(s, at) as u64) << 32u64 | (be32(s, at + 4) as u64)
}

/// The four bytes of `x`, most significant first.
pub open spec fn u32_be(x: u32) -> Seq<u8> {
    seq![(x >> 24u32) as u8, (x >> 16u32) as u8, (x >> 8u32) as u8, x as u8]
}

/// The eight bytes of `x`, most significant first.
pub open spec fn u64_be(x: u64) -> Seq<u8> {
    u32_be((x >> 32u64) as u32) + u32_be(x as u32)
}

pub proof fn lemma_be32_of_u32_be(x: u32, s: Seq<u8>, at: int)
    requires
        0 <= at,
        at + 4 <= s.len(),
        s.subrange(at, at + 4) == u32_be(x),
    ensures
        be32(s, at) == x,
{
    assert(s[at] == u32_be(x)[0]);
    assert(s[at + 1] == u32_be(x)[1]);
    assert(s[at + 2] == u32_be(x)[2]);
    assert(s[at + 3] == u32_be(x)[3]);
    assert(((x >> 24u32) as u8 as u32) << 24u32 | ((x >> 16u32) as u8 as u32) << 16u32 | ((x
        >> 8u32) as u8 as u32) << 8u32 | (x as u8 as u32) == x) by (bit_vector);
}

pub proof fn lemma_be64_of_u64_be(x: u64, s: Seq<u8>, at: int)
    requires
        0 <= at,
        at + 8 <= s.len(),
        s.subrange(at, at + 8) == u64_be(x),
    ensures
        be64(s, at) == x,
{
    let a = u32_be((x >> 32u64) as u32);
    let b = u32_be(x as u32);
    assert forall|i: int| 0 <= i < 4 implies s.subrange(at, at + 4)[i] == a[i] by {
        assert(s.subrange(at, at + 8)[i] == s[at + i]);
        assert((a + b)[i] == a[i]);
    }
    assert forall|i: int| 0 <= i < 4 implies s.subrange(at + 4, at + 8)[i] == b[i] by {
        assert(s.subrange(at, at + 8)[4 + i] == s[at + 4 + i]);
        assert((a + b)[4 + i] == b[i]);
    }
    assert(s.subrange(at, at + 4) =~= a);
    assert(s.subrange(at + 4, at + 8) =~= b);
    lemma_be32_of_u32_be((x >> 32u64) as u32, s, at);
    lemma_be32_of_u32_be(x as u32, s, at + 4);
    assert(((x >> 32u64) as u32 as u64) << 32u64 | (x as u32 as u64) == x) by (bit_vector);
}

/// Reads the big-endian `u32` at `at`.
pub fn read_u32(s: &[u8], at: usize) -> (r: u32)
    requires
        at + 4 <= s@.len(),
    ensures
        r == be32(s@, at as int),
{
    (s[at] as u32) << 24u32 | (s[at + 1] as u32) << 16u32 | (s[at + 2] as u32) << 8u32 | (s[at
        + 3] as u32)
}

/// Reads the big-endian `u64` at `at`.
pub fn read_u64(s: &[u8], at: usize) -> (r: u64)
    requires
        at + 8 <= s@.len(),
    ensures
        r == be64(s@, at as int),
{
    let n = s.len();
    assert(at + 8 <= n);
    (read_u32(s, at) as u64) << 32u64 | (read_u32(s, at + 4) as u64)
}

/// Appends the four bytes of `x`, most significant first.
pub fn push_u32(out: &mut Vec<u8>, x: u32)
    ensures
        final(out)@ == old(out)@ + u32_be(x),
{
    out.push(#[verifier::truncate] ((x >> 24u32) as u8));
    out.push(#[verifier::truncate] ((x >> 16u32) as u8));
    out.push(#[verifier::truncate] ((x >> 8u32) as u8));
    out.push(#[verifier::truncate] (x as u8));
    assert(final(out)@ =~= old(out)@ + u32_be(x));
}

/// Appends the eight bytes of `x`, most significant first.
pub fn push_u64(out: &mut Vec<u8>, x: u64)
    ensures
        final(out)@ == old(out)@ + u64_be(x),
{
    push_u32(out, #[verifier::truncate] ((x >> 32u64) as u32));
    push_u32(out, #[verifier::truncate] (x as u32));
    assert(final(out)@ =~= old(out)@ + u64_be(x));
}

/// Overwrites the four bytes at `at` with those of `x`, most significant first.
pub fn write_u32(out: &mut Vec<u8>, at: usize, x: u32)
    requires
        at + 4 <= old(out)@.len(),
    ensures
        final(out)@ == old(out)@.subrange(0, at as int) + u32_be(x) + old(out)@.subrange(
            at + 4,
            old(out)@.len() as int,
        ),
{
    let n = out.len();
    assert(at + 4 <= n);
    out.set(at, #[verifier::truncate] ((x >> 24u32) as u8));
    out.set(at + 1, #[verifier::truncate] ((x >> 16u32) as u8));
    out.set(at + 2, #[verifier::truncate] ((x >> 8u32) as u8));
    out.set(at + 3, #[verifier::truncate] (x as u8));
    assert(final(out)@ =~= old(out)@.subrange(0, at as int) + u32_be(x) + old(out)@.subrange(
        at + 4,
        old(out)@.len() as int,
    ));
}

/// Overwrites the eight bytes at `at` with those of `x`, most significant first.
pub fn write_u64(out: &mut Vec<u8>, at: usize, x: u64)
    requires
        at + 8 <= old(out)@.len(),
    ensures
        final(out)@ == old(out)@.subrange(0, at as int) + u64_be(x) + old(out)@.subrange(
            at + 8,
            old(out)@.len() as int,
        ),
{
    let ghost s0 = out@;
    let n = out.len();
    assert(at + 8 <= n);
    write_u32(out, at, #[verifier::truncate] ((x >> 32u64) as u32));
    write_u32(out, at + 4, #[verifier::truncate] (x as u32));
    assert(final(out)@ =~= s0.subrange(0, at as int) + u64_be(x) + s0.subrange(
        at + 8,
        s0.len() as int,
    ));
}

/// A four-character code naming the type of a box or a brand, packed big-endian.
#[derive(Clone, Copy, Debug, PartialEq, Eq, Structural)]
pub struct FourCC {
    pub value: u32,
}

/// `ftyp`: the file-type box.
pub const FTYP: u32 = 0x66747970;
/// `moov`: the movie box.
pub const MOOV: u32 = 0x6d6f6f76;
/// `trak`: a track, inside `moov`.
pub const TRAK: u32 = 0x7472616b;
/// `mdia`: a track's media, inside `trak`.
pub const MDIA: u32 = 0x6d646961;
/// `minf`: media information, inside `mdia`.
pub const MINF: u32 = 0x6d696e66;
/// `stbl`: the sample table, inside `minf`.
pub const STBL: u32 = 0x7374626c;
/// `stco`: the table of 32-bit chunk offsets, inside `stbl`.
pub const STCO: u32 = 0x7374636f;
/// `co64`: the table of 64-bit chunk offsets, inside `stbl`.
pub const CO64: u32 = 0x636f3634;
/// `mdat`: media data.
pub const MDAT: u32 = 0x6d646174;
/// `free`: free space.
pub const FREE: u32 = 0x66726565;
/// `isom`: the brand that a stream must list as compatible.
pub const ISOM: u32 = 0x69736f6d;

impl FourCC {
    /// The code spelled by four bytes.
    pub fn from_bytes(b: [u8; 4]) -> (r: FourCC)
        ensures
            r.value == be32(b@, 0),
    {
        FourCC { value: read_u32(b.as_slice(), 0) }
    }

    /// The four bytes of the code.
    pub fn to_bytes(&self) -> (r: Vec<u8>)
        ensures
            r@ == u32_be(self.value),
    {
        let mut r: Vec<u8> = Vec::new();
        push_u32(&mut r, self.value);
        assert(r@ =~= u32_be(self.value));
        r
    }
}

} // verus!
