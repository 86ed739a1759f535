//! Small well-formed boxes, and the errors of a check of a demuxed stream.

use vstd::prelude::*;

verus! {

/// Why the frames demuxed from a sanitized stream did not match the payload.
#[derive(Debug)]
pub enum VerifyError<T> {
    /// A frame is longer than what remains of the expected payload.
    DataLongerThanExpected { frame_len: usize, remaining: usize },
    /// The frame at `offset` differs from the expected payload.
    DataMismatch { offset: u64, len: usize },
    /// The frames ended before the expected payload did.
    DataShorterThanExpected { remaining: usize },
    /// The demuxer refused the stream.
    Parse(T),
}

/// A file-type box of 20 bytes: major brand `isom`, version 0, compatible brand `isom`.
pub fn example_ftyp() -> (r: Vec<u8>)
    ensures
        r@ == seq![0u8, 0u8, 0u8, 20u8, 102u8, 116u8, 121u8, 112u8, 105u8, 115u8, 111u8, 109u8, 0u8, 0u8, 0u8, 0u8, 105u8, 115u8, 111u8, 109u8],
{
    let r: Vec<u8> = vec![0, 0, 0, 20, 102, 116, 121, 112, 105, 115, 111, 109, 0, 0, 0, 0, 105, 115, 111, 109];
    assert(r@ =~= seq![0u8, 0u8, 0u8, 20u8, 102u8, 116u8, 121u8, 112u8, 105u8, 115u8, 111u8, 109u8, 0u8, 0u8, 0u8, 0u8, 105u8, 115u8, 111u8, 109u8]);
    r
}

/// An empty media-data box.
pub fn example_mdat() -> (r: Vec<u8>)
    ensures
        r@ == seq![0u8, 0u8, 0u8, 8u8, 109u8, 100u8, 97u8, 116u8],
{
    let r: Vec<u8> = vec![0, 0, 0, 8, 109, 100, 97, 116];
    assert(r@ =~= seq![0u8, 0u8, 0u8, 8u8, 109u8, 100u8, 97u8, 116u8]);
    r
}

/// A movie box of 64 bytes: one track whose `stco` has no entries, then an empty `mvhd`.
pub fn example_moov() -> (r: Vec<u8>)
    ensures
        r@ == seq![0u8, 0u8, 0u8, 64u8, 109u8, 111u8, 111u8, 118u8, 0u8, 0u8, 0u8, 48u8, 116u8, 114u8, 97u8, 107u8, 0u8, 0u8, 0u8, 40u8, 109u8, 100u8, 105u8, 97u8, 0u8, 0u8, 0u8, 32u8, 109u8, 105u8, 110u8, 102u8, 0u8, 0u8, 0u8, 24u8, 115u8, 116u8, 98u8, 108u8, 0u8, 0u8, 0u8, 16u8, 115u8, 116u8, 99u8, 111u8, 0u8, 0u8, 0u8, 0u8, 0u8, 0u8, 0u8, 0u8, 0u8, 0u8, 0u8, 8u8, 109u8, 118u8, 104u8, 100u8],
{
    let r: Vec<u8> = vec![0, 0, 0, 64, 109, 111, 111, 118, 0, 0, 0, 48, 116, 114, 97, 107, 0, 0, 0, 40, 109, 100, 105, 97, 0, 0, 0, 32, 109, 105, 110, 102, 0, 0, 0, 24, 115, 116, 98, 108, 0, 0, 0, 16, 115, 116, 99, 111, 0, 0, 0, 0, 0, 0, 0, 0, 0, 0, 0, 8, 109, 118, 104, 100];
    assert(r@ =~= seq![0u8, 0u8, 0u8, 64u8, 109u8, 111u8, 111u8, 118u8, 0u8, 0u8, 0u8, 48u8, 116u8, 114u8, 97u8, 107u8, 0u8, 0u8, 0u8, 40u8, 109u8, 100u8, 105u8, 97u8, 0u8, 0u8, 0u8, 32u8, 109u8, 105u8, 110u8, 102u8, 0u8, 0u8, 0u8, 24u8, 115u8, 116u8, 98u8, 108u8, 0u8, 0u8, 0u8, 16u8, 115u8, 116u8, 99u8, 111u8, 0u8, 0u8, 0u8, 0u8, 0u8, 0u8, 0u8, 0u8, 0u8, 0u8, 0u8, 8u8, 109u8, 118u8, 104u8, 100u8]);
    r
}

} // verus!
