//! Planning the layout of the sanitized file and writing its metadata.

use vstd::prelude::*;

use crate::codec::{u32_be, FourCC, FREE, FTYP, MOOV};
use crate::error::ParseError;
use crate::ftyp::FtypBox;
use crate::header::{spec_header_for, BoxHeader};
use crate::moov::{lemma_moov_tables_within, lemma_shift_entries, lemma_shift_keeps_tables, lemma_shift_len, spec_parse_moov, spec_shift, MoovBox};
use crate::moov::TableLoc;

verus! {

/// The largest body of a box that is read into memory.
pub const MAX_READ_BOX_SIZE: u64 = 209715200;

/// The length of the header of a padding box.
pub const PAD_HEADER_SIZE: u64 = 8;

/// The largest padding box: its size must fit in 32 bits.
pub const MAX_PAD_SIZE: u64 = 4294967287;

/// A byte range of the input.
#[derive(Clone, Copy, Debug, PartialEq, Eq, Structural)]
pub struct InputSpan {
    pub offset: u64,
    pub len: u64,
}

impl InputSpan {
    /// The range ends within the 64-bit address space.
    pub open spec fn wf(self) -> bool {
        self.offset + self.len <= u64::MAX
    }

    /// Position just past the range.
    pub open spec fn end(self) -> int {
        self.offset + self.len
    }
}

/// The metadata to put before the payload, and where the payload lies in the input.
#[derive(Clone, Debug, PartialEq, Eq)]
pub struct SanitizedMetadata {
    pub metadata: Vec<u8>,
    pub data: InputSpan,
}

/// The bytes of a box of type `ty` with body `b`, its header in its smallest encoding.
pub open spec fn spec_box_bytes(ty: u32, b: Seq<u8>) -> Result<Seq<u8>, ParseError> {
    match spec_header_for(FourCC { value: ty }, b.len()) {
        Ok(h) => Ok(h.spec_encode() + b),
        Err(e) => Err(e),
    }
}

/// A `free` box of `n` bytes in all, its body zero.
pub open spec fn spec_free_box(n: int) -> Seq<u8> {
    u32_be(n as u32) + u32_be(FREE) + Seq::new((n - 8) as nat, |i: int| 0u8)
}

/// Whether a gap of `g` bytes between the metadata and the payload can be filled by a `free` box.
pub open spec fn spec_pad_fits(g: int) -> bool {
    PAD_HEADER_SIZE <= g <= MAX_PAD_SIZE
}

/// The metadata for a file-type body `f`, a movie body `m` with chunk-offset tables `ts`, and a
/// payload at `data`. The payload stays in place where it follows the metadata directly or a
/// padding box fills the gap; else the chunk offsets move by the payload's displacement.
pub open spec fn spec_sanitized(f: Seq<u8>, m: Seq<u8>, ts: Seq<TableLoc>, data: InputSpan) -> Result<
    Seq<u8>,
    ParseError,
> {
    match (spec_box_bytes(FTYP, f), spec_box_bytes(MOOV, m)) {
        (Err(e), _) => Err(e),
        (_, Err(e)) => Err(e),
        (Ok(fb), Ok(mb)) => {
            let mlen = fb.len() + mb.len();
            if mlen > u64::MAX {
                Err(ParseError::InvalidInput)
            } else if data.offset == mlen {
                if mlen + data.len > u64::MAX {
                    Err(ParseError::InvalidInput)
                } else {
                    Ok(fb + mb)
                }
            } else if data.offset > mlen && spec_pad_fits(data.offset - mlen) {
                Ok(fb + mb + spec_free_box(data.offset - mlen))
            } else {
                let d = mlen - data.offset;
                if d < i32::MIN || d > i32::MAX {
                    Err(ParseError::UnsupportedBoxLayout)
                } else {
                    match spec_shift(m, ts, 0, d) {
                        Err(e) => Err(e),
                        Ok(m2) => if mlen + data.len > u64::MAX {
                            Err(ParseError::InvalidInput)
                        } else {
                            Ok(fb + spec_box_bytes(MOOV, m2)->Ok_0)
                        },
                    }
                }
            }
        },
    }
}

/// The movie body that the sanitized metadata holds: the input's, or the input's with its chunk
/// offsets moved where the payload is displaced.
pub open spec fn spec_output_moov(f: Seq<u8>, m: Seq<u8>, ts: Seq<TableLoc>, data: InputSpan) -> Seq<
    u8,
> {
    let mlen = spec_box_bytes(FTYP, f)->Ok_0.len() + spec_box_bytes(MOOV, m)->Ok_0.len();
    if data.offset == mlen || (data.offset > mlen && spec_pad_fits(data.offset - mlen)) {
        m
    } else {
        spec_shift(m, ts, 0, mlen - data.offset)->Ok_0
    }
}

/// The output's movie body holds the same chunk-offset tables, at the same places, as the input's.
pub proof fn lemma_output_moov_tables(f: Seq<u8>, m: Seq<u8>, data: InputSpan)
    requires
        spec_parse_moov(m) is Ok,
        spec_sanitized(f, m, spec_parse_moov(m)->Ok_0, data) is Ok,
    ensures
        spec_parse_moov(spec_output_moov(f, m, spec_parse_moov(m)->Ok_0, data)) == spec_parse_moov(m),
        spec_output_moov(f, m, spec_parse_moov(m)->Ok_0, data).len() == m.len(),
{
    let ts = spec_parse_moov(m)->Ok_0;
    let fb = spec_box_bytes(FTYP, f)->Ok_0;
    let mb = spec_box_bytes(MOOV, m)->Ok_0;
    let mlen = fb.len() + mb.len();
    if !(data.offset == mlen || (data.offset > mlen && spec_pad_fits(data.offset - mlen))) {
        lemma_shift_keeps_tables(m, mlen - data.offset);
        lemma_moov_tables_within(m, 0, m.len() as int);
        lemma_shift_len(m, ts, 0, mlen - data.offset);
    }
}

/// Sanitizing is idempotent: the output's movie body is a valid movie body, and laying out again
/// the file-type body and that movie body, with the payload where it stands in the output (right
/// after the metadata), gives the same metadata.
pub proof fn lemma_sanitize_again(f: Seq<u8>, m: Seq<u8>, data: InputSpan)
    requires
        data.wf(),
        spec_parse_moov(m) is Ok,
        spec_sanitized(f, m, spec_parse_moov(m)->Ok_0, data) is Ok,
    ensures
        ({
            let ts = spec_parse_moov(m)->Ok_0;
            let meta = spec_sanitized(f, m, ts, data)->Ok_0;
            let m_out = spec_output_moov(f, m, ts, data);
            &&& meta.len() + data.len <= u64::MAX
            &&& spec_parse_moov(m_out) is Ok
            &&& spec_sanitized(
                f,
                m_out,
                spec_parse_moov(m_out)->Ok_0,
                InputSpan { offset: meta.len() as u64, len: data.len },
            ) == spec_sanitized(f, m, ts, data)
        }),
{
    let ts = spec_parse_moov(m)->Ok_0;
    let fb = spec_box_bytes(FTYP, f)->Ok_0;
    let mb = spec_box_bytes(MOOV, m)->Ok_0;
    let mlen = fb.len() + mb.len();
    lemma_output_moov_tables(f, m, data);
    if !(data.offset == mlen || (data.offset > mlen && spec_pad_fits(data.offset - mlen))) {
        let d = mlen - data.offset;
        lemma_moov_tables_within(m, 0, m.len() as int);
        lemma_shift_len(m, ts, 0, d);
    }
}

/// Chunk offsets follow the payload: where every chunk offset of the input points into the
/// payload, every chunk offset of every table of the output's movie body points into the payload
/// where it stands in the output file (right after the metadata).
pub proof fn lemma_chunk_offsets_follow_payload(f: Seq<u8>, m: Seq<u8>, data: InputSpan)
    requires
        data.wf(),
        spec_parse_moov(m) is Ok,
        spec_sanitized(f, m, spec_parse_moov(m)->Ok_0, data) is Ok,
        forall|k: int, j: int|
            0 <= k < spec_parse_moov(m)->Ok_0.len() && 0 <= j < spec_parse_moov(m)->Ok_0[k].count
                ==> data.offset <= #[trigger] spec_parse_moov(m)->Ok_0[k].entry(m, j) < data.end(),
    ensures
        ({
            let ts = spec_parse_moov(m)->Ok_0;
            let meta = spec_sanitized(f, m, ts, data)->Ok_0;
            let m_out = spec_output_moov(f, m, ts, data);
            let ts_out = spec_parse_moov(m_out)->Ok_0;
            &&& spec_parse_moov(m_out) is Ok
            &&& forall|k: int, j: int|
                0 <= k < ts_out.len() && 0 <= j < ts_out[k].count ==> meta.len()
                    <= #[trigger] ts_out[k].entry(m_out, j) < meta.len() + data.len
        }),
{
    let ts = spec_parse_moov(m)->Ok_0;
    let fb = spec_box_bytes(FTYP, f)->Ok_0;
    let mb = spec_box_bytes(MOOV, m)->Ok_0;
    let mlen = fb.len() + mb.len();
    lemma_output_moov_tables(f, m, data);
    if !(data.offset == mlen || (data.offset > mlen && spec_pad_fits(data.offset - mlen))) {
        let d = mlen - data.offset;
        lemma_moov_tables_within(m, 0, m.len() as int);
        lemma_shift_len(m, ts, 0, d);
        lemma_shift_entries(m, ts, 0, d);
    }
}

/// Appends the box of type `ty` with body `body` to `out`, under `header`, its smallest header.
fn put_box(out: &mut Vec<u8>, ty: u32, header: &BoxHeader, body: Vec<u8>)
    requires
        spec_header_for(FourCC { value: ty }, body@.len()) == Ok::<BoxHeader, ParseError>(*header),
    ensures
        spec_box_bytes(ty, body@) is Ok,
        final(out)@ == old(out)@ + spec_box_bytes(ty, body@)->Ok_0,
{
    let ghost b0 = body@;
    let mut body = body;
    header.put_buf(out);
    out.append(&mut body);
    assert(final(out)@ =~= old(out)@ + (header.spec_encode() + b0));
}

/// Appends a `free` box of `pad_size` bytes in all, its body zero.
fn put_padding(metadata: &mut Vec<u8>, pad_size: u64)
    requires
        PAD_HEADER_SIZE <= pad_size <= MAX_PAD_SIZE,
    ensures
        final(metadata)@ == old(metadata)@ + spec_free_box(pad_size as int),
{
    let ghost head = metadata@;
    let pad_header = BoxHeader::with_u32_data_size(
        FourCC { value: FREE },
        (pad_size - PAD_HEADER_SIZE) as u32,
    );
    pad_header.put_buf(metadata);
    let mut i: u64 = PAD_HEADER_SIZE;
    while i < pad_size
        invariant
            head == old(metadata)@,
            PAD_HEADER_SIZE <= i <= pad_size,
            metadata@ == head + u32_be(pad_size as u32) + u32_be(FREE) + Seq::new(
                (i - 8) as nat,
                |j: int| 0u8,
            ),
        decreases pad_size - i,
    {
        metadata.push(0u8);
        assert(Seq::new((i + 1 - 8) as nat, |j: int| 0u8) =~= Seq::new(
            (i - 8) as nat,
            |j: int| 0u8,
        ).push(0u8));
        assert(metadata@ =~= head + u32_be(pad_size as u32) + u32_be(FREE) + Seq::new(
            (i + 1 - 8) as nat,
            |j: int| 0u8,
        ));
        i = i + 1;
    }
    assert(metadata@ =~= head + spec_free_box(pad_size as int));
}

/// Lays out the metadata for `ftyp`, `moov` and the payload at `data`: pads the gap before the
/// payload where a `free` box fits it, else moves the chunk offsets by the payload's displacement.
#[verifier::rlimit(30)]
pub fn sanitize_boxes(ftyp: FtypBox, moov: MoovBox, data: InputSpan) -> (r: Result<
    SanitizedMetadata,
    ParseError,
>)
    requires
        moov.wf(),
        data.wf(),
    ensures
        match r {
            Ok(s) => s.data == data && spec_sanitized(
                ftyp.body(),
                moov.body(),
                moov.tables(),
                data,
            ) == Ok::<Seq<u8>, ParseError>(s.metadata@),
            Err(e) => spec_sanitized(ftyp.body(), moov.body(), moov.tables(), data) == Err::<
                Seq<u8>,
                ParseError,
            >(e),
        },
{
    let ghost f = ftyp.body();
    let ghost m = moov.body();
    let ghost ts = moov.tables();
    let flen = ftyp.data().len() as u64;
    let mdlen = moov.data().len() as u64;
    let fh = match BoxHeader::with_data_size(FourCC { value: FTYP }, flen) {
        Ok(h) => h,
        Err(e) => return Err(e),
    };
    let mh = match BoxHeader::with_data_size(FourCC { value: MOOV }, mdlen) {
        Ok(h) => h,
        Err(e) => return Err(e),
    };
    let flen_all = fh.encoded_len() + flen;
    let mlen_all = mh.encoded_len() + mdlen;
    if flen_all > u64::MAX - mlen_all {
        return Err(ParseError::InvalidInput);
    }
    let metadata_len = flen_all + mlen_all;
    let mut metadata: Vec<u8> = Vec::new();
    if data.offset == metadata_len {
        if metadata_len > u64::MAX - data.len {
            return Err(ParseError::InvalidInput);
        }
        put_box(&mut metadata, FTYP, &fh, ftyp.into_data());
        put_box(&mut metadata, MOOV, &mh, moov.into_data());
        Ok(SanitizedMetadata { metadata, data })
    } else if data.offset > metadata_len && PAD_HEADER_SIZE <= data.offset - metadata_len
        && data.offset - metadata_len <= MAX_PAD_SIZE {
        let pad_size = data.offset - metadata_len;
        put_box(&mut metadata, FTYP, &fh, ftyp.into_data());
        put_box(&mut metadata, MOOV, &mh, moov.into_data());
        put_padding(&mut metadata, pad_size);
        Ok(SanitizedMetadata { metadata, data })
    } else {
        let displacement: i32 = if data.offset > metadata_len {
            let back = data.offset - metadata_len;
            if back > 2147483648 {
                return Err(ParseError::UnsupportedBoxLayout);
            }
            let d = (0i64 - back as i64) as i32;
            assert(d == metadata_len - data.offset);
            d
        } else {
            let fwd = metadata_len - data.offset;
            if fwd > 2147483647 {
                return Err(ParseError::UnsupportedBoxLayout);
            }
            let d = fwd as i32;
            assert(d == metadata_len - data.offset);
            d
        };
        let shifted = match moov.into_shifted(displacement) {
            Ok(v) => v,
            Err(e) => return Err(e),
        };
        if metadata_len > u64::MAX - data.len {
            return Err(ParseError::InvalidInput);
        }
        put_box(&mut metadata, FTYP, &fh, ftyp.into_data());
        put_box(&mut metadata, MOOV, &mh, shifted);
        Ok(SanitizedMetadata { metadata, data })
    }
}

} // verus!
