//! The top-level scanner: what to do with each box of the stream, and what the boxes seen so far
//! amount to.

use vstd::prelude::*;

use crate::codec::{be32, read_u32, FourCC, FREE, FTYP, ISOM, MDAT, MOOV};
use crate::error::ParseError;
use crate::ftyp::{spec_has_brand, spec_parse_ftyp, FtypBox};
use crate::header::{lemma_parse_header_for, spec_header_for, spec_parse_header, BoxHeader, BoxSize};
use crate::layout::{sanitize_boxes, spec_box_bytes, spec_free_box, spec_pad_fits, spec_sanitized};
use crate::layout::{InputSpan, SanitizedMetadata, MAX_READ_BOX_SIZE};
use crate::moov::{lemma_moov_tables_within, lemma_shift_len, spec_parse_moov, spec_shift, MoovBox};

verus! {

/// What to do with the body of a top-level box.
#[derive(Clone, Copy, Debug, PartialEq, Eq, Structural)]
pub enum BoxAction {
    /// Read the body into memory.
    Read,
    /// Skip over the body.
    Skip,
}

/// What to do with the body of a top-level box of type `ty`, given whether a file-type box has
/// been seen.
pub open spec fn spec_box_action(has_ftyp: bool, ty: u32) -> Result<BoxAction, ParseError> {
    if ty == FREE {
        Ok(BoxAction::Skip)
    } else if ty == FTYP {
        if has_ftyp {
            Err(ParseError::InvalidBoxLayout)
        } else {
            Ok(BoxAction::Read)
        }
    } else if !has_ftyp {
        Err(ParseError::InvalidBoxLayout)
    } else if ty == MDAT {
        Ok(BoxAction::Skip)
    } else if ty == MOOV {
        Ok(BoxAction::Read)
    } else {
        Err(ParseError::UnsupportedBox(FourCC { value: ty }))
    }
}

/// The payload span after a skipped box of type `ty` and `size` bytes at `start`: an `mdat` starts
/// the span or must follow it directly; a `free` that follows it directly joins it.
pub open spec fn spec_extend_span(data: Option<InputSpan>, ty: u32, start: u64, size: u64) -> Result<
    Option<InputSpan>,
    ParseError,
> {
    match data {
        None => if ty == MDAT {
            if start + size > u64::MAX {
                Err(ParseError::InvalidInput)
            } else {
                Ok(Some(InputSpan { offset: start, len: size }))
            }
        } else {
            Ok(None)
        },
        Some(d) => if d.end() == start {
            if d.end() + size > u64::MAX {
                Err(ParseError::InvalidInput)
            } else {
                Ok(Some(InputSpan { offset: d.offset, len: (d.len + size) as u64 }))
            }
        } else if ty == MDAT {
            Err(ParseError::UnsupportedBoxLayout)
        } else {
            Ok(Some(d))
        },
    }
}

/// Where the body of a box whose header `h` starts at `start` lies: its size and the box's end.
/// A box that runs to the end takes the rest of a stream of `stream_len` bytes.
pub open spec fn spec_box_extent(h: BoxHeader, start: int, stream_len: Option<u64>) -> Result<
    (int, int),
    ParseError,
> {
    let body_pos = start + h.spec_encoded_len();
    if body_pos > u64::MAX {
        Err(ParseError::InvalidInput)
    } else {
        match h.spec_data_size() {
            Err(e) => Err(e),
            Ok(Some(n)) => if body_pos + n > u64::MAX {
                Err(ParseError::InvalidInput)
            } else {
                Ok((n as int, body_pos + n))
            },
            Ok(None) => {
                let l = stream_len->Some_0 as int;
                if l < body_pos {
                    Err(ParseError::TruncatedBox)
                } else {
                    Ok((l - body_pos, l))
                }
            },
        }
    }
}

/// Where the body of a box whose header `h` starts at `start` lies: its size and the box's end.
/// A box that runs to the end takes the rest of a stream of `stream_len` bytes; a stream shorter
/// than the header is cut, and an end past the 64-bit address space is refused.
pub fn box_extent(h: &BoxHeader, start: u64, stream_len: Option<u64>) -> (r: Result<
    (u64, u64),
    ParseError,
>)
    requires
        h.box_size is UntilEof ==> stream_len is Some,
    ensures
        match r {
            Ok((n, end)) => spec_box_extent(*h, start as int, stream_len) == Ok::<
                (int, int),
                ParseError,
            >((n as int, end as int)),
            Err(e) => spec_box_extent(*h, start as int, stream_len) == Err::<(int, int), ParseError>(
                e,
            ),
        },
{
    let header_len = h.encoded_len();
    if start > u64::MAX - header_len {
        return Err(ParseError::InvalidInput);
    }
    let body_pos = start + header_len;
    match h.box_data_size() {
        Err(e) => Err(e),
        Ok(Some(n)) => if body_pos > u64::MAX - n {
            Err(ParseError::InvalidInput)
        } else {
            Ok((n, body_pos + n))
        },
        Ok(None) => {
            let l = match stream_len {
                Some(l) => l,
                None => 0,
            };
            if l < body_pos {
                Err(ParseError::TruncatedBox)
            } else {
                Ok((l - body_pos, l))
            }
        },
    }
}

/// Whether the eight header bytes read so far announce a 64-bit size, whose eight bytes follow.
pub fn needs_extended_size(head: &[u8]) -> (r: bool)
    ensures
        r == (head@.len() == 8 && be32(head@, 0) == 1),
{
    head.len() == 8 && read_u32(head, 0) == 1
}

/// How many bytes to read for a body of `body_size` bytes kept in memory: bodies over
/// `MAX_READ_BOX_SIZE` are refused.
pub fn read_len(body_size: u64) -> (r: Result<usize, ParseError>)
    ensures
        match r {
            Ok(n) => body_size <= MAX_READ_BOX_SIZE && n == body_size,
            Err(e) => body_size > MAX_READ_BOX_SIZE && e == ParseError::BoxDataTooLarge(body_size),
        },
{
    if body_size > MAX_READ_BOX_SIZE {
        Err(ParseError::BoxDataTooLarge(body_size))
    } else {
        Ok(body_size as usize)
    }
}

/// The boxes a scan has kept: file-type body, movie body, payload span.
pub struct ScanState {
    pub ftyp: Option<Seq<u8>>,
    pub moov: Option<Seq<u8>>,
    pub data: Option<InputSpan>,
}

/// The metadata for the boxes that a whole scan kept.
pub open spec fn spec_finish(st: ScanState) -> Result<Seq<u8>, ParseError> {
    match st.ftyp {
        None => Err(ParseError::MissingRequiredBox(FourCC { value: FTYP })),
        Some(f) => if !spec_has_brand(f, ISOM) {
            Err(ParseError::UnsupportedFormat(FourCC { value: crate::codec::be32(f, 0) }))
        } else {
            match st.moov {
                None => Err(ParseError::MissingRequiredBox(FourCC { value: MOOV })),
                Some(m) => match st.data {
                    None => Err(ParseError::MissingRequiredBox(FourCC { value: MDAT })),
                    Some(d) => spec_sanitized(f, m, spec_parse_moov(m)->Ok_0, d),
                },
            }
        },
    }
}

/// Whether `meta` starts with a file-type box of explicit size that lists the compatible brand,
/// followed by a movie box of explicit size.
pub open spec fn spec_output_shape(meta: Seq<u8>) -> bool {
    match spec_parse_header(meta) {
        Err(_) => false,
        Ok(fh) => {
            let fend = fh.spec_total();
            &&& fh.box_type.value == FTYP
            &&& !(fh.box_size is UntilEof)
            &&& fend <= meta.len()
            &&& spec_has_brand(meta.subrange(fh.spec_encoded_len() as int, fend), ISOM)
            &&& match spec_parse_header(meta.subrange(fend, meta.len() as int)) {
                Err(_) => false,
                Ok(mh) => {
                    &&& mh.box_type.value == MOOV
                    &&& !(mh.box_size is UntilEof)
                    &&& fend + mh.spec_total() <= meta.len()
                },
            }
        },
    }
}

/// The state after taking in a read box of type `ty` with body `body`.
pub open spec fn spec_add_read(st: ScanState, ty: u32, body: Seq<u8>) -> Result<ScanState, ParseError> {
    if ty == FTYP {
        match spec_parse_ftyp(body) {
            Err(e) => Err(e),
            Ok(_) => Ok(ScanState { ftyp: Some(body), ..st }),
        }
    } else {
        match spec_parse_moov(body) {
            Err(e) => Err(e),
            Ok(_) => Ok(ScanState { moov: Some(body), ..st }),
        }
    }
}

/// The state after scanning the boxes of `s` from `pos` on, starting from `st`.
pub open spec fn spec_scan(s: Seq<u8>, pos: int, st: ScanState) -> Result<ScanState, ParseError>
    decreases s.len() - pos,
{
    if pos >= s.len() {
        Ok(st)
    } else {
        match spec_parse_header(s.subrange(pos, s.len() as int)) {
            Err(e) => Err(e),
            Ok(h) => match spec_box_action(st.ftyp is Some, h.box_type.value) {
                Err(e) => Err(e),
                Ok(action) => {
                    let body_pos = pos + h.spec_encoded_len();
                    let body_size: int = match h.spec_data_size() {
                        Ok(Some(n)) => n as int,
                        _ => s.len() - body_pos,
                    };
                    let end = body_pos + body_size;
                    if end > u64::MAX || end <= pos {
                        Err(ParseError::InvalidInput)
                    } else if action == BoxAction::Read {
                        if body_size > MAX_READ_BOX_SIZE {
                            Err(ParseError::BoxDataTooLarge(body_size as u64))
                        } else if end > s.len() {
                            Err(ParseError::TruncatedBox)
                        } else {
                            match spec_add_read(st, h.box_type.value, s.subrange(body_pos, end)) {
                                Err(e) => Err(e),
                                Ok(st2) => spec_scan(s, end, st2),
                            }
                        }
                    } else {
                        match spec_extend_span(
                            st.data,
                            h.box_type.value,
                            pos as u64,
                            (end - pos) as u64,
                        ) {
                            Err(e) => Err(e),
                            Ok(d2) => spec_scan(
                                s,
                                if end < s.len() {
                                    end
                                } else {
                                    s.len() as int
                                },
                                ScanState { data: d2, ..st },
                            ),
                        }
                    }
                },
            },
        }
    }
}

/// What sanitizing the stream `s` gives: the scan's state, then the metadata for it.
pub open spec fn spec_sanitize_bytes(s: Seq<u8>) -> Result<(ScanState, Seq<u8>), ParseError> {
    match spec_scan(s, 0, ScanState { ftyp: None, moov: None, data: None }) {
        Err(e) => Err(e),
        Ok(st) => match spec_finish(st) {
            Err(e) => Err(e),
            Ok(meta) => Ok((st, meta)),
        },
    }
}

/// A file-type box that lists the compatible brand, then a movie box, then anything, has the
/// shape of sanitized metadata.
pub proof fn lemma_output_shape(f: Seq<u8>, m: Seq<u8>, tail: Seq<u8>)
    requires
        spec_has_brand(f, ISOM),
        spec_box_bytes(FTYP, f) is Ok,
        spec_box_bytes(MOOV, m) is Ok,
    ensures
        spec_output_shape(spec_box_bytes(FTYP, f)->Ok_0 + spec_box_bytes(MOOV, m)->Ok_0 + tail),
{
    let hf = spec_header_for(FourCC { value: FTYP }, f.len())->Ok_0;
    let hm = spec_header_for(FourCC { value: MOOV }, m.len())->Ok_0;
    let fb = spec_box_bytes(FTYP, f)->Ok_0;
    let mb = spec_box_bytes(MOOV, m)->Ok_0;
    let meta = fb + mb + tail;
    lemma_parse_header_for(FourCC { value: FTYP }, f.len(), f + mb + tail);
    lemma_parse_header_for(FourCC { value: MOOV }, m.len(), m + tail);
    assert(meta =~= hf.spec_encode() + (f + mb + tail));
    let fend = hf.spec_total();
    assert(meta.subrange(hf.spec_encoded_len() as int, fend) =~= f);
    assert(meta.subrange(fend, meta.len() as int) =~= hm.spec_encode() + (m + tail));
}

/// Sanitized metadata has the shape of a file-type box and a movie box, and fits with its payload
/// in the 64-bit address space.
pub proof fn lemma_finish_shape(st: ScanState)
    requires
        st.data matches Some(d) ==> d.wf(),
        st.moov matches Some(m) ==> spec_parse_moov(m) is Ok,
    ensures
        spec_finish(st) is Ok ==> {
            let meta = spec_finish(st)->Ok_0;
            &&& spec_output_shape(meta)
            &&& meta.len() + st.data->Some_0.len <= u64::MAX
        },
{
    if spec_finish(st) is Ok {
        let f = st.ftyp->Some_0;
        let m = st.moov->Some_0;
        let d = st.data->Some_0;
        let ts = spec_parse_moov(m)->Ok_0;
        let fb = spec_box_bytes(FTYP, f)->Ok_0;
        let mb = spec_box_bytes(MOOV, m)->Ok_0;
        let mlen = fb.len() + mb.len();
        let meta = spec_finish(st)->Ok_0;
        if d.offset == mlen {
            lemma_output_shape(f, m, Seq::empty());
            assert(meta =~= fb + mb + Seq::<u8>::empty());
        } else if d.offset > mlen && spec_pad_fits(d.offset - mlen) {
            lemma_output_shape(f, m, spec_free_box(d.offset - mlen));
        } else {
            let dd = mlen - d.offset;
            let m2 = spec_shift(m, ts, 0, dd)->Ok_0;
            lemma_moov_tables_within(m, 0, m.len() as int);
            lemma_shift_len(m, ts, 0, dd);
            lemma_output_shape(f, m2, Seq::empty());
            assert(meta =~= fb + spec_box_bytes(MOOV, m2)->Ok_0 + Seq::<u8>::empty());
        }
    }
}

/// The state of a scan of the top-level boxes.
pub struct Scanner {
    ftyp: Option<FtypBox>,
    moov: Option<MoovBox>,
    data: Option<InputSpan>,
}

impl Scanner {
    /// What the scan has kept.
    pub closed spec fn state(&self) -> ScanState {
        ScanState {
            ftyp: match self.ftyp {
                Some(f) => Some(f.body()),
                None => None,
            },
            moov: match self.moov {
                Some(m) => Some(m.body()),
                None => None,
            },
            data: self.data,
        }
    }

    /// The kept boxes are well formed and the span lies in the address space.
    pub closed spec fn wf(&self) -> bool {
        &&& (self.ftyp matches Some(f) ==> f.wf())
        &&& (self.moov matches Some(m) ==> m.wf())
        &&& (self.data matches Some(d) ==> d.wf())
    }

    /// What well-formedness says of the kept boxes.
    pub proof fn lemma_wf_state(&self)
        requires
            self.wf(),
        ensures
            self.state().data matches Some(d) ==> d.wf(),
            self.state().moov matches Some(m) ==> spec_parse_moov(m) is Ok,
    {
    }

    /// A scan that has seen nothing.
    pub fn new() -> (r: Scanner)
        ensures
            r.wf(),
            r.state() == (ScanState { ftyp: None, moov: None, data: None }),
    {
        Scanner { ftyp: None, moov: None, data: None }
    }

    /// What to do with the body of the next box, of type `ty`.
    pub fn box_action(&self, ty: FourCC) -> (r: Result<BoxAction, ParseError>)
        ensures
            r == spec_box_action(self.state().ftyp is Some, ty.value),
    {
        let has_ftyp = self.ftyp.is_some();
        if ty.value == FREE {
            Ok(BoxAction::Skip)
        } else if ty.value == FTYP {
            if has_ftyp {
                Err(ParseError::InvalidBoxLayout)
            } else {
                Ok(BoxAction::Read)
            }
        } else if !has_ftyp {
            Err(ParseError::InvalidBoxLayout)
        } else if ty.value == MDAT {
            Ok(BoxAction::Skip)
        } else if ty.value == MOOV {
            Ok(BoxAction::Read)
        } else {
            Err(ParseError::UnsupportedBox(ty))
        }
    }

    /// Takes in a box of type `ty` and `size` bytes at `start` whose body was skipped.
    pub fn add_skipped(&mut self, ty: FourCC, start: u64, size: u64) -> (r: Result<(), ParseError>)
        requires
            old(self).wf(),
        ensures
            final(self).wf(),
            match r {
                Ok(_) => spec_extend_span(old(self).state().data, ty.value, start, size) == Ok::<
                    Option<InputSpan>,
                    ParseError,
                >(final(self).state().data) && final(self).state().ftyp == old(self).state().ftyp
                    && final(self).state().moov == old(self).state().moov,
                Err(e) => spec_extend_span(old(self).state().data, ty.value, start, size) == Err::<
                    Option<InputSpan>,
                    ParseError,
                >(e),
            },
    {
        match self.data {
            None => {
                if ty.value == MDAT {
                    if start > u64::MAX - size {
                        return Err(ParseError::InvalidInput);
                    }
                    self.data = Some(InputSpan { offset: start, len: size });
                }
                Ok(())
            },
            Some(d) => {
                let end = d.offset + d.len;
                if end == start {
                    if end > u64::MAX - size {
                        return Err(ParseError::InvalidInput);
                    }
                    self.data = Some(InputSpan { offset: d.offset, len: d.len + size });
                    Ok(())
                } else if ty.value == MDAT {
                    Err(ParseError::UnsupportedBoxLayout)
                } else {
                    Ok(())
                }
            },
        }
    }

    /// Takes in a box of type `ty` whose body of `body_size` bytes was read into `body`; a body
    /// cut short by the end of the stream is refused. A later movie box replaces an earlier one.
    pub fn add_read(&mut self, ty: FourCC, body_size: u64, body: Vec<u8>) -> (r: Result<
        (),
        ParseError,
    >)
        requires
            old(self).wf(),
            ty.value == FTYP || ty.value == MOOV,
        ensures
            final(self).wf(),
            final(self).state().data == old(self).state().data,
            body@.len() != body_size ==> r == Err::<(), ParseError>(ParseError::TruncatedBox)
                && final(self).state() == old(self).state(),
            body@.len() == body_size ==> match r {
                Ok(_) => if ty.value == FTYP {
                    spec_parse_ftyp(body@) is Ok && final(self).state().ftyp == Some(body@)
                        && final(self).state().moov == old(self).state().moov
                } else {
                    spec_parse_moov(body@) is Ok && final(self).state().moov == Some(body@)
                        && final(self).state().ftyp == old(self).state().ftyp
                },
                Err(e) => if ty.value == FTYP {
                    spec_parse_ftyp(body@) == Err::<(), ParseError>(e)
                } else {
                    spec_parse_moov(body@) == Err::<Seq<crate::moov::TableLoc>, ParseError>(e)
                },
            },
    {
        if body.len() as u64 != body_size {
            return Err(ParseError::TruncatedBox);
        }
        if ty.value == FTYP {
            match FtypBox::parse(body) {
                Ok(f) => {
                    self.ftyp = Some(f);
                    Ok(())
                },
                Err(e) => Err(e),
            }
        } else {
            match MoovBox::parse(body) {
                Ok(m) => {
                    self.moov = Some(m);
                    Ok(())
                },
                Err(e) => Err(e),
            }
        }
    }

    /// Ends the scan: checks that the required boxes were seen and lays out the metadata.
    pub fn finish(self) -> (r: Result<SanitizedMetadata, ParseError>)
        requires
            self.wf(),
        ensures
            match r {
                Ok(s) => {
                    &&& self.state().data == Some(s.data)
                    &&& spec_finish(self.state()) == Ok::<Seq<u8>, ParseError>(s.metadata@)
                    &&& spec_output_shape(s.metadata@)
                    &&& s.data.wf()
                    &&& s.metadata@.len() + s.data.len <= u64::MAX
                },
                Err(e) => spec_finish(self.state()) == Err::<Seq<u8>, ParseError>(e),
            },
    {
        proof {
            lemma_finish_shape(self.state());
        }
        let Scanner { ftyp, moov, data } = self;
        let ftyp = match ftyp {
            None => return Err(ParseError::MissingRequiredBox(FourCC { value: FTYP })),
            Some(f) => f,
        };
        if !ftyp.has_compatible_brand(FourCC { value: ISOM }) {
            return Err(ParseError::UnsupportedFormat(ftyp.major_brand()));
        }
        let moov = match moov {
            None => return Err(ParseError::MissingRequiredBox(FourCC { value: MOOV })),
            Some(m) => m,
        };
        let data = match data {
            None => return Err(ParseError::MissingRequiredBox(FourCC { value: MDAT })),
            Some(d) => d,
        };
        sanitize_boxes(ftyp, moov, data)
    }
}

} // verus!
