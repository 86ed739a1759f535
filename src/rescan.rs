//! Sanitizing a sanitized stream again gives the same metadata.

use vstd::prelude::*;

use crate::codec::{be32, be64, lemma_be32_of_u32_be, u32_be, FourCC, FREE, FTYP, ISOM, MDAT, MOOV};
use crate::error::ParseError;
use crate::ftyp::{spec_has_brand, spec_parse_ftyp};
use crate::header::{lemma_parse_header_for, spec_header_for, spec_parse_header};
use crate::layout::{lemma_output_moov_tables, lemma_sanitize_again, spec_box_bytes, spec_free_box};
use crate::layout::{spec_output_moov, spec_pad_fits, spec_sanitized, InputSpan, MAX_READ_BOX_SIZE};
use crate::moov::spec_parse_moov;
use crate::scan::{spec_add_read, spec_box_action, spec_extend_span, spec_finish, spec_sanitize_bytes};
use crate::scan::{spec_scan, BoxAction, ScanState};

verus! {

/// The boxes a scan keeps are well formed and the span lies in the address space.
pub open spec fn scan_inv(st: ScanState) -> bool {
    &&& (st.ftyp matches Some(f) ==> f.len() <= MAX_READ_BOX_SIZE && spec_parse_ftyp(f) is Ok)
    &&& (st.moov matches Some(m) ==> m.len() <= MAX_READ_BOX_SIZE && spec_parse_moov(m) is Ok)
    &&& (st.data matches Some(d) ==> d.wf())
}

/// A scan keeps well-formed boxes; the span, once started, keeps its offset and only grows.
pub proof fn lemma_scan_inv(s: Seq<u8>, pos: int, st: ScanState)
    requires
        0 <= pos,
        scan_inv(st),
        spec_scan(s, pos, st) is Ok,
    ensures
        scan_inv(spec_scan(s, pos, st)->Ok_0),
        st.ftyp is Some ==> spec_scan(s, pos, st)->Ok_0.ftyp is Some,
        st.data matches Some(dd) ==> ({
            let fin = spec_scan(s, pos, st)->Ok_0;
            &&& fin.data is Some
            &&& fin.data->Some_0.offset == dd.offset
            &&& fin.data->Some_0.end() >= dd.end()
        }),
    decreases s.len() - pos,
{
    if pos < s.len() {
        let h = spec_parse_header(s.subrange(pos, s.len() as int))->Ok_0;
        let action = spec_box_action(st.ftyp is Some, h.box_type.value)->Ok_0;
        let body_pos = pos + h.spec_encoded_len();
        let body_size: int = match h.spec_data_size() {
            Ok(Some(n)) => n as int,
            _ => s.len() - body_pos,
        };
        let end = body_pos + body_size;
        if action == BoxAction::Read {
            let st2 = spec_add_read(st, h.box_type.value, s.subrange(body_pos, end))->Ok_0;
            lemma_scan_inv(s, end, st2);
        } else {
            let d2 = spec_extend_span(st.data, h.box_type.value, pos as u64, (end - pos) as u64)->Ok_0;
            let next = if end < s.len() {
                end
            } else {
                s.len() as int
            };
            lemma_scan_inv(s, next, ScanState { data: d2, ..st });
        }
    }
}

/// Once the scan has passed the end of the span, the span no longer changes.
pub proof fn lemma_span_frozen(s: Seq<u8>, pos: int, st: ScanState)
    requires
        0 <= pos,
        spec_scan(s, pos, st) is Ok,
        st.data matches Some(dd) && dd.end() < pos,
    ensures
        spec_scan(s, pos, st)->Ok_0.data == st.data,
    decreases s.len() - pos,
{
    if pos < s.len() {
        let h = spec_parse_header(s.subrange(pos, s.len() as int))->Ok_0;
        let action = spec_box_action(st.ftyp is Some, h.box_type.value)->Ok_0;
        let body_pos = pos + h.spec_encoded_len();
        let body_size: int = match h.spec_data_size() {
            Ok(Some(n)) => n as int,
            _ => s.len() - body_pos,
        };
        let end = body_pos + body_size;
        if action == BoxAction::Read {
            let st2 = spec_add_read(st, h.box_type.value, s.subrange(body_pos, end))->Ok_0;
            lemma_span_frozen(s, end, st2);
        } else {
            let d2 = spec_extend_span(st.data, h.box_type.value, pos as u64, (end - pos) as u64)->Ok_0;
            let next = if end < s.len() {
                end
            } else {
                s.len() as int
            };
            lemma_span_frozen(s, next, ScanState { data: d2, ..st });
        }
    }
}

/// A header decodes the same from bytes that agree on its encoding.
pub proof fn lemma_parse_header_same(a: Seq<u8>, b: Seq<u8>)
    requires
        spec_parse_header(a) is Ok,
        spec_parse_header(a)->Ok_0.spec_encoded_len() <= b.len(),
        forall|i: int|
            0 <= i < spec_parse_header(a)->Ok_0.spec_encoded_len() ==> #[trigger] a[i] == b[i],
    ensures
        spec_parse_header(b) == spec_parse_header(a),
{
    let h = spec_parse_header(a)->Ok_0;
    assert(a[0] == b[0] && a[1] == b[1] && a[2] == b[2] && a[3] == b[3]);
    assert(a[4] == b[4] && a[5] == b[5] && a[6] == b[6] && a[7] == b[7]);
    assert(be32(a, 0) == be32(b, 0));
    assert(be32(a, 4) == be32(b, 4));
    if be32(a, 0) == 1 {
        assert(a[8] == b[8] && a[9] == b[9] && a[10] == b[10] && a[11] == b[11]);
        assert(a[12] == b[12] && a[13] == b[13] && a[14] == b[14] && a[15] == b[15]);
        assert(be64(a, 8) == be64(b, 8));
    }
}

/// The span a scan ends with starts at an `mdat`, reached with no span yet and a file-type box.
pub proof fn lemma_span_start(s: Seq<u8>, pos: int, st: ScanState)
    requires
        0 <= pos,
        scan_inv(st),
        st.data is None,
        spec_scan(s, pos, st) is Ok,
        spec_scan(s, pos, st)->Ok_0.data is Some,
    ensures
        ({
            let q = spec_scan(s, pos, st)->Ok_0.data->Some_0.offset as int;
            &&& pos <= q < s.len()
            &&& spec_parse_header(s.subrange(q, s.len() as int)) is Ok
            &&& spec_parse_header(s.subrange(q, s.len() as int))->Ok_0.box_type.value == MDAT
            &&& exists|st_q: ScanState|
                {
                    &&& st_q.data is None
                    &&& st_q.ftyp is Some
                    &&& scan_inv(st_q)
                    &&& #[trigger] spec_scan(s, q, st_q) == spec_scan(s, pos, st)
                }
        }),
    decreases s.len() - pos,
{
    if pos < s.len() {
        let h = spec_parse_header(s.subrange(pos, s.len() as int))->Ok_0;
        let action = spec_box_action(st.ftyp is Some, h.box_type.value)->Ok_0;
        let body_pos = pos + h.spec_encoded_len();
        let body_size: int = match h.spec_data_size() {
            Ok(Some(n)) => n as int,
            _ => s.len() - body_pos,
        };
        let end = body_pos + body_size;
        if action == BoxAction::Read {
            let st2 = spec_add_read(st, h.box_type.value, s.subrange(body_pos, end))->Ok_0;
            lemma_span_start(s, end, st2);
        } else {
            let d2 = spec_extend_span(st.data, h.box_type.value, pos as u64, (end - pos) as u64)->Ok_0;
            let next = if end < s.len() {
                end
            } else {
                s.len() as int
            };
            let st2 = ScanState { data: d2, ..st };
            if h.box_type.value == MDAT {
                lemma_scan_inv(s, next, st2);
                assert(spec_scan(s, pos, st) == spec_scan(s, pos, st));
            } else {
                lemma_span_start(s, next, st2);
            }
        }
    }
}

/// Rescanning the rest of the payload, moved by `off`, with the span so far moved by `off`, ends
/// with the final span moved by `off`.
#[verifier::rlimit(100)]
pub proof fn lemma_rescan_payload(
    x: Seq<u8>,
    y: Seq<u8>,
    pos: int,
    off: int,
    st: ScanState,
    sty: ScanState,
)
    requires
        0 <= pos,
        0 <= pos + off,
        scan_inv(st),
        st.ftyp is Some,
        sty.ftyp is Some,
        spec_scan(x, pos, st) is Ok,
        st.data matches Some(dd) && dd.end() == pos && 0 <= dd.offset + off,
        spec_scan(x, pos, st)->Ok_0.data->Some_0.end() <= x.len(),
        y.len() == spec_scan(x, pos, st)->Ok_0.data->Some_0.end() + off,
        y.len() <= u64::MAX,
        forall|i: int|
            pos <= i < spec_scan(x, pos, st)->Ok_0.data->Some_0.end() ==> #[trigger] x[i] == y[i
                + off],
        sty.data == Some(
            InputSpan {
                offset: (st.data->Some_0.offset + off) as u64,
                len: st.data->Some_0.len,
            },
        ),
    ensures
        spec_scan(y, pos + off, sty) == Ok::<ScanState, ParseError>(
            ScanState {
                data: Some(
                    InputSpan {
                        offset: (st.data->Some_0.offset + off) as u64,
                        len: spec_scan(x, pos, st)->Ok_0.data->Some_0.len,
                    },
                ),
                ..sty
            },
        ),
    decreases x.len() - pos,
{
    let dd = st.data->Some_0;
    let df = spec_scan(x, pos, st)->Ok_0.data->Some_0;
    lemma_scan_inv(x, pos, st);
    if pos >= x.len() {
        assert(sty.data == Some(InputSpan { offset: (dd.offset + off) as u64, len: df.len }));
    } else {
        let h = spec_parse_header(x.subrange(pos, x.len() as int))->Ok_0;
        let ty = h.box_type.value;
        let action = spec_box_action(true, ty)->Ok_0;
        let body_pos = pos + h.spec_encoded_len();
        let body_size: int = match h.spec_data_size() {
            Ok(Some(n)) => n as int,
            _ => x.len() - body_pos,
        };
        let end = body_pos + body_size;
        if action == BoxAction::Read {
            let st2 = spec_add_read(st, ty, x.subrange(body_pos, end))->Ok_0;
            lemma_span_frozen(x, end, st2);
            assert(y.len() == pos + off);
        } else {
            let d2 = spec_extend_span(st.data, ty, pos as u64, (end - pos) as u64)->Ok_0;
            let next = if end < x.len() {
                end
            } else {
                x.len() as int
            };
            let st2 = ScanState { data: d2, ..st };
            lemma_scan_inv(x, next, st2);
            assert(end <= df.end());
            assert(next == end);
            let ya = y.subrange(pos + off, y.len() as int);
            let xa = x.subrange(pos, x.len() as int);
            assert forall|i: int| 0 <= i < h.spec_encoded_len() implies #[trigger] xa[i] == ya[i] by {
                assert(x[pos + i] == y[pos + i + off]);
            }
            lemma_parse_header_same(xa, ya);
            let sty2 = ScanState {
                data: Some(InputSpan { offset: (dd.offset + off) as u64, len: d2->Some_0.len }),
                ..sty
            };
            lemma_rescan_payload(x, y, end, off, st2, sty2);
        }
    }
}

/// Scanning a box of type `ty` with body `body`, its header in its smallest encoding, that the scan
/// reads into memory.
pub proof fn lemma_read_step(y: Seq<u8>, pos: int, st: ScanState, ty: u32, body: Seq<u8>)
    requires
        0 <= pos,
        spec_header_for(FourCC { value: ty }, body.len()) is Ok,
        pos + spec_box_bytes(ty, body)->Ok_0.len() <= y.len() <= u64::MAX,
        y.subrange(pos, pos + spec_box_bytes(ty, body)->Ok_0.len()) == spec_box_bytes(ty, body)->Ok_0,
        spec_box_action(st.ftyp is Some, ty) == Ok::<BoxAction, ParseError>(BoxAction::Read),
        body.len() <= MAX_READ_BOX_SIZE,
        spec_add_read(st, ty, body) is Ok,
    ensures
        spec_scan(y, pos, st) == spec_scan(
            y,
            pos + spec_box_bytes(ty, body)->Ok_0.len(),
            spec_add_read(st, ty, body)->Ok_0,
        ),
{
    let h = spec_header_for(FourCC { value: ty }, body.len())->Ok_0;
    let total = spec_box_bytes(ty, body)->Ok_0.len();
    let rest = y.subrange(pos + total, y.len() as int);
    let ya = y.subrange(pos, y.len() as int);
    lemma_parse_header_for(FourCC { value: ty }, body.len(), body + rest);
    assert(ya =~= h.spec_encode() + (body + rest)) by {
        assert(y.subrange(pos, y.len() as int) =~= y.subrange(pos, pos + total) + rest);
    }
    let body_pos = pos + h.spec_encoded_len();
    assert(y.subrange(body_pos, pos + total) =~= body) by {
        assert forall|i: int| 0 <= i < body.len() implies y.subrange(body_pos, pos + total)[i]
            == body[i] by {
            assert(y.subrange(pos, pos + total)[h.spec_encoded_len() + i] == body[i]);
        }
    }
}

/// Scanning the padding box of `n` bytes at `pos`, with no span yet, changes nothing.
pub proof fn lemma_pad_step(y: Seq<u8>, pos: int, st: ScanState, n: int)
    requires
        0 <= pos,
        st.data is None,
        spec_pad_fits(n),
        pos + n < y.len() <= u64::MAX,
        y.subrange(pos, pos + n) == spec_free_box(n),
    ensures
        spec_scan(y, pos, st) == spec_scan(y, pos + n, st),
{
    let ya = y.subrange(pos, y.len() as int);
    assert(ya.subrange(0, 4) =~= u32_be(n as u32)) by {
        assert forall|i: int| 0 <= i < 4 implies ya[i] == spec_free_box(n)[i] by {
            assert(y.subrange(pos, pos + n)[i] == y[pos + i]);
        }
    }
    assert(ya.subrange(4, 8) =~= u32_be(FREE)) by {
        assert forall|i: int| 4 <= i < 8 implies ya[i] == spec_free_box(n)[i] by {
            assert(y.subrange(pos, pos + n)[i] == y[pos + i]);
        }
    }
    lemma_be32_of_u32_be(n as u32, ya, 0);
    lemma_be32_of_u32_be(FREE, ya, 4);
}

/// The state that a scan of `x` ends with.
pub open spec fn scanned(x: Seq<u8>) -> ScanState {
    spec_sanitize_bytes(x)->Ok_0.0
}

/// The sanitized stream for `x`: the metadata, then the payload's bytes.
pub open spec fn sanitized_stream(x: Seq<u8>) -> Seq<u8> {
    let d = scanned(x).data->Some_0;
    spec_sanitize_bytes(x)->Ok_0.1 + x.subrange(d.offset as int, d.end())
}

/// The movie body that the metadata for `x` holds.
pub open spec fn output_moov_of(x: Seq<u8>) -> Seq<u8> {
    let st = scanned(x);
    spec_output_moov(
        st.ftyp->Some_0,
        st.moov->Some_0,
        spec_parse_moov(st.moov->Some_0)->Ok_0,
        st.data->Some_0,
    )
}

/// What sanitizing `x` gives, and the facts the rescan rests on.
pub proof fn lemma_sanitized_facts(x: Seq<u8>)
    requires
        spec_sanitize_bytes(x) is Ok,
    ensures
        ({
            let st = scanned(x);
            let meta = spec_sanitize_bytes(x)->Ok_0.1;
            let f = st.ftyp->Some_0;
            let m = st.moov->Some_0;
            let d = st.data->Some_0;
            let m_out = output_moov_of(x);
            &&& spec_scan(x, 0, ScanState { ftyp: None, moov: None, data: None }) == Ok::<
                ScanState,
                ParseError,
            >(st)
            &&& scan_inv(st)
            &&& st.ftyp is Some && st.moov is Some && st.data is Some
            &&& spec_has_brand(f, ISOM)
            &&& spec_finish(st) == Ok::<Seq<u8>, ParseError>(meta)
            &&& meta.len() + d.len <= u64::MAX
            &&& spec_parse_moov(m_out) == spec_parse_moov(m)
            &&& m_out.len() == m.len()
            &&& spec_sanitized(f, m_out, spec_parse_moov(m_out)->Ok_0, InputSpan { offset: meta.len() as u64, len: d.len }) == Ok::<Seq<u8>, ParseError>(meta)
            &&& meta == spec_box_bytes(FTYP, f)->Ok_0 + spec_box_bytes(MOOV, m_out)->Ok_0 + meta.subrange(
                (spec_box_bytes(FTYP, f)->Ok_0.len() + spec_box_bytes(MOOV, m_out)->Ok_0.len()) as int,
                meta.len() as int,
            )
            &&& spec_box_bytes(FTYP, f) is Ok && spec_box_bytes(MOOV, m_out) is Ok
            &&& {
                let mlen = spec_box_bytes(FTYP, f)->Ok_0.len() + spec_box_bytes(MOOV, m_out)->Ok_0.len();
                mlen == meta.len() || (spec_pad_fits(meta.len() - mlen) && meta.subrange(mlen as int, meta.len() as int) == spec_free_box(meta.len() - mlen))
            }
        }),
{
    let init = ScanState { ftyp: None, moov: None, data: None };
    let st = spec_scan(x, 0, init)->Ok_0;
    lemma_scan_inv(x, 0, init);
    let f = st.ftyp->Some_0;
    let m = st.moov->Some_0;
    let d = st.data->Some_0;
    let ts = spec_parse_moov(m)->Ok_0;
    lemma_sanitize_again(f, m, d);
    lemma_output_moov_tables(f, m, d);
    let meta = spec_finish(st)->Ok_0;
    let m_out = spec_output_moov(f, m, ts, d);
    let fb = spec_box_bytes(FTYP, f)->Ok_0;
    let mb = spec_box_bytes(MOOV, m_out)->Ok_0;
    let mb0 = spec_box_bytes(MOOV, m)->Ok_0;
    assert(mb.len() == mb0.len());
    let mlen = fb.len() + mb.len();
    if d.offset == mlen {
        assert(meta =~= fb + mb + meta.subrange(mlen as int, meta.len() as int));
    } else if d.offset > mlen && spec_pad_fits(d.offset - mlen) {
        assert(meta.subrange(mlen as int, meta.len() as int) =~= spec_free_box(d.offset - mlen));
        assert(meta =~= fb + mb + meta.subrange(mlen as int, meta.len() as int));
    } else {
        assert(meta =~= fb + mb + meta.subrange(mlen as int, meta.len() as int));
    }
}

/// Rescanning the metadata of `x`'s sanitized stream keeps its file-type and movie bodies.
#[verifier::rlimit(100)]
pub proof fn lemma_rescan_metadata(x: Seq<u8>)
    requires
        spec_sanitize_bytes(x) is Ok,
        scanned(x).data->Some_0.end() <= x.len(),
        scanned(x).data->Some_0.len > 0,
    ensures
        spec_scan(sanitized_stream(x), 0, ScanState { ftyp: None, moov: None, data: None })
            == spec_scan(
            sanitized_stream(x),
            spec_sanitize_bytes(x)->Ok_0.1.len() as int,
            ScanState { ftyp: scanned(x).ftyp, moov: Some(output_moov_of(x)), data: None },
        ),
{
    lemma_sanitized_facts(x);
    let init = ScanState { ftyp: None, moov: None, data: None };
    let st = scanned(x);
    let meta = spec_sanitize_bytes(x)->Ok_0.1;
    let f = st.ftyp->Some_0;
    let d = st.data->Some_0;
    let m_out = output_moov_of(x);
    let fb = spec_box_bytes(FTYP, f)->Ok_0;
    let mb = spec_box_bytes(MOOV, m_out)->Ok_0;
    let mlen = (fb.len() + mb.len()) as int;
    let y = sanitized_stream(x);
    let p = x.subrange(d.offset as int, d.end());
    assert(y == meta + p);
    assert(y.len() == meta.len() + d.len);
    assert(y.subrange(0, fb.len() as int) =~= fb);
    lemma_read_step(y, 0, init, FTYP, f);
    let st1 = spec_add_read(init, FTYP, f)->Ok_0;
    assert(y.subrange(fb.len() as int, mlen) =~= mb);
    lemma_read_step(y, fb.len() as int, st1, MOOV, m_out);
    if mlen < meta.len() {
        assert(y.subrange(mlen, meta.len() as int) =~= meta.subrange(mlen, meta.len() as int));
        lemma_pad_step(y, mlen, ScanState { ftyp: st.ftyp, moov: Some(m_out), data: None }, meta.len() - mlen);
    }
}

/// Rescanning the payload of `x`'s sanitized stream reproduces the span, right after the metadata.
/// Rescanning a payload put right after `meta_len` bytes of metadata, from a scan of `x` that ended
/// with state `st`, reproduces the span right after the metadata.
#[verifier::rlimit(100)]
pub proof fn lemma_rescan_span_after(x: Seq<u8>, y: Seq<u8>, meta_len: int, st: ScanState, st2: ScanState)
    requires
        0 <= meta_len,
        spec_scan(x, 0, ScanState { ftyp: None, moov: None, data: None }) == Ok::<ScanState, ParseError>(st),
        st.data matches Some(d) && d.end() <= x.len(),
        st2.ftyp is Some,
        st2.data is None,
        y.len() == meta_len + st.data->Some_0.len,
        y.len() <= u64::MAX,
        forall|i: int|
            st.data->Some_0.offset <= i < st.data->Some_0.end() ==> #[trigger] x[i] == y[i + (meta_len
                - st.data->Some_0.offset)],
    ensures
        st.data->Some_0.len > 0,
        spec_scan(y, meta_len, st2) == Ok::<ScanState, ParseError>(
            ScanState {
                data: Some(InputSpan { offset: meta_len as u64, len: st.data->Some_0.len }),
                ..st2
            },
        ),
{
    let init = ScanState { ftyp: None, moov: None, data: None };
    let d = st.data->Some_0;
    lemma_span_start(x, 0, init);
    let q = d.offset as int;
    let st_q = choose|st_q: ScanState|
        {
            &&& st_q.data is None
            &&& st_q.ftyp is Some
            &&& scan_inv(st_q)
            &&& #[trigger] spec_scan(x, q, st_q) == spec_scan(x, 0, init)
        };
    lemma_first_mdat(x, y, q, meta_len - q, st_q, st2);
}

/// Rescanning the payload of `x`'s sanitized stream reproduces the span, right after the metadata.
pub proof fn lemma_rescan_span(x: Seq<u8>)
    requires
        spec_sanitize_bytes(x) is Ok,
        scanned(x).data->Some_0.end() <= x.len(),
    ensures
        scanned(x).data->Some_0.len > 0,
        spec_scan(
            sanitized_stream(x),
            spec_sanitize_bytes(x)->Ok_0.1.len() as int,
            ScanState { ftyp: scanned(x).ftyp, moov: Some(output_moov_of(x)), data: None },
        ) == Ok::<ScanState, ParseError>(
            ScanState {
                ftyp: scanned(x).ftyp,
                moov: Some(output_moov_of(x)),
                data: Some(
                    InputSpan {
                        offset: spec_sanitize_bytes(x)->Ok_0.1.len() as u64,
                        len: scanned(x).data->Some_0.len,
                    },
                ),
            },
        ),
{
    lemma_sanitized_facts(x);
    let st = scanned(x);
    let meta = spec_sanitize_bytes(x)->Ok_0.1;
    let d = st.data->Some_0;
    let y = sanitized_stream(x);
    let p = x.subrange(d.offset as int, d.end());
    assert(y == meta + p);
    let q = d.offset as int;
    let st2 = ScanState { ftyp: st.ftyp, moov: Some(output_moov_of(x)), data: None };
    assert forall|i: int| q <= i < d.end() implies #[trigger] x[i] == y[i + (meta.len() - q)] by {
        assert(y[i + (meta.len() - q)] == p[i - q]);
    }
    lemma_rescan_span_after(x, y, meta.len() as int, st, st2);
}

/// Rescanning the payload from its first `mdat`, moved by `off`, with no span yet, ends with the
/// final span moved by `off`.
#[verifier::rlimit(100)]
pub proof fn lemma_first_mdat(x: Seq<u8>, y: Seq<u8>, q: int, off: int, st_q: ScanState, st2: ScanState)
    requires
        0 <= q,
        0 <= q + off,
        scan_inv(st_q),
        st_q.data is None,
        st_q.ftyp is Some,
        st2.ftyp is Some,
        st2.data is None,
        spec_scan(x, q, st_q) is Ok,
        spec_scan(x, q, st_q)->Ok_0.data matches Some(df) && df.offset == q && df.end() <= x.len(),
        q < x.len(),
        spec_parse_header(x.subrange(q, x.len() as int)) is Ok,
        spec_parse_header(x.subrange(q, x.len() as int))->Ok_0.box_type.value == MDAT,
        y.len() == spec_scan(x, q, st_q)->Ok_0.data->Some_0.end() + off,
        y.len() <= u64::MAX,
        forall|i: int|
            q <= i < spec_scan(x, q, st_q)->Ok_0.data->Some_0.end() ==> #[trigger] x[i] == y[i + off],
    ensures
        spec_scan(y, q + off, st2) == Ok::<ScanState, ParseError>(
            ScanState {
                data: Some(
                    InputSpan {
                        offset: (q + off) as u64,
                        len: spec_scan(x, q, st_q)->Ok_0.data->Some_0.len,
                    },
                ),
                ..st2
            },
        ),
{
    let df = spec_scan(x, q, st_q)->Ok_0.data->Some_0;
    let hq = spec_parse_header(x.subrange(q, x.len() as int))->Ok_0;
    let bq = q + hq.spec_encoded_len();
    let sq: int = match hq.spec_data_size() {
        Ok(Some(n)) => n as int,
        _ => x.len() - bq,
    };
    let endq = bq + sq;
    let st_q2 = ScanState {
        data: Some(InputSpan { offset: q as u64, len: (endq - q) as u64 }),
        ..st_q
    };
    let nextq = if endq < x.len() {
        endq
    } else {
        x.len() as int
    };
    assert(spec_scan(x, q, st_q) == spec_scan(x, nextq, st_q2));
    lemma_scan_inv(x, nextq, st_q2);
    assert(nextq == endq);
    let xa = x.subrange(q, x.len() as int);
    let ya = y.subrange(q + off, y.len() as int);
    assert forall|i: int| 0 <= i < hq.spec_encoded_len() implies #[trigger] xa[i] == ya[i] by {
        assert(x[q + i] == y[q + i + off]);
    }
    lemma_parse_header_same(xa, ya);
    let sty = ScanState {
        data: Some(InputSpan { offset: (q + off) as u64, len: (endq - q) as u64 }),
        ..st2
    };
    assert(spec_scan(y, q + off, st2) == spec_scan(y, endq + off, sty));
    lemma_rescan_payload(x, y, endq, off, st_q2, sty);
}

/// Sanitizing the sanitized stream (the metadata, then the payload's bytes) succeeds and gives the
/// same metadata, with the payload right after it. The payload must lie within the stream.
pub proof fn lemma_sanitize_bytes_again(x: Seq<u8>)
    requires
        spec_sanitize_bytes(x) is Ok,
        spec_sanitize_bytes(x)->Ok_0.0.data->Some_0.end() <= x.len(),
    ensures
        ({
            let st = spec_sanitize_bytes(x)->Ok_0.0;
            let meta = spec_sanitize_bytes(x)->Ok_0.1;
            let d = st.data->Some_0;
            let y = meta + x.subrange(d.offset as int, d.end());
            &&& spec_sanitize_bytes(y) is Ok
            &&& spec_sanitize_bytes(y)->Ok_0.1 == meta
            &&& spec_sanitize_bytes(y)->Ok_0.0.data == Some(
                InputSpan { offset: meta.len() as u64, len: d.len },
            )
        }),
{
    lemma_sanitized_facts(x);
    lemma_rescan_span(x);
    lemma_rescan_metadata(x);
}

} // verus!
