//! Sanitizer for ISO Base Media (MP4) streams.
//!
//! The sanitizer scans the top-level boxes of a stream, keeps the file-type and movie boxes, and
//! describes the media payload as a span of the input. Concatenating the returned metadata with the
//! bytes of that span yields a file whose metadata precedes its payload and whose chunk offsets
//! point into the payload at its new position.

pub mod array;
pub mod codec;
pub mod error;
pub mod examples;
pub mod ftyp;
pub mod header;
pub mod layout;
pub mod moov;
pub mod rescan;
pub mod scan;
pub mod source;

pub use array::{ArrayEntry, ArrayEntryMut, BoundedArray, Mp4Prim, UnboundedArray};
pub use codec::FourCC;
pub use error::ParseError;
pub use examples::{example_ftyp, example_mdat, example_moov, VerifyError};
pub use layout::{InputSpan, SanitizedMetadata};
pub use source::{ByteCursor, ReadBytes, Skip};

use vstd::prelude::*;

use crate::header::{BoxHeader, BoxSize};
use crate::moov::spec_parse_moov;
use crate::scan::{box_extent, needs_extended_size, read_len, spec_finish, spec_output_shape, spec_sanitize_bytes, spec_scan, BoxAction, ScanState, Scanner};

verus! {

/// The brand that a stream's file-type box must list as compatible: `isom`, packed big-endian.
pub const COMPATIBLE_BRAND: u32 = 0x69736f6d;

/// Why sanitizing failed.
#[derive(Debug)]
pub enum Error {
    /// The input could not be read.
    Io(std::io::Error),
    /// The input is not a stream that can be sanitized.
    Parse(ParseError),
}

/// Relies on std::io::Error::kind: whether the error reports that the stream ended early.
#[verifier::external_body]
fn is_unexpected_eof(e: &std::io::Error) -> bool {
    e.kind() == std::io::ErrorKind::UnexpectedEof
}

/// The error for a failed read or skip: one that reports an early end of the stream means the
/// box being read is cut short.
pub fn io_error(e: std::io::Error) -> (r: Error)
    ensures
        r is Io || r == Error::Parse(ParseError::TruncatedBox),
{
    if is_unexpected_eof(&e) {
        Error::Parse(ParseError::TruncatedBox)
    } else {
        Error::Io(e)
    }
}

/// Reads `n` bytes, or fewer where the input ends first.
fn read_exact<R: ReadBytes>(input: &mut R, n: usize) -> (r: Result<Vec<u8>, Error>)
    ensures
        r matches Ok(v) ==> v@.len() <= n,
{
    let mut out: Vec<u8> = Vec::new();
    while out.len() < n
        invariant
            out@.len() <= n,
        decreases n - out@.len(),
    {
        let mut chunk = match input.read_bytes(n - out.len()) {
            Ok(c) => c,
            Err(e) => return Err(io_error(e)),
        };
        if chunk.len() == 0 {
            break;
        }
        if chunk.len() > n - out.len() {
            return Err(Error::Parse(ParseError::InvalidInput));
        }
        out.append(&mut chunk);
    }
    Ok(out)
}

/// Copies `input[a .. b]`.
fn copy_range(input: &[u8], a: usize, b: usize) -> (r: Vec<u8>)
    requires
        a <= b <= input@.len(),
    ensures
        r@ == input@.subrange(a as int, b as int),
{
    let mut out: Vec<u8> = Vec::new();
    let mut i: usize = a;
    while i < b
        invariant
            a <= i <= b <= input@.len(),
            out@ == input@.subrange(a as int, i as int),
        decreases b - i,
    {
        out.push(input[i]);
        i = i + 1;
        assert(out@ =~= input@.subrange(a as int, i as int));
    }
    out
}

/// Sanitizes a stream held in memory: the same scan as [`sanitize`], over `input`.
pub fn sanitize_bytes(input: &[u8]) -> (r: Result<SanitizedMetadata, ParseError>)
    ensures
        match r {
            Ok(s) => spec_sanitize_bytes(input@) == Ok::<(ScanState, Seq<u8>), ParseError>(
                (spec_sanitize_bytes(input@)->Ok_0.0, s.metadata@),
            ) && spec_sanitize_bytes(input@)->Ok_0.0.data == Some(s.data),
            Err(e) => spec_sanitize_bytes(input@) == Err::<(ScanState, Seq<u8>), ParseError>(e),
        },
{
    let len = input.len();
    let mut scanner = Scanner::new();
    let mut pos: usize = 0;
    let ghost s = input@;
    let ghost init = scanner.state();
    while pos < len
        invariant
            len == s.len(),
            s == input@,
            pos <= len,
            scanner.wf(),
            init == (ScanState { ftyp: None, moov: None, data: None }),
            spec_scan(s, 0, init) == spec_scan(s, pos as int, scanner.state()),
        decreases len - pos,
    {
        let ghost st = scanner.state();
        let header = match BoxHeader::parse(input, pos) {
            Ok(h) => h,
            Err(e) => {
                assert(spec_scan(s, pos as int, st) == Err::<ScanState, ParseError>(e));
                return Err(e);
            },
        };
        let ty = header.box_type;
        let action = match scanner.box_action(ty) {
            Ok(a) => a,
            Err(e) => {
                assert(spec_scan(s, pos as int, st) == Err::<ScanState, ParseError>(e));
                return Err(e);
            },
        };
        let stream_len: Option<u64> = Some(len as u64);
        let (body_size, end) = match box_extent(&header, pos as u64, stream_len) {
            Ok(r) => r,
            Err(e) => {
                assert(spec_scan(s, pos as int, st) == Err::<ScanState, ParseError>(e));
                return Err(e);
            },
        };
        match action {
            BoxAction::Read => {
                let n = match read_len(body_size) {
                    Ok(n) => n,
                    Err(e) => return Err(e),
                };
                if end > len as u64 {
                    return Err(ParseError::TruncatedBox);
                }
                let body = copy_range(input, end as usize - n, end as usize);
                match scanner.add_read(ty, body_size, body) {
                    Ok(_) => {},
                    Err(e) => return Err(e),
                }
            },
            BoxAction::Skip => {
                match scanner.add_skipped(ty, pos as u64, end - pos as u64) {
                    Ok(_) => {},
                    Err(e) => return Err(e),
                }
            },
        }
        if end >= len as u64 {
            pos = len;
        } else {
            pos = end as usize;
        }
    }
    proof {
        scanner.lemma_wf_state();
    }
    scanner.finish()
}

/// Sanitizes the stream `input`: scans its top-level boxes, keeping the file-type and movie
/// boxes in memory and skipping the payload, and returns the metadata to put before the payload
/// together with where the payload lies in the input.
pub fn sanitize<R: ReadBytes + Skip>(input: R) -> (r: Result<SanitizedMetadata, Error>)
    ensures
        r matches Ok(s) ==> {
            &&& spec_output_shape(s.metadata@)
            &&& s.data.wf()
            &&& s.metadata@.len() + s.data.len <= u64::MAX
            &&& exists|st: ScanState|
                {
                    &&& st.data == Some(s.data)
                    &&& st.moov matches Some(m) && spec_parse_moov(m) is Ok
                    &&& #[trigger] spec_finish(st) == Ok::<Seq<u8>, ParseError>(s.metadata@)
                }
        },
{
    let mut input = input;
    let mut scanner = Scanner::new();
    let mut pos = match input.stream_position() {
        Ok(p) => p,
        Err(e) => return Err(Error::Io(e)),
    };
    loop
        invariant
            scanner.wf(),
        decreases u64::MAX - pos,
    {
        let mut head = match read_exact(&mut input, 8) {
            Ok(h) => h,
            Err(e) => return Err(e),
        };
        if head.len() == 0 {
            break;
        }
        if needs_extended_size(head.as_slice()) {
            let mut ext = match read_exact(&mut input, 8) {
                Ok(h) => h,
                Err(e) => return Err(e),
            };
            head.append(&mut ext);
        }
        let header = match BoxHeader::parse(head.as_slice(), 0) {
            Ok(h) => h,
            Err(e) => return Err(Error::Parse(e)),
        };
        let action = match scanner.box_action(header.box_type) {
            Ok(a) => a,
            Err(e) => return Err(Error::Parse(e)),
        };
        let stream_len: Option<u64> = match header.box_size {
            BoxSize::UntilEof => match input.stream_len() {
                Ok(l) => Some(l),
                Err(e) => return Err(Error::Io(e)),
            },
            _ => None,
        };
        let (body_size, end) = match box_extent(&header, pos, stream_len) {
            Ok(r) => r,
            Err(e) => return Err(Error::Parse(e)),
        };
        match action {
            BoxAction::Read => {
                let n = match read_len(body_size) {
                    Ok(n) => n,
                    Err(e) => return Err(Error::Parse(e)),
                };
                let body = match read_exact(&mut input, n) {
                    Ok(b) => b,
                    Err(e) => return Err(e),
                };
                match scanner.add_read(header.box_type, body_size, body) {
                    Ok(_) => {},
                    Err(e) => return Err(Error::Parse(e)),
                }
            },
            BoxAction::Skip => {
                match input.skip(body_size) {
                    Ok(_) => {},
                    Err(e) => return Err(io_error(e)),
                }
                match scanner.add_skipped(header.box_type, pos, end - pos) {
                    Ok(_) => {},
                    Err(e) => return Err(Error::Parse(e)),
                }
            },
        }
        pos = end;
    }
    proof {
        scanner.lemma_wf_state();
    }
    let ghost st = scanner.state();
    match scanner.finish() {
        Ok(s) => Ok(s),
        Err(e) => Err(Error::Parse(e)),
    }
}

} // verus!
