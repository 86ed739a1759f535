use std::io;

use mp4san::codec::{FourCC, FREE, FTYP, ISOM, MDAT, MOOV};
use mp4san::ftyp::FtypBox;
use mp4san::header::BoxHeader;
use mp4san::{sanitize, ByteCursor, Error, InputSpan, ParseError, ReadBytes, SanitizedMetadata, Skip};

fn fourcc(b: &[u8; 4]) -> FourCC {
    FourCC::from_bytes(*b)
}

fn put_box(out: &mut Vec<u8>, ty: &[u8; 4], body: &[u8]) {
    BoxHeader::with_data_size(fourcc(ty), body.len() as u64).unwrap().put_buf(out);
    out.extend_from_slice(body);
}

fn test_ftyp() -> Vec<u8> {
    let brand = FourCC { value: ISOM };
    let ftyp = FtypBox::new(brand, 0, &vec![brand]);
    let mut out = vec![];
    put_box(&mut out, b"ftyp", ftyp.data());
    out
}

fn test_moov(entries: &[u32]) -> Vec<u8> {
    let mut stco = vec![0, 0, 0, 0];
    stco.extend_from_slice(&(entries.len() as u32).to_be_bytes());
    for e in entries {
        stco.extend_from_slice(&e.to_be_bytes());
    }
    let mut b = vec![];
    put_box(&mut b, b"stco", &stco);
    for ty in [b"stbl", b"minf", b"mdia", b"trak", b"moov"] {
        let mut outer = vec![];
        put_box(&mut outer, ty, &b);
        b = outer;
    }
    b
}

fn write_test_mdat(out: &mut Vec<u8>, data: &[u8]) -> InputSpan {
    let mut span = write_mdat_header(out, Some(data.len() as u64));
    out.extend_from_slice(data);
    span.len += data.len() as u64;
    span
}

fn write_mdat_header(out: &mut Vec<u8>, data_len: Option<u64>) -> InputSpan {
    let offset = out.len() as u64;
    let header = match data_len {
        Some(data_len) => BoxHeader::with_data_size(FourCC { value: MDAT }, data_len).unwrap(),
        None => BoxHeader::until_eof(FourCC { value: MDAT }),
    };
    header.put_buf(out);
    InputSpan { offset, len: out.len() as u64 - offset }
}

fn sanitized_data(sanitized: SanitizedMetadata, data: &[u8]) -> Vec<u8> {
    let mdat = &data[sanitized.data.offset as usize..][..sanitized.data.len as usize];
    [&sanitized.metadata[..], mdat].concat()
}

fn cursor(data: &[u8]) -> ByteCursor {
    ByteCursor::new(data.to_vec())
}

#[derive(Clone, Copy, PartialEq)]
enum Top {
    Moov,
    Mdat,
}

struct TestMp4Spec {
    mdat_data: Vec<u8>,
    mdat_data_len: Option<Option<u64>>,
    boxes: Vec<Top>,
}

#[derive(Clone)]
struct TestMp4 {
    data: Vec<u8>,
    read_pos: usize,
    data_len: u64,
    metadata: Vec<u8>,
    mdat: InputSpan,
    mdat_skipped: u64,
}

fn test_mp4() -> TestMp4Spec {
    TestMp4Spec { mdat_data: vec![], mdat_data_len: None, boxes: vec![Top::Moov, Top::Mdat] }
}

impl TestMp4Spec {
    fn mdat_data(mut self, data: &[u8]) -> Self {
        self.mdat_data = data.to_vec();
        self
    }

    fn mdat_data_len(mut self, len: u64) -> Self {
        self.mdat_data_len = Some(Some(len));
        self
    }

    fn mdat_data_until_eof(mut self) -> Self {
        self.mdat_data_len = Some(None);
        self
    }

    fn boxes(mut self, boxes: &[Top]) -> Self {
        self.boxes = boxes.to_vec();
        self
    }

    fn build(&self) -> TestMp4 {
        let mdat_data_len = self.mdat_data_len.unwrap_or(Some(self.mdat_data.len() as u64));
        let mut data = test_ftyp();
        let mut mdat = None;
        let mut moovs = Vec::new();
        let mut stco_entries = [0u32];
        for top in &self.boxes {
            match top {
                Top::Moov => {
                    moovs.push(data.len());
                    data.extend_from_slice(&test_moov(&stco_entries));
                }
                Top::Mdat => {
                    let written = write_mdat_header(&mut data, mdat_data_len);
                    data.extend_from_slice(&self.mdat_data);
                    let len = mdat_data_len.unwrap_or(self.mdat_data.len() as u64);
                    mdat = Some(InputSpan { len: written.len.saturating_add(len), ..written });
                }
            }
        }
        let mdat = mdat.unwrap();
        for e in &mut stco_entries {
            *e += mdat.offset as u32;
        }
        let mut metadata = test_ftyp();
        for moov in moovs {
            let bytes = test_moov(&stco_entries);
            data[moov..moov + bytes.len()].copy_from_slice(&bytes);
            metadata.extend_from_slice(&bytes);
        }
        TestMp4 { data_len: data.len() as u64, data, read_pos: 0, metadata, mdat, mdat_skipped: 0 }
    }
}

impl ReadBytes for TestMp4 {
    fn read_bytes(&mut self, max: usize) -> io::Result<Vec<u8>> {
        let end = self.data.len().min(self.read_pos.saturating_add(max));
        let out = self.data[self.read_pos..end].to_vec();
        self.read_pos = end;
        Ok(out)
    }
}

impl Skip for TestMp4 {
    fn skip(&mut self, amount: u64) -> io::Result<()> {
        let remaining = self.data.len() - self.read_pos;
        let advance_amount = remaining.min(amount as usize);
        self.read_pos += advance_amount;

        let skip_amount = amount.saturating_sub(advance_amount as u64);
        let mdat_end = self.mdat.offset.saturating_add(self.mdat.len);
        let mdat_skip_max = mdat_end.saturating_sub(self.data_len);
        match self.mdat_skipped.checked_add(skip_amount) {
            Some(mdat_skipped) if mdat_skipped <= mdat_skip_max => {
                self.mdat_skipped = mdat_skipped;
                Ok(())
            }
            _ => Err(io::Error::new(io::ErrorKind::UnexpectedEof, "test skipped past u64 limit")),
        }
    }

    fn stream_position(&mut self) -> io::Result<u64> {
        Ok(self.read_pos as u64 + self.mdat_skipped)
    }

    fn stream_len(&mut self) -> io::Result<u64> {
        Ok(self.data_len.max(self.mdat.offset + self.mdat.len))
    }
}

fn parse_error(r: Result<SanitizedMetadata, Error>) -> ParseError {
    match r {
        Err(Error::Parse(e)) => e,
        Err(Error::Io(e)) => panic!("unexpected I/O error {e}"),
        Ok(s) => panic!("unexpected success {s:?}"),
    }
}

#[test]
fn until_eof_sized_moov() {
    let mut data = vec![];
    let mut metadata = vec![];
    data.extend_from_slice(&test_ftyp());
    metadata.extend_from_slice(&test_ftyp());
    let mdat = write_test_mdat(&mut data, b"abcdefg");

    let moov_pos = data.len();
    data.extend_from_slice(&test_moov(&[]));
    metadata.extend_from_slice(&test_moov(&[]));
    let mut eof_header = vec![];
    BoxHeader::until_eof(FourCC { value: MOOV }).put_buf(&mut eof_header);
    data[moov_pos..moov_pos + 8].copy_from_slice(&eof_header);

    let sanitized = sanitize(cursor(&data)).unwrap();
    assert_eq!(sanitized.data, mdat);
    assert_eq!(sanitized.metadata, metadata);
    sanitize(cursor(&sanitized_data(sanitized, &data))).unwrap();
}

#[test]
fn until_eof_sized_mdat() {
    let test = test_mp4().mdat_data(b"abcdefg").mdat_data_until_eof().build();
    let mdat = test.mdat;
    let data = test.data.clone();
    let metadata = test.metadata.clone();
    let sanitized = sanitize(test).unwrap();
    assert_eq!(sanitized.data, mdat);
    assert_eq!(sanitized.metadata, metadata);
    sanitize(cursor(&sanitized_data(sanitized, &data))).unwrap();
}

#[test]
fn skip() {
    let test = test_mp4().mdat_data(b"abcdefg").build();
    let mdat = test.mdat;
    let data = test.data.clone();
    let metadata = test.metadata.clone();
    let sanitized = sanitize(test).unwrap();
    assert_eq!(sanitized.data, mdat);
    assert_eq!(sanitized.metadata, metadata);
    sanitize(cursor(&sanitized_data(sanitized, &data))).unwrap();
}

#[test]
fn max_input_length() {
    let test = test_mp4().mdat_data_len(u64::MAX - 16).build();
    let test = test_mp4().mdat_data_len(u64::MAX - test.data.len() as u64).build();
    let mdat = test.mdat;
    let metadata = test.metadata.clone();
    let sanitized = sanitize(test).unwrap();
    assert_eq!(sanitized.data, mdat);
    assert_eq!(sanitized.data.offset + sanitized.data.len, u64::MAX);
    assert_eq!(sanitized.metadata, metadata);
}

#[test]
fn input_length_overflow() {
    let test = test_mp4().mdat_data_len(u64::MAX - 16).build();
    let test = test_mp4().mdat_data_len(u64::MAX - test.data.len() as u64 + 1).build();
    sanitize(test).unwrap_err();
}

#[test]
fn box_size_overflow() {
    let test = test_mp4().mdat_data_len(u64::MAX - 16).build();
    sanitize(test).unwrap_err();
}

#[test]
fn mdat_before_moov() {
    let test = test_mp4().boxes(&[Top::Mdat, Top::Moov]).build();
    let data = test.data.clone();
    let metadata = test.metadata.clone();
    let sanitized = sanitize(test).unwrap();
    assert_ne!(sanitized.metadata, metadata);
    sanitize(cursor(&sanitized_data(sanitized, &data))).unwrap();
}

#[test]
fn overflowing_mdat_is_invalid_input() {
    let test = test_mp4().mdat_data_len(u64::MAX - 16).build();
    let test = test_mp4().mdat_data_len(u64::MAX - test.data.len() as u64 + 1).build();
    assert_eq!(parse_error(sanitize(test)), ParseError::InvalidInput);
}

#[test]
fn minimal_stream() {
    let ftyp = mp4san::example_ftyp();
    let mdat = mp4san::example_mdat();
    let moov = mp4san::example_moov();
    let data = [&ftyp[..], &mdat[..], &moov[..]].concat();
    let sanitized = sanitize(cursor(&data)).unwrap();
    assert_eq!(sanitized.metadata, [&ftyp[..], &moov[..]].concat());
    assert_eq!(sanitized.data, InputSpan { offset: 20, len: 8 });
}

#[test]
fn payload_before_moov_is_displaced() {
    let mut data = test_ftyp();
    assert_eq!(data.len(), 20);
    let mdat = write_test_mdat(&mut data, b"abcdefg");
    data.extend_from_slice(&test_moov(&[28]));
    let sanitized = sanitize(cursor(&data)).unwrap();
    let metadata_len = sanitized.metadata.len() as u32;
    assert_eq!(sanitized.data, mdat);
    assert_eq!(sanitized.metadata, [test_ftyp(), test_moov(&[28 + metadata_len - 20])].concat());
    let out = sanitized_data(sanitized.clone(), &data);
    assert_eq!(&out[metadata_len as usize + 8..], b"abcdefg");
    let again = sanitize(cursor(&out)).unwrap();
    assert_eq!(again.metadata, sanitized.metadata);
}

#[test]
fn until_eof_mdat_after_moov() {
    let moov = test_moov(&[0]);
    let offset = (20 + moov.len()) as u32;
    let mut data = test_ftyp();
    data.extend_from_slice(&test_moov(&[offset + 8]));
    write_mdat_header(&mut data, None);
    data.extend_from_slice(b"abcdefg");
    let sanitized = sanitize(cursor(&data)).unwrap();
    assert_eq!(sanitized.data, InputSpan { offset: offset as u64, len: 15 });
    assert_eq!(sanitized.metadata, [test_ftyp(), test_moov(&[offset + 8])].concat());
}

#[test]
fn contiguous_mdat_and_free_form_one_span() {
    let mut data = test_ftyp();
    data.extend_from_slice(&test_moov(&[]));
    let start = data.len() as u64;
    write_test_mdat(&mut data, b"abc");
    put_box(&mut data, b"free", b"zz");
    write_test_mdat(&mut data, b"defg");
    let sanitized = sanitize(cursor(&data)).unwrap();
    assert_eq!(sanitized.data, InputSpan { offset: start, len: 11 + 10 + 12 });
}

#[test]
fn discontiguous_mdat_is_refused() {
    let mut data = test_ftyp();
    write_test_mdat(&mut data, b"abc");
    data.extend_from_slice(&test_moov(&[]));
    write_test_mdat(&mut data, b"def");
    assert_eq!(parse_error(sanitize(cursor(&data))), ParseError::UnsupportedBoxLayout);
}

#[test]
fn missing_compatible_brand_is_refused() {
    let mp41 = fourcc(b"mp41");
    let ftyp = FtypBox::new(mp41, 0, &vec![mp41]);
    let mut data = vec![];
    put_box(&mut data, b"ftyp", ftyp.data());
    data.extend_from_slice(&mp4san::example_mdat());
    data.extend_from_slice(&mp4san::example_moov());
    assert_eq!(parse_error(sanitize(cursor(&data))), ParseError::UnsupportedFormat(mp41));
}

#[test]
fn free_before_ftyp_is_skipped() {
    let mut data = vec![];
    put_box(&mut data, b"free", &[0; 4]);
    data.extend_from_slice(&mp4san::example_ftyp());
    data.extend_from_slice(&mp4san::example_moov());
    data.extend_from_slice(&mp4san::example_mdat());
    let sanitized = sanitize(cursor(&data)).unwrap();
    assert_eq!(sanitized.data, InputSpan { offset: 96, len: 8 });
    assert_eq!(sanitized.metadata.len(), 96);
    assert_eq!(&sanitized.metadata[..84], &[mp4san::example_ftyp(), mp4san::example_moov()].concat()[..]);
    assert_eq!(&sanitized.metadata[84..92], &[0, 0, 0, 12, b'f', b'r', b'e', b'e']);
}

#[test]
fn gap_before_payload_is_padded() {
    let mut data = mp4san::example_ftyp();
    data.extend_from_slice(&mp4san::example_moov());
    put_box(&mut data, b"free", &[7; 12]);
    data.extend_from_slice(&mp4san::example_mdat());
    let sanitized = sanitize(cursor(&data)).unwrap();
    assert_eq!(sanitized.data, InputSpan { offset: 104, len: 8 });
    let mut expected = [mp4san::example_ftyp(), mp4san::example_moov()].concat();
    expected.extend_from_slice(&[0, 0, 0, 20]);
    expected.extend_from_slice(b"free");
    expected.extend_from_slice(&[0; 12]);
    assert_eq!(sanitized.metadata, expected);
}

#[test]
fn second_ftyp_is_refused() {
    let mut data = mp4san::example_ftyp();
    data.extend_from_slice(&mp4san::example_ftyp());
    assert_eq!(parse_error(sanitize(cursor(&data))), ParseError::InvalidBoxLayout);
}

#[test]
fn box_before_ftyp_is_refused() {
    let mut data = mp4san::example_mdat();
    data.extend_from_slice(&mp4san::example_ftyp());
    assert_eq!(parse_error(sanitize(cursor(&data))), ParseError::InvalidBoxLayout);
}

#[test]
fn unknown_box_is_refused() {
    let mut data = mp4san::example_ftyp();
    put_box(&mut data, b"abcd", &[]);
    assert_eq!(parse_error(sanitize(cursor(&data))), ParseError::UnsupportedBox(fourcc(b"abcd")));
}

#[test]
fn missing_boxes_are_reported() {
    let ftyp = mp4san::example_ftyp();
    assert_eq!(parse_error(sanitize(cursor(&[]))), ParseError::MissingRequiredBox(FourCC { value: FTYP }));
    let r = sanitize(cursor(&[&ftyp[..], &mp4san::example_mdat()[..]].concat()));
    assert_eq!(parse_error(r), ParseError::MissingRequiredBox(FourCC { value: MOOV }));
    let r = sanitize(cursor(&[&ftyp[..], &mp4san::example_moov()[..]].concat()));
    assert_eq!(parse_error(r), ParseError::MissingRequiredBox(FourCC { value: MDAT }));
}

#[test]
fn truncated_header_is_refused() {
    let mut data = mp4san::example_ftyp();
    data.extend_from_slice(&[0, 0, 0]);
    assert_eq!(parse_error(sanitize(cursor(&data))), ParseError::TruncatedBox);
}

#[test]
fn short_size_is_invalid() {
    let mut data = mp4san::example_ftyp();
    data.extend_from_slice(&[0, 0, 0, 5]);
    data.extend_from_slice(b"free");
    assert_eq!(parse_error(sanitize(cursor(&data))), ParseError::InvalidInput);
}

#[test]
fn free_is_a_known_type() {
    assert_eq!(fourcc(b"free"), FourCC { value: FREE });
}
