use mp4san::codec::{push_u32, push_u64, read_u32, read_u64, write_u32, FourCC, CO64, FREE, ISOM, MDAT, MOOV};
use mp4san::ftyp::FtypBox;
use mp4san::header::{BoxHeader, BoxSize};
use mp4san::layout::sanitize_boxes;
use mp4san::moov::MoovBox;
use mp4san::scan::{box_extent, read_len, BoxAction, Scanner};
use mp4san::{sanitize, ArrayEntry, BoundedArray, ByteCursor, InputSpan, ParseError, ReadBytes, Skip, UnboundedArray};

fn put_box(out: &mut Vec<u8>, ty: &[u8; 4], body: &[u8]) {
    BoxHeader::with_data_size(FourCC::from_bytes(*ty), body.len() as u64).unwrap().put_buf(out);
    out.extend_from_slice(body);
}

fn nest(ty_path: &[&[u8; 4]], leaf: Vec<u8>) -> Vec<u8> {
    let mut b = leaf;
    for ty in ty_path.iter().rev() {
        let mut outer = vec![];
        put_box(&mut outer, ty, &b);
        b = outer;
    }
    b
}

fn moov_body_co64(entries: &[u64]) -> Vec<u8> {
    let mut co = vec![0, 0, 0, 0];
    co.extend_from_slice(&(entries.len() as u32).to_be_bytes());
    for e in entries {
        co.extend_from_slice(&e.to_be_bytes());
    }
    let mut leaf = vec![];
    put_box(&mut leaf, b"co64", &co);
    nest(&[b"trak", b"mdia", b"minf", b"stbl"], leaf)
}

fn moov_body_stco(entries: &[u32]) -> Vec<u8> {
    let mut co = vec![0, 0, 0, 0];
    co.extend_from_slice(&(entries.len() as u32).to_be_bytes());
    for e in entries {
        co.extend_from_slice(&e.to_be_bytes());
    }
    let mut leaf = vec![];
    put_box(&mut leaf, b"stco", &co);
    nest(&[b"trak", b"mdia", b"minf", b"stbl"], leaf)
}

fn isom_ftyp() -> FtypBox {
    let isom = FourCC { value: ISOM };
    FtypBox::new(isom, 0, &vec![isom])
}

#[test]
fn big_endian_codec() {
    let mut v = vec![];
    push_u32(&mut v, 0x01020304);
    push_u64(&mut v, 0x0a0b0c0d0e0f1011);
    assert_eq!(v, [1, 2, 3, 4, 10, 11, 12, 13, 14, 15, 16, 17]);
    assert_eq!(read_u32(&v, 0), 0x01020304);
    assert_eq!(read_u64(&v, 4), 0x0a0b0c0d0e0f1011);
    write_u32(&mut v, 4, 0xdeadbeef);
    assert_eq!(read_u32(&v, 4), 0xdeadbeef);
    assert_eq!(FourCC::from_bytes(*b"moov"), FourCC { value: MOOV });
    assert_eq!(FourCC { value: MDAT }.to_bytes(), b"mdat");
}

#[test]
fn header_encodings() {
    let h = BoxHeader::with_data_size(FourCC { value: FREE }, 4).unwrap();
    assert_eq!(h.box_size, BoxSize::Size(12));
    let mut out = vec![];
    h.put_buf(&mut out);
    assert_eq!(out, [0, 0, 0, 12, b'f', b'r', b'e', b'e']);
    assert_eq!(BoxHeader::parse(&out, 0), Ok(h));

    let big = BoxHeader::with_data_size(FourCC { value: MDAT }, u32::MAX as u64).unwrap();
    assert_eq!(big.box_size, BoxSize::Ext(u32::MAX as u64 + 16));
    assert_eq!(big.encoded_len(), 16);
    let mut out = vec![];
    big.put_buf(&mut out);
    assert_eq!(BoxHeader::parse(&out, 0), Ok(big));
    assert_eq!(big.box_data_size(), Ok(Some(u32::MAX as u64)));

    let edge = BoxHeader::with_data_size(FourCC { value: MDAT }, u32::MAX as u64 - 8).unwrap();
    assert_eq!(edge.box_size, BoxSize::Size(u32::MAX));
    assert_eq!(BoxHeader::with_data_size(FourCC { value: MDAT }, u64::MAX - 15), Err(ParseError::InvalidInput));

    let eof = BoxHeader::until_eof(FourCC { value: MDAT });
    let mut out = vec![];
    eof.put_buf(&mut out);
    assert_eq!(out, [0, 0, 0, 0, b'm', b'd', b'a', b't']);
    assert_eq!(BoxHeader::parse(&out, 0), Ok(eof));
    assert_eq!(eof.box_data_size(), Ok(None));
}

#[test]
fn header_errors() {
    assert_eq!(BoxHeader::parse(&[0, 0, 0], 0), Err(ParseError::TruncatedBox));
    assert_eq!(BoxHeader::parse(&[0, 0, 0, 7, 1, 2, 3, 4], 0), Err(ParseError::InvalidInput));
    assert_eq!(BoxHeader::parse(&[0, 0, 0, 1, 1, 2, 3, 4, 0, 0], 0), Err(ParseError::TruncatedBox));
    let ext_small = [0, 0, 0, 1, 1, 2, 3, 4, 0, 0, 0, 0, 0, 0, 0, 15];
    assert_eq!(BoxHeader::parse(&ext_small, 0), Err(ParseError::InvalidInput));
}

#[test]
fn unbounded_array_entries() {
    let mut a = UnboundedArray::<u32>::from_entries(&vec![5, 6, 7]);
    assert_eq!(a.entry_count(), 3);
    assert_eq!(a.encoded_len(), 12);
    let got: Vec<u32> = a.entries().iter().map(|e| e.get().unwrap()).collect();
    assert_eq!(got, [5, 6, 7]);
    let mut entry = a.entry_mut(1);
    assert_eq!(entry.get(), Ok(6));
    entry.set(60);
    assert_eq!(entry.get(), Ok(60));
    let mut out = vec![];
    a.put_buf(&mut out);
    assert_eq!(out, [0, 0, 0, 5, 0, 0, 0, 60, 0, 0, 0, 7]);
    assert_eq!(UnboundedArray::<u64>::parse(vec![0; 12]).err(), Some(ParseError::InvalidInput));
}

#[test]
fn array_entry_reads_past_end() {
    let bytes = [0u8, 0, 0, 9, 1];
    assert_eq!(ArrayEntry::<u32>::new(&bytes, 0).get(), Ok(9));
    assert_eq!(ArrayEntry::<u32>::new(&bytes, 2).get(), Err(ParseError::TruncatedBox));
    assert_eq!(ArrayEntry::<u64>::new(&bytes, 0).get(), Err(ParseError::TruncatedBox));
}

#[test]
fn bounded_array_parse() {
    let a = BoundedArray::<u32, u64>::from_entries(&vec![1, u64::MAX]);
    assert_eq!(a.entry_count(), 2);
    let mut out = vec![];
    a.put_buf(&mut out);
    assert_eq!(out.len(), 20);
    assert_eq!(a.encoded_len(), 20);
    out.push(99);
    let (b, used) = BoundedArray::<u32, u64>::parse(&out).unwrap();
    assert_eq!(used, 20);
    let got: Vec<u64> = b.entries().iter().map(|e| e.get().unwrap()).collect();
    assert_eq!(got, [1, u64::MAX]);
    assert_eq!(BoundedArray::<u32, u32>::parse(&[0, 0, 0, 2, 0, 0, 0, 1]).err(), Some(ParseError::TruncatedBox));
    assert_eq!(BoundedArray::<u32, u32>::parse(&[0, 0]).err(), Some(ParseError::TruncatedBox));
    assert_eq!(
        BoundedArray::<u32, u64>::parse(&[0x20, 0, 0, 0]).err(),
        Some(ParseError::InvalidInput)
    );
}

#[test]
fn ftyp_brands() {
    let isom = FourCC { value: ISOM };
    let mp41 = FourCC::from_bytes(*b"mp41");
    let f = FtypBox::new(mp41, 7, &vec![mp41, isom]);
    assert_eq!(f.major_brand(), mp41);
    assert_eq!(f.minor_version(), 7);
    assert!(f.has_compatible_brand(isom));
    assert!(!FtypBox::new(isom, 0, &vec![mp41]).has_compatible_brand(isom));
    assert_eq!(FtypBox::parse(vec![0; 7]).err().unwrap_or(ParseError::InvalidBoxLayout), ParseError::TruncatedBox);
    assert_eq!(FtypBox::parse(vec![0; 10]).err().unwrap_or(ParseError::InvalidBoxLayout), ParseError::InvalidInput);
}

#[test]
fn moov_needs_a_track_with_a_table() {
    let mvhd_only = nest(&[b"mvhd"], vec![]);
    assert_eq!(MoovBox::parse(mvhd_only).err(), Some(ParseError::MissingRequiredBox(FourCC::from_bytes(*b"trak"))));
    let no_stbl = nest(&[b"trak", b"mdia", b"minf"], vec![]);
    assert_eq!(MoovBox::parse(no_stbl).err(), Some(ParseError::MissingRequiredBox(FourCC::from_bytes(*b"stbl"))));
    let no_co = nest(&[b"trak", b"mdia", b"minf", b"stbl"], vec![]);
    assert_eq!(MoovBox::parse(no_co).err(), Some(ParseError::MissingRequiredBox(FourCC::from_bytes(*b"stco"))));
    let mut short = moov_body_stco(&[1, 2]);
    let n = short.len();
    short.truncate(n - 1);
    assert!(MoovBox::parse(short).is_err());
    let two = [moov_body_stco(&[1]), moov_body_co64(&[2])].concat();
    assert_eq!(MoovBox::parse(two).unwrap().track_count(), 2);
}

#[test]
fn shifting_moves_each_entry() {
    let body = [moov_body_stco(&[100, 200]), moov_body_co64(&[300])].concat();
    let shifted = MoovBox::parse(body.clone()).unwrap().into_shifted(-50).unwrap();
    let expected = [moov_body_stco(&[50, 150]), moov_body_co64(&[250])].concat();
    assert_eq!(shifted, expected);
    assert_eq!(MoovBox::parse(body).unwrap().into_shifted(-150).err(), Some(ParseError::InvalidInput));
    let top = MoovBox::parse(moov_body_stco(&[u32::MAX - 1])).unwrap();
    assert_eq!(top.into_shifted(2).err(), Some(ParseError::InvalidInput));
}

#[test]
fn layout_pads_small_forward_gaps() {
    let moov = MoovBox::parse(moov_body_stco(&[200])).unwrap();
    let metadata_len = 20 + 8 + moov.data().len() as u64;
    let data = InputSpan { offset: metadata_len + 8, len: 10 };
    let s = sanitize_boxes(isom_ftyp(), moov, data).unwrap();
    assert_eq!(s.metadata.len() as u64, metadata_len + 8);
    assert_eq!(&s.metadata[metadata_len as usize..], &[0, 0, 0, 8, b'f', b'r', b'e', b'e']);
    assert_eq!(s.data, data);
}

#[test]
fn layout_displaces_when_gap_too_small() {
    let moov = MoovBox::parse(moov_body_stco(&[200])).unwrap();
    let metadata_len = 20 + 8 + moov.data().len() as u64;
    let data = InputSpan { offset: metadata_len + 4, len: 10 };
    let s = sanitize_boxes(isom_ftyp(), moov, data).unwrap();
    assert_eq!(s.metadata.len() as u64, metadata_len);
    let entry = read_u32(&s.metadata, s.metadata.len() - 4);
    assert_eq!(entry, 196);
}

#[test]
fn layout_refuses_far_displacement() {
    let moov = MoovBox::parse(moov_body_stco(&[200])).unwrap();
    let data = InputSpan { offset: 1 << 33, len: 10 };
    assert_eq!(sanitize_boxes(isom_ftyp(), moov, data).err(), Some(ParseError::UnsupportedBoxLayout));
}

#[test]
fn layout_refuses_total_past_address_space() {
    let moov = MoovBox::parse(moov_body_stco(&[])).unwrap();
    let data = InputSpan { offset: 0, len: u64::MAX - 10 };
    assert_eq!(sanitize_boxes(isom_ftyp(), moov, data).err(), Some(ParseError::InvalidInput));
}

#[test]
fn scanner_actions() {
    let mut s = Scanner::new();
    assert_eq!(s.box_action(FourCC { value: FREE }), Ok(BoxAction::Skip));
    assert_eq!(s.box_action(FourCC { value: MDAT }), Err(ParseError::InvalidBoxLayout));
    assert_eq!(s.add_read(FourCC::from_bytes(*b"ftyp"), 12, isom_ftyp().data().clone()), Ok(()));
    assert_eq!(s.box_action(FourCC { value: MDAT }), Ok(BoxAction::Skip));
    assert_eq!(s.box_action(FourCC { value: MOOV }), Ok(BoxAction::Read));
    assert_eq!(s.box_action(FourCC::from_bytes(*b"ftyp")), Err(ParseError::InvalidBoxLayout));
    assert_eq!(s.add_skipped(FourCC { value: FREE }, 5, 10), Ok(()));
    assert_eq!(s.add_skipped(FourCC { value: MDAT }, 100, 10), Ok(()));
    assert_eq!(s.add_skipped(FourCC { value: FREE }, 110, 5), Ok(()));
    assert_eq!(s.add_skipped(FourCC { value: FREE }, 200, 5), Ok(()));
    assert_eq!(s.add_skipped(FourCC { value: MDAT }, 200, 5), Err(ParseError::UnsupportedBoxLayout));
    assert_eq!(s.add_skipped(FourCC { value: MDAT }, 115, u64::MAX), Err(ParseError::InvalidInput));
    assert_eq!(s.add_read(FourCC { value: MOOV }, moov_body_stco(&[]).len() as u64, moov_body_stco(&[])), Ok(()));
    let out = s.finish().unwrap();
    assert_eq!(out.data, InputSpan { offset: 100, len: 15 });
}

#[test]
fn sanitized_output_starts_with_explicit_ftyp_and_moov() {
    let mut data = vec![];
    put_box(&mut data, b"ftyp", isom_ftyp().data());
    data.extend_from_slice(&[0, 0, 0, 8, b'm', b'd', b'a', b't']);
    data.extend_from_slice(&[0, 0, 0, 0, b'm', b'o', b'o', b'v']);
    data.extend_from_slice(&moov_body_stco(&[20]));
    let s = sanitize(ByteCursor::new(data)).unwrap();
    let ftyp = BoxHeader::parse(&s.metadata, 0).unwrap();
    assert_eq!(ftyp.box_type, FourCC::from_bytes(*b"ftyp"));
    assert_eq!(ftyp.box_size, BoxSize::Size(20));
    let moov = BoxHeader::parse(&s.metadata, 20).unwrap();
    assert_eq!(moov.box_type, FourCC { value: MOOV });
    assert_eq!(moov.box_size, BoxSize::Size(s.metadata.len() as u32 - 20));
    assert_eq!(read_u32(&s.metadata, s.metadata.len() - 4), s.metadata.len() as u32);
}

#[test]
fn padded_output_sanitizes_to_itself() {
    let mut data = vec![];
    put_box(&mut data, b"ftyp", isom_ftyp().data());
    let moov = moov_body_stco(&[0]);
    let gap = 30usize;
    let mdat_at = (20 + 8 + moov.len() + gap) as u32;
    let mut moov_box = vec![];
    put_box(&mut moov_box, b"moov", &moov_body_stco(&[mdat_at + 8]));
    data.extend_from_slice(&moov_box);
    put_box(&mut data, b"free", &vec![1; gap - 8]);
    put_box(&mut data, b"mdat", b"payload");
    let s = sanitize(ByteCursor::new(data.clone())).unwrap();
    assert_eq!(s.metadata.len() as u64 + s.data.len, data.len() as u64);
    let out = [&s.metadata[..], &data[s.data.offset as usize..]].concat();
    let again = sanitize(ByteCursor::new(out)).unwrap();
    assert_eq!(again.metadata, s.metadata);
    assert_eq!(again.data, s.data);
}

#[test]
fn co64_tables_are_displaced() {
    let mut data = vec![];
    put_box(&mut data, b"ftyp", isom_ftyp().data());
    put_box(&mut data, b"mdat", b"xy");
    let mut moov_box = vec![];
    put_box(&mut moov_box, b"moov", &moov_body_co64(&[28]));
    data.extend_from_slice(&moov_box);
    let s = sanitize(ByteCursor::new(data)).unwrap();
    assert_eq!(s.data, InputSpan { offset: 20, len: 10 });
    let n = s.metadata.len();
    assert_eq!(read_u64(&s.metadata, n - 8), 28 + n as u64 - 20);
    assert_eq!(FourCC::from_bytes([s.metadata[n - 20], s.metadata[n - 19], s.metadata[n - 18], s.metadata[n - 17]]), FourCC { value: CO64 });
}

#[test]
fn byte_cursor_reads_and_skips() {
    let mut c = ByteCursor::new(vec![1, 2, 3, 4, 5]);
    assert_eq!(c.read_bytes(2).unwrap(), [1, 2]);
    c.skip(1).unwrap();
    assert_eq!(c.stream_position().unwrap(), 3);
    assert_eq!(c.read_bytes(10).unwrap(), [4, 5]);
    assert_eq!(c.read_bytes(10).unwrap(), Vec::<u8>::new());
    c.skip(100).unwrap();
    assert_eq!(c.read_bytes(1).unwrap(), Vec::<u8>::new());
    assert_eq!(c.stream_len().unwrap(), 5);
}

#[test]
fn in_memory_minimal_stream() {
    let data = [mp4san::example_ftyp(), mp4san::example_mdat(), mp4san::example_moov()].concat();
    let s = mp4san::sanitize_bytes(&data).unwrap();
    assert_eq!(s.metadata, [mp4san::example_ftyp(), mp4san::example_moov()].concat());
    assert_eq!(s.data, InputSpan { offset: 20, len: 8 });
}

#[test]
fn in_memory_errors() {
    let ftyp = mp4san::example_ftyp();
    let mdat = mp4san::example_mdat();
    let moov = mp4san::example_moov();
    let discontiguous = [&ftyp[..], &mdat[..], &moov[..], &mdat[..]].concat();
    assert_eq!(mp4san::sanitize_bytes(&discontiguous).err(), Some(ParseError::UnsupportedBoxLayout));
    let mut truncated_moov = [&ftyp[..], &mdat[..], &moov[..]].concat();
    truncated_moov.truncate(truncated_moov.len() - 1);
    assert_eq!(mp4san::sanitize_bytes(&truncated_moov).err(), Some(ParseError::TruncatedBox));
    assert_eq!(
        mp4san::sanitize_bytes(&[]).err(),
        Some(ParseError::MissingRequiredBox(FourCC::from_bytes(*b"ftyp")))
    );
}

#[test]
fn in_memory_agrees_with_stream() {
    let mut data = mp4san::example_ftyp();
    put_box(&mut data, b"mdat", b"abcdefg");
    let mut moov_box = vec![];
    put_box(&mut moov_box, b"moov", &moov_body_stco(&[28]));
    data.extend_from_slice(&moov_box);
    let a = mp4san::sanitize_bytes(&data).unwrap();
    let b = sanitize(ByteCursor::new(data)).unwrap();
    assert_eq!(a, b);
}

#[test]
fn in_memory_round_trip_keeps_metadata() {
    let mut data = mp4san::example_ftyp();
    put_box(&mut data, b"mdat", b"abcdefg");
    put_box(&mut data, b"free", b"..");
    let mut moov_box = vec![];
    put_box(&mut moov_box, b"moov", &moov_body_stco(&[28]));
    data.extend_from_slice(&moov_box);
    let s = mp4san::sanitize_bytes(&data).unwrap();
    assert_eq!(s.data, InputSpan { offset: 20, len: 25 });
    let out = [&s.metadata[..], &data[20..45]].concat();
    let again = mp4san::sanitize_bytes(&out).unwrap();
    assert_eq!(again.metadata, s.metadata);
    assert_eq!(again.data, InputSpan { offset: s.metadata.len() as u64, len: 25 });
}

#[test]
fn set_entry_overwrites_one_entry() {
    let mut a = UnboundedArray::<u64>::from_entries(&vec![1, 2, 3]);
    a.set_entry(2, 30);
    let got: Vec<u64> = a.entries().iter().map(|e| e.get().unwrap()).collect();
    assert_eq!(got, [1, 2, 30]);
    assert_eq!(a.entry_count(), 3);
    let mut b = BoundedArray::<u32, u32>::from_entries(&vec![4, 5]);
    b.set_entry(0, 40);
    {
        let mut e = b.entry_mut(1);
        e.set(50);
    }
    let got: Vec<u32> = b.entries().iter().map(|e| e.get().unwrap()).collect();
    assert_eq!(got, [40, 50]);
    assert_eq!(b.entry_count(), 2);
}

#[test]
fn box_extent_sizes() {
    let mdat = FourCC { value: MDAT };
    let explicit = BoxHeader::with_data_size(mdat, 10).unwrap();
    assert_eq!(box_extent(&explicit, 100, None), Ok((10, 118)));
    let eof = BoxHeader::until_eof(mdat);
    assert_eq!(box_extent(&eof, 100, Some(150)), Ok((42, 150)));
    assert_eq!(box_extent(&eof, 100, Some(107)), Err(ParseError::TruncatedBox));
    let big = BoxHeader::with_data_size(mdat, u64::MAX - 16).unwrap();
    assert_eq!(box_extent(&big, 0, None), Ok((u64::MAX - 16, u64::MAX)));
    assert_eq!(box_extent(&big, 1, None), Err(ParseError::InvalidInput));
    assert_eq!(box_extent(&explicit, u64::MAX - 4, None), Err(ParseError::InvalidInput));
}

#[test]
fn read_len_caps_bodies() {
    assert_eq!(read_len(200 * 1024 * 1024), Ok(200 * 1024 * 1024));
    assert_eq!(read_len(200 * 1024 * 1024 + 1), Err(ParseError::BoxDataTooLarge(200 * 1024 * 1024 + 1)));
}

#[test]
fn short_body_is_truncated() {
    let mut s = Scanner::new();
    let body = isom_ftyp().data().clone();
    assert_eq!(s.add_read(FourCC::from_bytes(*b"ftyp"), 16, body), Err(ParseError::TruncatedBox));
    let mut data = mp4san::example_ftyp();
    data.extend_from_slice(&mp4san::example_moov()[..40]);
    assert!(matches!(sanitize(ByteCursor::new(data)), Err(mp4san::Error::Parse(ParseError::TruncatedBox))));
}

#[test]
fn second_chunk_offset_table_is_refused() {
    let mut stco = vec![0, 0, 0, 0, 0, 0, 0, 1];
    stco.extend_from_slice(&28u32.to_be_bytes());
    let mut co64 = vec![0, 0, 0, 0, 0, 0, 0, 1];
    co64.extend_from_slice(&28u64.to_be_bytes());
    let mut leaf = vec![];
    put_box(&mut leaf, b"stco", &stco);
    put_box(&mut leaf, b"co64", &co64);
    let moov_body = nest(&[b"trak", b"mdia", b"minf", b"stbl"], leaf);
    assert_eq!(MoovBox::parse(moov_body.clone()).err(), Some(ParseError::InvalidInput));
    let mut data = mp4san::example_ftyp();
    put_box(&mut data, b"mdat", b"abcdefg");
    put_box(&mut data, b"moov", &moov_body);
    assert_eq!(mp4san::sanitize_bytes(&data).err(), Some(ParseError::InvalidInput));
    assert!(matches!(sanitize(ByteCursor::new(data)), Err(mp4san::Error::Parse(ParseError::InvalidInput))));
}

#[test]
fn second_media_box_is_refused() {
    let mut leaf = vec![];
    put_box(&mut leaf, b"stco", &[0; 8]);
    let mdia = nest(&[b"mdia", b"minf", b"stbl"], leaf);
    let trak = nest(&[b"trak"], [mdia.clone(), mdia].concat());
    assert_eq!(MoovBox::parse(trak).err(), Some(ParseError::InvalidInput));
}
