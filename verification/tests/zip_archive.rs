use xteink_x4::zip::{inflate_outcome, read_u16, read_u32, ZipArchive, ZipError};
use xteink_x4::zip_stream::{ReadAt, SliceReader, ZipStream};

struct Entry<'a> {
    name: &'a [u8],
    method: u16,
    payload: &'a [u8],
    uncompressed: u32,
}

fn push_u16(bytes: &mut Vec<u8>, value: u16) {
    bytes.extend_from_slice(&value.to_le_bytes());
}

fn push_u32(bytes: &mut Vec<u8>, value: u32) {
    bytes.extend_from_slice(&value.to_le_bytes());
}

fn build_zip(entries: &[Entry]) -> Vec<u8> {
    let mut bytes = Vec::new();
    let mut central = Vec::new();
    let mut offsets = Vec::new();
    for e in entries {
        offsets.push(bytes.len() as u32);
        push_u32(&mut bytes, 0x0403_4b50);
        push_u16(&mut bytes, 20);
        push_u16(&mut bytes, 0);
        push_u16(&mut bytes, e.method);
        push_u16(&mut bytes, 0);
        push_u16(&mut bytes, 0);
        push_u32(&mut bytes, 0);
        push_u32(&mut bytes, e.payload.len() as u32);
        push_u32(&mut bytes, e.uncompressed);
        push_u16(&mut bytes, e.name.len() as u16);
        push_u16(&mut bytes, 0);
        bytes.extend_from_slice(e.name);
        bytes.extend_from_slice(e.payload);
    }
    for (e, offset) in entries.iter().zip(offsets.iter()) {
        push_u32(&mut central, 0x0201_4b50);
        push_u16(&mut central, 20);
        push_u16(&mut central, 20);
        push_u16(&mut central, 0);
        push_u16(&mut central, e.method);
        push_u16(&mut central, 0);
        push_u16(&mut central, 0);
        push_u32(&mut central, 0);
        push_u32(&mut central, e.payload.len() as u32);
        push_u32(&mut central, e.uncompressed);
        push_u16(&mut central, e.name.len() as u16);
        push_u16(&mut central, 0);
        push_u16(&mut central, 0);
        push_u16(&mut central, 0);
        push_u16(&mut central, 0);
        push_u32(&mut central, 0);
        push_u32(&mut central, *offset);
        central.extend_from_slice(e.name);
    }
    let central_offset = bytes.len() as u32;
    let central_size = central.len() as u32;
    bytes.extend_from_slice(&central);
    push_u32(&mut bytes, 0x0605_4b50);
    push_u16(&mut bytes, 0);
    push_u16(&mut bytes, 0);
    push_u16(&mut bytes, entries.len() as u16);
    push_u16(&mut bytes, entries.len() as u16);
    push_u32(&mut bytes, central_size);
    push_u32(&mut bytes, central_offset);
    push_u16(&mut bytes, 0);
    bytes
}

/// A raw DEFLATE stream holding `data` in one final stored block.
fn stored_block(data: &[u8]) -> Vec<u8> {
    let len = data.len() as u16;
    let mut out = vec![0x01];
    out.extend_from_slice(&len.to_le_bytes());
    out.extend_from_slice(&(!len).to_le_bytes());
    out.extend_from_slice(data);
    out
}

fn stored(name: &'static str, data: &'static [u8]) -> Entry<'static> {
    Entry { name: name.as_bytes(), method: 0, payload: data, uncompressed: data.len() as u32 }
}

#[test]
fn reads_little_endian_fields() {
    let bytes = [0x34, 0x12, 0x78, 0x56, 0x9a];
    assert_eq!(read_u16(&bytes, 0), Ok(0x1234));
    assert_eq!(read_u32(&bytes, 0), Ok(0x5678_1234));
    assert_eq!(read_u32(&bytes, 1), Ok(0x9a56_7812));
    assert_eq!(read_u16(&bytes, 4), Err(ZipError::BadCentralDirectory));
    assert_eq!(read_u32(&bytes, 2), Err(ZipError::BadCentralDirectory));
}

#[test]
fn lists_entries_in_order() {
    let zip = build_zip(&[stored("a.txt", b"one"), stored("b/c.txt", b"two")]);
    let archive = ZipArchive::new(&zip).expect("zip parses");
    let mut entries = archive.entries();
    let first = entries.next().expect("first").expect("well-formed");
    assert_eq!(first.name, "a.txt");
    assert_eq!(first.compressed_size, 3);
    let second = entries.next().expect("second").expect("well-formed");
    assert_eq!(second.name, "b/c.txt");
    assert!(entries.next().is_none());
}

#[test]
fn finds_the_first_entry_with_a_name() {
    let zip = build_zip(&[stored("x", b"first"), stored("x", b"second!")]);
    let archive = ZipArchive::new(&zip).expect("zip parses");
    let entry = archive.find("x").expect("found");
    assert_eq!(entry.compressed_size, 5);
}

#[test]
fn rejects_a_directory_past_the_end() {
    let mut zip = build_zip(&[stored("a", b"1")]);
    let n = zip.len();
    // central directory offset points past the data
    zip[n - 6..n - 2].copy_from_slice(&0xffff_u32.to_le_bytes());
    assert_eq!(ZipArchive::new(&zip).err(), Some(ZipError::BadCentralDirectory));
}

#[test]
fn a_malformed_header_ends_the_listing() {
    let mut zip = build_zip(&[stored("a", b"1"), stored("b", b"2")]);
    let archive = ZipArchive::new(&zip).expect("zip parses");
    let first = archive.entries().next().unwrap().unwrap();
    assert_eq!(first.name, "a");
    // break the signature of the second central header
    let second_header = zip.len() - 22 - 47;
    zip[second_header] = 0;
    let archive = ZipArchive::new(&zip).expect("zip parses");
    let mut entries = archive.entries();
    assert!(entries.next().unwrap().is_ok());
    assert_eq!(entries.next(), Some(Err(ZipError::BadCentralDirectory)));
    assert_eq!(entries.next(), None);
    assert_eq!(archive.find("b"), Err(ZipError::EntryNotFound));
}

#[test]
fn rejects_names_that_are_not_utf8() {
    let zip = build_zip(&[Entry { name: &[0xff, 0xfe], method: 0, payload: b"x", uncompressed: 1 }]);
    let archive = ZipArchive::new(&zip).expect("zip parses");
    assert_eq!(archive.entries().next(), Some(Err(ZipError::BadCentralDirectory)));
}

#[test]
fn rejects_names_that_are_too_long() {
    let long = [b'a'; 161];
    let zip = build_zip(&[Entry { name: &long, method: 0, payload: b"x", uncompressed: 1 }]);
    let archive = ZipArchive::new(&zip).expect("zip parses");
    assert_eq!(archive.entries().next(), Some(Err(ZipError::NameTooLong)));
    let ok = [b'a'; 160];
    let zip = build_zip(&[Entry { name: &ok, method: 0, payload: b"x", uncompressed: 1 }]);
    let archive = ZipArchive::new(&zip).expect("zip parses");
    assert!(archive.entries().next().unwrap().is_ok());
}

#[test]
fn stored_read_needs_room() {
    let zip = build_zip(&[stored("a", b"hello")]);
    let archive = ZipArchive::new(&zip).expect("zip parses");
    let entry = archive.find("a").unwrap();
    let mut small = [0u8; 4];
    assert_eq!(archive.read_entry(entry, &mut small), Err(ZipError::OutputTooSmall));
    let mut exact = [0u8; 5];
    assert_eq!(archive.read_entry(entry, &mut exact), Ok(5));
    assert_eq!(&exact, b"hello");
}

#[test]
fn rejects_a_bad_local_header() {
    let mut zip = build_zip(&[stored("a", b"hello")]);
    zip[0] = 0;
    let archive = ZipArchive::new(&zip).expect("zip parses");
    let entry = archive.find("a").unwrap();
    let mut out = [0u8; 8];
    assert_eq!(archive.read_entry(entry, &mut out), Err(ZipError::BadLocalHeader));
}

#[test]
fn rejects_unknown_compression() {
    let zip = build_zip(&[Entry { name: b"a", method: 12, payload: b"xx", uncompressed: 2 }]);
    let archive = ZipArchive::new(&zip).expect("zip parses");
    let entry = archive.find("a").unwrap();
    let mut out = [0u8; 8];
    assert_eq!(archive.read_entry(entry, &mut out), Err(ZipError::UnsupportedCompression));
}

#[test]
fn inflates_a_deflated_entry() {
    let block = stored_block(b"deflated text");
    let zip = build_zip(&[Entry { name: b"d", method: 8, payload: &block, uncompressed: 13 }]);
    let archive = ZipArchive::new(&zip).expect("zip parses");
    let entry = archive.find("d").unwrap();
    let mut out = [0u8; 32];
    let n = archive.read_entry(entry, &mut out).expect("inflates");
    assert_eq!(&out[..n], b"deflated text");
}

#[test]
fn reports_a_broken_deflate_stream() {
    let garbage = [0xffu8, 0xff, 0xff, 0xff];
    let zip = build_zip(&[Entry { name: b"d", method: 8, payload: &garbage, uncompressed: 4 }]);
    let archive = ZipArchive::new(&zip).expect("zip parses");
    let entry = archive.find("d").unwrap();
    let mut out = [0u8; 32];
    assert_eq!(archive.read_entry(entry, &mut out), Err(ZipError::Inflate));
}

#[test]
fn maps_inflate_failures() {
    assert_eq!(inflate_outcome(Ok(7)), Ok(7));
    assert_eq!(
        inflate_outcome(Err(miniz_oxide::inflate::TINFLStatus::Failed)),
        Err(ZipError::Inflate)
    );
}

#[test]
fn slice_reader_reads_at_offsets() {
    let data = b"0123456789";
    let mut reader = SliceReader::new(data);
    assert_eq!(reader.len(), Ok(10));
    assert_eq!(reader.is_empty(), Ok(false));
    let mut out = [0u8; 4];
    assert_eq!(reader.read_at(8, &mut out), Ok(2));
    assert_eq!(&out[..2], b"89");
    assert_eq!(reader.read_at(11, &mut out), Ok(0));
}

#[test]
fn stream_and_memory_readers_agree() {
    let block = stored_block(b"inflated");
    let zip = build_zip(&[
        stored("mimetype", b"application/epub+zip"),
        Entry { name: b"OPS/ch1.xhtml", method: 8, payload: &block, uncompressed: 8 },
    ]);
    let archive = ZipArchive::new(&zip).unwrap();
    let mut stream = ZipStream::new(SliceReader::new(&zip), &mut [0u8; 1024]).unwrap();
    for name in ["mimetype", "OPS/ch1.xhtml"] {
        let in_memory = archive.find(name).unwrap();
        let streamed = stream.find_entry(name, &mut [0u8; 46], &mut [0u8; 160]).unwrap();
        assert_eq!(streamed.compression_method, in_memory.compression_method);
        assert_eq!(streamed.compressed_size, in_memory.compressed_size);
        assert_eq!(streamed.local_header_offset, in_memory.local_header_offset);
        let mut a = [0u8; 64];
        let mut b = [0u8; 64];
        let mut scratch = [0u8; 64];
        let na = archive.read_entry(in_memory, &mut a).unwrap();
        let nb = stream.read_entry(streamed, &mut scratch, &mut b).unwrap();
        assert_eq!(&a[..na], &b[..nb]);
    }
}

#[test]
fn stream_needs_room_for_names_and_payloads() {
    let zip = build_zip(&[stored("a-long-name.txt", b"0123456789")]);
    let mut stream = ZipStream::new(SliceReader::new(&zip), &mut [0u8; 256]).unwrap();
    assert_eq!(
        stream.find_entry("a-long-name.txt", &mut [0u8; 46], &mut [0u8; 4]),
        Err(ZipError::EntryBufferTooSmall)
    );
    let entry = stream.find_entry("a-long-name.txt", &mut [0u8; 46], &mut [0u8; 32]).unwrap();
    let mut scratch = [0u8; 4];
    let mut out = [0u8; 32];
    assert_eq!(stream.read_entry(entry, &mut scratch, &mut out), Err(ZipError::OutputTooSmall));
    assert_eq!(
        stream.find_entry("other", &mut [0u8; 46], &mut [0u8; 32]),
        Err(ZipError::EntryNotFound)
    );
}

#[test]
fn stream_reports_short_reads_as_io() {
    let mut zip = build_zip(&[stored("a", b"1")]);
    let n = zip.len();
    // the central directory is said to start past the end of the file
    zip[n - 6..n - 2].copy_from_slice(&0xffff_u32.to_le_bytes());
    let mut stream = ZipStream::new(SliceReader::new(&zip), &mut [0u8; 256]).unwrap();
    assert_eq!(stream.find_entry("a", &mut [0u8; 46], &mut [0u8; 32]), Err(ZipError::Io));
    assert_eq!(
        ZipStream::new(SliceReader::new(b"short"), &mut [0u8; 64]).err(),
        Some(ZipError::MissingEndOfCentralDirectory)
    );
}

#[test]
fn stream_over_an_empty_directory_finds_nothing() {
    let zip = build_zip(&[]);
    let mut stream = ZipStream::new(SliceReader::new(&zip), &mut [0u8; 64]).unwrap();
    assert_eq!(
        stream.find_entry("any", &mut [0u8; 46], &mut [0u8; 8]),
        Err(ZipError::EntryNotFound)
    );
}

#[test]
fn stream_tail_buffer_holds_the_archive_end() {
    let zip = build_zip(&[stored("a", b"1")]);
    let mut tail = [0xaau8; 200];
    ZipStream::new(SliceReader::new(&zip), &mut tail[..30]).unwrap();
    assert_eq!(&tail[..30], &zip[zip.len() - 30..]);
    assert!(tail[30..].iter().all(|b| *b == 0xaa));
}
