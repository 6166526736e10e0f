use xteink_x4::book::{BookId, CoverStatus};
use xteink_x4::epub::{parse_opf, xhtml_text_runs};
use xteink_x4::text::{FontStyle, TextRole, TextRun};
use xteink_x4::zip::{ZipArchive, ZipError};
use xteink_x4::zip_stream::{SliceReader, ZipStream};

fn stored_zip(files: &[(&str, &[u8])]) -> Vec<u8> {
    let mut bytes = Vec::new();
    let mut central = Vec::new();
    let mut offsets = Vec::new();

    for (name, data) in files {
        offsets.push(bytes.len() as u32);
        push_u32(&mut bytes, 0x0403_4b50);
        push_u16(&mut bytes, 20);
        push_u16(&mut bytes, 0);
        push_u16(&mut bytes, 0);
        push_u16(&mut bytes, 0);
        push_u16(&mut bytes, 0);
        push_u32(&mut bytes, 0);
        push_u32(&mut bytes, data.len() as u32);
        push_u32(&mut bytes, data.len() as u32);
        push_u16(&mut bytes, name.len() as u16);
        push_u16(&mut bytes, 0);
        bytes.extend_from_slice(name.as_bytes());
        bytes.extend_from_slice(data);
    }

    for ((name, data), offset) in files.iter().zip(offsets.iter()) {
        push_u32(&mut central, 0x0201_4b50);
        push_u16(&mut central, 20);
        push_u16(&mut central, 20);
        push_u16(&mut central, 0);
        push_u16(&mut central, 0);
        push_u16(&mut central, 0);
        push_u16(&mut central, 0);
        push_u32(&mut central, 0);
        push_u32(&mut central, data.len() as u32);
        push_u32(&mut central, data.len() as u32);
        push_u16(&mut central, name.len() as u16);
        push_u16(&mut central, 0);
        push_u16(&mut central, 0);
        push_u16(&mut central, 0);
        push_u16(&mut central, 0);
        push_u32(&mut central, 0);
        push_u32(&mut central, *offset);
        central.extend_from_slice(name.as_bytes());
    }

    let central_offset = bytes.len() as u32;
    let central_size = central.len() as u32;
    bytes.extend_from_slice(&central);
    push_u32(&mut bytes, 0x0605_4b50);
    push_u16(&mut bytes, 0);
    push_u16(&mut bytes, 0);
    push_u16(&mut bytes, files.len() as u16);
    push_u16(&mut bytes, files.len() as u16);
    push_u32(&mut bytes, central_size);
    push_u32(&mut bytes, central_offset);
    push_u16(&mut bytes, 0);
    bytes
}

fn push_u16(bytes: &mut Vec<u8>, value: u16) {
    bytes.extend_from_slice(&value.to_le_bytes());
}

fn push_u32(bytes: &mut Vec<u8>, value: u32) {
    bytes.extend_from_slice(&value.to_le_bytes());
}

#[test]
fn parses_nested_opf_path_and_spine() {
    let opf = r#"
        <package>
          <metadata>
            <dc:title>Flowers for Algernon</dc:title>
            <dc:creator>Daniel Keyes</dc:creator>
          </metadata>
          <manifest>
            <item id="chap1" href="text/ch1.xhtml" media-type="application/xhtml+xml"/>
            <item id="cover" href="images/cover.jpg" media-type="image/jpeg"/>
          </manifest>
          <spine><itemref idref="chap1"/></spine>
        </package>
    "#;

    let package = parse_opf(
        opf,
        BookId(7),
        "/books/flowers.epub",
        1234,
        "OPS/package.opf",
    )
    .expect("opf parses");

    assert_eq!(package.meta.title, "Flowers for Algernon");
    assert_eq!(package.meta.author, "Daniel Keyes");
    assert_eq!(package.meta.cover_status, CoverStatus::Present);
    assert_eq!(package.spine.len(), 1);
    assert_eq!(package.spine[0].href, "text/ch1.xhtml");
}

#[test]
fn xhtml_emits_styled_runs() {
    let xhtml = "<body><h1>Chapter</h1><p>Hello <em>soft</em> <strong>bold</strong></p></body>";
    let mut runs = heapless::Vec::<TextRun<'_>, 256>::new();

    xhtml_text_runs(xhtml, &mut runs).expect("runs fit");

    assert_eq!(
        runs[0],
        TextRun::new("Chapter", TextRole::Heading1, FontStyle::Bold)
    );
    assert_eq!(
        runs[1],
        TextRun::new("Hello", TextRole::Body, FontStyle::Regular)
    );
    assert_eq!(
        runs[2],
        TextRun::new("soft", TextRole::Body, FontStyle::Italic)
    );
    assert_eq!(
        runs[3],
        TextRun::new("bold", TextRole::Body, FontStyle::Bold)
    );
}

#[test]
fn zip_rejects_missing_entry() {
    let zip_bytes = stored_zip(&[("hello.txt", b"hi".as_slice())]);
    let archive = ZipArchive::new(&zip_bytes).expect("zip parses");

    assert_eq!(archive.find("missing.txt"), Err(ZipError::EntryNotFound));
}

#[test]
fn zip_rejects_malformed_central_directory() {
    assert_eq!(
        ZipArchive::new(b"not a zip file").err(),
        Some(ZipError::MissingEndOfCentralDirectory)
    );
}

#[test]
fn zip_reads_stored_entry() {
    let zip_bytes = stored_zip(&[("META-INF/container.xml", b"<container/>".as_slice())]);
    let archive = ZipArchive::new(&zip_bytes).expect("zip parses");
    let entry = archive
        .find("META-INF/container.xml")
        .expect("entry exists");
    let mut output = [0u8; 32];

    let len = archive.read_entry(entry, &mut output).expect("stored read");

    assert_eq!(&output[..len], b"<container/>");
}

#[test]
fn zip_stream_reads_stored_entry_by_offset() {
    let zip_bytes = stored_zip(&[("OPS/package.opf", b"<package/>".as_slice())]);
    let mut stream = ZipStream::new(SliceReader::new(&zip_bytes), &mut [0u8; 512])
        .expect("stream zip parses");
    let entry = stream
        .find_entry("OPS/package.opf", &mut [0u8; 46], &mut [0u8; 64])
        .expect("entry exists");
    let mut compressed = [0u8; 64];
    let mut output = [0u8; 64];

    let len = stream
        .read_entry(entry, &mut compressed, &mut output)
        .expect("entry read");

    assert_eq!(&output[..len], b"<package/>");
}
