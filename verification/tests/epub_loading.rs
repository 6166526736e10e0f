use xteink_x4::book::{BookId, ChapterMeta, CoverStatus};
use xteink_x4::epub::{
    cover_status, load_epub_package, parse_opf, style_for, xhtml_text_runs, EpubError,
    ManifestItem, XhtmlError,
};
use xteink_x4::text::{FontStyle, TextRole, TextRun};
use xteink_x4::zip::ZipError;

fn push_u16(bytes: &mut Vec<u8>, value: u16) {
    bytes.extend_from_slice(&value.to_le_bytes());
}

fn push_u32(bytes: &mut Vec<u8>, value: u32) {
    bytes.extend_from_slice(&value.to_le_bytes());
}

fn zip_of(files: &[(&str, &[u8])]) -> Vec<u8> {
    let mut bytes = Vec::new();
    let mut central = Vec::new();
    let mut offsets = Vec::new();
    for (name, data) in files {
        offsets.push(bytes.len() as u32);
        push_u32(&mut bytes, 0x0403_4b50);
        for v in [20u16, 0, 0, 0, 0] {
            push_u16(&mut bytes, v);
        }
        push_u32(&mut bytes, 0);
        push_u32(&mut bytes, data.len() as u32);
        push_u32(&mut bytes, data.len() as u32);
        push_u16(&mut bytes, name.len() as u16);
        push_u16(&mut bytes, 0);
        bytes.extend_from_slice(name.as_bytes());
        bytes.extend_from_slice(data);
    }
    for ((name, data), offset) in files.iter().zip(offsets.iter()) {
        push_u32(&mut central, 0x0201_4b50);
        for v in [20u16, 20, 0, 0, 0, 0] {
            push_u16(&mut central, v);
        }
        push_u32(&mut central, 0);
        push_u32(&mut central, data.len() as u32);
        push_u32(&mut central, data.len() as u32);
        push_u16(&mut central, name.len() as u16);
        for v in [0u16, 0, 0, 0] {
            push_u16(&mut central, v);
        }
        push_u32(&mut central, 0);
        push_u32(&mut central, *offset);
        central.extend_from_slice(name.as_bytes());
    }
    let central_offset = bytes.len() as u32;
    let central_size = central.len() as u32;
    bytes.extend_from_slice(&central);
    push_u32(&mut bytes, 0x0605_4b50);
    push_u16(&mut bytes, 0);
    push_u16(&mut bytes, 0);
    push_u16(&mut bytes, files.len() as u16);
    push_u16(&mut bytes, files.len() as u16);
    push_u32(&mut bytes, central_size);
    push_u32(&mut bytes, central_offset);
    push_u16(&mut bytes, 0);
    bytes
}

const CONTAINER: &[u8] = br#"<?xml version="1.0"?>
<container><rootfiles><rootfile full-path="OEBPS/content.opf" media-type="application/oebps-package+xml"/></rootfiles></container>"#;

const OPF: &[u8] = br#"<package>
  <metadata><dc:title>Tiny Book</dc:title><dc:creator>Ann Author</dc:creator></metadata>
  <manifest>
    <item id="c1" href="text/one.xhtml" media-type="application/xhtml+xml"/>
    <item id="c2" href="text/two.xhtml" media-type="application/xhtml+xml"/>
  </manifest>
  <spine><itemref idref="c2"/><itemref idref="c1"/><itemref idref="gone"/></spine>
</package>"#;

#[test]
fn loads_a_package_through_the_container() {
    let epub = zip_of(&[("META-INF/container.xml", CONTAINER), ("OEBPS/content.opf", OPF)]);
    let mut container = [0u8; 512];
    let mut opf = [0u8; 1024];
    let package = load_epub_package(&epub, &mut container, &mut opf, BookId(4), "/books/t.epub")
        .expect("package loads");
    assert_eq!(package.meta.id, BookId(4));
    assert_eq!(package.meta.title, "Tiny Book");
    assert_eq!(package.meta.author, "Ann Author");
    assert_eq!(package.meta.byte_size as usize, epub.len());
    assert_eq!(package.meta.cover_status, CoverStatus::Missing);
    assert_eq!(package.opf_path, "OEBPS/content.opf");
    assert_eq!(package.manifest.len(), 2);
    assert_eq!(package.spine.len(), 3);
    assert_eq!(package.spine[0].idref, "c2");
    assert_eq!(package.spine[0].href, "text/two.xhtml");
    assert_eq!(package.spine[2].href, "");

    let mut chapters = heapless::Vec::<ChapterMeta<'_>, 64>::new();
    package.chapters(&mut chapters);
    assert_eq!(chapters.len(), 3);
    assert_eq!(chapters[0].title, "two.xhtml");
    assert_eq!(chapters[1].spine_index, 1);
    assert_eq!(chapters[1].source_href, "text/one.xhtml");
}

#[test]
fn loading_reports_each_failure() {
    let mut container = [0u8; 512];
    let mut opf = [0u8; 1024];
    assert_eq!(
        load_epub_package(b"nope", &mut container, &mut opf, BookId(1), "/x").err(),
        Some(EpubError::Zip(ZipError::MissingEndOfCentralDirectory))
    );
    let no_container = zip_of(&[("OEBPS/content.opf", OPF)]);
    assert_eq!(
        load_epub_package(&no_container, &mut container, &mut opf, BookId(1), "/x").err(),
        Some(EpubError::Zip(ZipError::EntryNotFound))
    );
    let no_path = zip_of(&[("META-INF/container.xml", b"<container/>".as_slice())]);
    assert_eq!(
        load_epub_package(&no_path, &mut container, &mut opf, BookId(1), "/x").err(),
        Some(EpubError::MissingOpfPath)
    );
    let no_opf = zip_of(&[("META-INF/container.xml", CONTAINER)]);
    assert_eq!(
        load_epub_package(&no_opf, &mut container, &mut opf, BookId(1), "/x").err(),
        Some(EpubError::MissingOpf)
    );
    let bad_text = zip_of(&[("META-INF/container.xml", [0xffu8, 0xfe].as_slice())]);
    assert_eq!(
        load_epub_package(&bad_text, &mut container, &mut opf, BookId(1), "/x").err(),
        Some(EpubError::Utf8)
    );
    let epub = zip_of(&[("META-INF/container.xml", CONTAINER), ("OEBPS/content.opf", OPF)]);
    let mut tiny = [0u8; 8];
    assert_eq!(
        load_epub_package(&epub, &mut tiny, &mut opf, BookId(1), "/x").err(),
        Some(EpubError::Zip(ZipError::OutputTooSmall))
    );
}

#[test]
fn metadata_falls_back_when_missing() {
    let package = parse_opf("<package/>", BookId(2), "/b.epub", 9, "p.opf").expect("parses");
    assert_eq!(package.meta.title, "Untitled");
    assert_eq!(package.meta.author, "Unknown Author");
    assert_eq!(package.manifest.len(), 0);
    assert_eq!(package.spine.len(), 0);
    let package =
        parse_opf("<title> Plain </title><creator>Who</creator>", BookId(2), "/b", 9, "p")
            .expect("parses");
    assert_eq!(package.meta.title, "Plain");
    assert_eq!(package.meta.author, "Who");
}

#[test]
fn too_many_manifest_or_spine_items_fail() {
    let mut opf = String::from("<manifest>");
    for i in 0..97 {
        opf.push_str(&format!("<item id=\"i{}\" href=\"h{}.xhtml\"/>", i, i));
    }
    opf.push_str("</manifest>");
    assert_eq!(
        parse_opf(&opf, BookId(1), "/", 0, "p").err(),
        Some(EpubError::TooManyManifestItems)
    );
    let mut opf = String::from("<spine>");
    for _ in 0..65 {
        opf.push_str("<itemref idref=\"x\"/>");
    }
    opf.push_str("</spine>");
    assert_eq!(parse_opf(&opf, BookId(1), "/", 0, "p").err(), Some(EpubError::TooManySpineItems));
}

#[test]
fn cover_is_found_by_id_href_or_image_type() {
    let item = |id, href, media_type| ManifestItem { id, href, media_type };
    assert_eq!(cover_status(&[]), CoverStatus::Missing);
    assert_eq!(
        cover_status(&[item("a", "text/a.xhtml", "application/xhtml+xml")]),
        CoverStatus::Missing
    );
    assert_eq!(cover_status(&[item("cover", "x", "y")]), CoverStatus::Present);
    assert_eq!(cover_status(&[item("a", "img/my-cover.png", "y")]), CoverStatus::Present);
    assert_eq!(cover_status(&[item("a", "b", "image/png")]), CoverStatus::Present);
}

#[test]
fn styles_combine_bold_and_italic() {
    assert_eq!(style_for(0, 0), FontStyle::Regular);
    assert_eq!(style_for(2, 0), FontStyle::Bold);
    assert_eq!(style_for(0, 1), FontStyle::Italic);
    assert_eq!(style_for(1, 1), FontStyle::BoldItalic);
}

#[test]
fn runs_follow_headings_and_quotes() {
    let xhtml = "<h2>  Two </h2><blockquote><b>Said</b> so</blockquote><p>after</p>";
    let mut runs = heapless::Vec::<TextRun<'_>, 256>::new();
    xhtml_text_runs(xhtml, &mut runs).expect("fits");
    assert_eq!(runs.len(), 4);
    assert_eq!(runs[0], TextRun::new("Two", TextRole::Heading2, FontStyle::Bold));
    assert_eq!(runs[1], TextRun::new("Said", TextRole::BlockQuote, FontStyle::BoldItalic));
    assert_eq!(runs[2], TextRun::new("so", TextRole::BlockQuote, FontStyle::Italic));
    assert_eq!(runs[3], TextRun::new("after", TextRole::Body, FontStyle::Regular));
}

#[test]
fn too_many_runs_fail_after_the_first_256() {
    let mut xhtml = String::new();
    for i in 0..257 {
        xhtml.push_str(&format!("<p>r{}</p>", i));
    }
    let mut runs = heapless::Vec::<TextRun<'_>, 256>::new();
    runs.push(TextRun::new("stale", TextRole::Body, FontStyle::Regular)).unwrap();
    assert_eq!(xhtml_text_runs(&xhtml, &mut runs), Err(XhtmlError::TooManyRuns));
    assert_eq!(runs.len(), 256);
    assert_eq!(runs[0].text, "r0");
    assert_eq!(runs[255].text, "r255");
}
