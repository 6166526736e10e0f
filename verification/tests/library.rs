use xteink_x4::library::{
    book_path, copy_fixed, decode_catalog_header, decode_catalog_record, encode_catalog_header,
    encode_catalog_record, fixed_str, is_epub_name, listed_name, listing_status, records_to_read,
    settle_scan_status, CatalogEntry, LibraryScanStatus,
};

#[test]
fn recognises_epub_names_in_any_case() {
    assert!(is_epub_name("book.epub"));
    assert!(is_epub_name("BOOK.EPUB"));
    assert!(is_epub_name("Book.ePuB"));
    assert!(is_epub_name(".epub"));
    assert!(!is_epub_name("epub"));
    assert!(!is_epub_name("book.epub.txt"));
    assert!(!is_epub_name("book_epub"));
    assert!(!is_epub_name("book.pdf"));
}

#[test]
fn header_round_trips_its_count() {
    let header = encode_catalog_header(3);
    assert_eq!(&header, &[b'X', b'4', b'C', b'T', 1, 3, 0, 0]);
    assert_eq!(decode_catalog_header(&header), Some(3));
    let big = encode_catalog_header(1000);
    assert_eq!(decode_catalog_header(&big), Some(255));
}

#[test]
fn header_rejects_other_files() {
    let mut header = encode_catalog_header(2);
    header[0] = b'Y';
    assert_eq!(decode_catalog_header(&header), None);
    let mut header = encode_catalog_header(2);
    header[4] = 2;
    assert_eq!(decode_catalog_header(&header), None);
}

#[test]
fn record_round_trips_a_book() {
    let entry = CatalogEntry {
        in_books_dir: true,
        byte_size: 0x0102_0304,
        source_hash: 0xdead_beef,
        display_name: "/books/Flowers for Algernon.epub",
        open_name: "FLOWER~1.EPU",
    };
    let record = encode_catalog_record(&entry);
    assert_eq!(record[0], 1);
    assert_eq!(&record[4..8], &[4, 3, 2, 1]);
    assert_eq!(&record[8..12], &[0xef, 0xbe, 0xad, 0xde]);
    assert_eq!(record[12 + 32], 0);
    assert_eq!(decode_catalog_record(&record), Some(entry));
}

#[test]
fn record_cuts_long_names() {
    let long = "/books/".to_string() + &"x".repeat(80);
    let entry = CatalogEntry {
        in_books_dir: false,
        byte_size: 5,
        source_hash: 6,
        display_name: &long,
        open_name: "ABCDEFGHIJKLMNOPQRS",
    };
    let record = encode_catalog_record(&entry);
    let back = decode_catalog_record(&record).expect("names present");
    assert_eq!(back.display_name, &long[..64]);
    assert_eq!(back.open_name, "ABCDEFGHIJKLMNOP");
    assert!(!back.in_books_dir);
}

#[test]
fn record_without_names_is_skipped() {
    let entry = CatalogEntry {
        in_books_dir: false,
        byte_size: 1,
        source_hash: 2,
        display_name: "",
        open_name: "A.EPU",
    };
    assert_eq!(decode_catalog_record(&encode_catalog_record(&entry)), None);
}

#[test]
fn fixed_fields_stop_at_zero_and_need_utf8() {
    assert_eq!(fixed_str(b"abc\0def"), "abc");
    assert_eq!(fixed_str(b"abc"), "abc");
    assert_eq!(fixed_str(b"\0abc"), "");
    assert_eq!(fixed_str(&[0xe2, 0x82, 0]), "");
    assert_eq!(fixed_str("é".as_bytes()), "é");
}

#[test]
fn copy_fixed_copies_what_fits() {
    let mut dst = [9u8; 4];
    copy_fixed(b"ab", &mut dst);
    assert_eq!(dst, [b'a', b'b', 9, 9]);
    copy_fixed(b"123456", &mut dst);
    assert_eq!(dst, *b"1234");
}

#[test]
fn listing_status_follows_the_count() {
    assert_eq!(listing_status(0), LibraryScanStatus::Empty);
    assert_eq!(listing_status(4), LibraryScanStatus::Ready);
}

#[test]
fn a_failed_scan_keeps_listed_books() {
    assert_eq!(settle_scan_status(LibraryScanStatus::Error, 2), LibraryScanStatus::Ready);
    assert_eq!(settle_scan_status(LibraryScanStatus::Error, 0), LibraryScanStatus::Error);
    assert_eq!(settle_scan_status(LibraryScanStatus::Empty, 0), LibraryScanStatus::Empty);
    assert_eq!(settle_scan_status(LibraryScanStatus::Scanning, 3), LibraryScanStatus::Scanning);
}

#[test]
fn lists_books_by_their_long_name() {
    assert_eq!(
        listed_name(false, false, "FLOWER~1.EPU", Some("Flowers.epub")),
        Some("Flowers.epub")
    );
    assert_eq!(listed_name(false, false, "BOOK.EPUB", None), Some("BOOK.EPUB"));
    assert_eq!(listed_name(false, false, "NOTES.TXT", None), None);
    assert_eq!(listed_name(false, false, "BOOK.EPUB", Some("notes.txt")), None);
    assert_eq!(listed_name(true, false, "BOOKS.EPUB", None), None);
    assert_eq!(listed_name(false, true, "CARD.EPUB", None), None);
}

#[test]
fn book_paths_keep_what_fits() {
    assert_eq!(book_path("/books/", "a.epub").as_str(), "/books/a.epub");
    let long = "y".repeat(60);
    assert_eq!(book_path("/books/", &long).as_str(), "/books/");
    assert_eq!(book_path("/", &long).as_str(), format!("/{}", long));
}

#[test]
fn reads_at_most_the_library_size() {
    let header = encode_catalog_header(12);
    assert_eq!(records_to_read(&header, 8), Some(8));
    assert_eq!(records_to_read(&header, 20), Some(12));
    assert_eq!(records_to_read(&[0u8; 8], 20), None);
}
