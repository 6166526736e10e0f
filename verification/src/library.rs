//! The card library: which files are books, and the on-card catalog snapshot
//! (an 8-byte header followed by one 92-byte record per book) that lets the
//! shelf reopen without rescanning the card.
use vstd::prelude::*;
use vstd::utf8::valid_utf8;
use crate::strs::{lemma_str_valid, sb};
use crate::zip::{le32, str_from_utf8};
use crate::hl::{path_buf_bytes, path_buf_new, path_buf_push_str};

verus! {

pub const CATALOG_ROOT_DIR: &'static str = "XTEINK";

pub const CATALOG_FILE: &'static str = "CATALOG.BIN";

pub const CATALOG_VERSION: u8 = 1;

pub const CATALOG_HEADER_BYTES: usize = 8;

pub const CATALOG_RECORD_BYTES: usize = 92;

/// Bytes of a record that hold the display name (a `/`-prefixed path).
pub const DISPLAY_NAME_BYTES: usize = 64;

/// Bytes of a record that hold the card's short file name.
pub const OPEN_NAME_BYTES: usize = 16;

/// The catalog file's magic number, `X4CT`.
pub open spec fn catalog_magic() -> Seq<u8> {
    seq![0x58u8, 0x34u8, 0x43u8, 0x54u8]
}

/// The ASCII lower case of a byte.
pub open spec fn ascii_lower(c: u8) -> u8 {
    if 0x41 <= c <= 0x5a {
        (c + 32) as u8
    } else {
        c
    }
}

/// Whether a file name ends in `.epub`, in any letter case.
pub open spec fn epub_name(b: Seq<u8>) -> bool {
    let n = b.len() as int;
    &&& n >= 5
    &&& b[n - 5] == 0x2e
    &&& ascii_lower(b[n - 4]) == 0x65
    &&& ascii_lower(b[n - 3]) == 0x70
    &&& ascii_lower(b[n - 2]) == 0x75
    &&& ascii_lower(b[n - 1]) == 0x62
}

fn lower(c: u8) -> (r: u8)
    ensures
        r == ascii_lower(c),
{
    if 0x41 <= c && c <= 0x5a {
        c + 32
    } else {
        c
    }
}

/// Whether a file name ends in `.epub`, ignoring ASCII case.
pub fn is_epub_name(name: &str) -> (r: bool)
    ensures
        r == epub_name(sb(name)),
{
    let bytes: &[u8] = name.as_bytes();
    let n: usize = bytes.len();
    if n < 5 {
        return false;
    }
    bytes[n - 5] == 0x2e && lower(bytes[n - 4]) == 0x65 && lower(bytes[n - 3]) == 0x70 && lower(
        bytes[n - 2],
    ) == 0x75 && lower(bytes[n - 1]) == 0x62
}

/// Length of the text in a zero-padded field: up to its first zero byte.
pub open spec fn field_len(b: Seq<u8>, i: int) -> int
    decreases b.len() - i,
{
    if i < 0 || i >= b.len() {
        b.len() as int
    } else if b[i] == 0 {
        i
    } else {
        field_len(b, i + 1)
    }
}

/// The text of a zero-padded field: the bytes before its first zero byte when
/// they are well-formed UTF-8, and nothing otherwise.
pub open spec fn field_text(b: Seq<u8>) -> Seq<u8> {
    let n = field_len(b, 0);
    if valid_utf8(b.subrange(0, n)) {
        b.subrange(0, n)
    } else {
        Seq::empty()
    }
}

proof fn lemma_field_len(b: Seq<u8>, i: int)
    requires
        0 <= i <= b.len(),
    ensures
        i <= field_len(b, i) <= b.len(),
        field_len(b, i) < b.len() ==> b[field_len(b, i)] == 0,
        forall|j: int| i <= j < field_len(b, i) ==> b[j] != 0,
    decreases b.len() - i,
{
    if i < b.len() && b[i] != 0 {
        lemma_field_len(b, i + 1);
    }
}

/// The text of a zero-padded field.
pub fn fixed_str(bytes: &[u8]) -> (r: &str)
    ensures
        sb(r) == field_text(bytes@),
{
    proof {
        lemma_field_len(bytes@, 0);
    }
    let mut len: usize = 0;
    while len < bytes.len() && bytes[len] != 0
        invariant
            len <= bytes@.len(),
            field_len(bytes@, 0) == field_len(bytes@, len as int),
        decreases bytes@.len() - len,
    {
        len = len + 1;
    }
    let text: &[u8] = vstd::slice::slice_subrange(bytes, 0, len);
    match str_from_utf8(text) {
        Ok(s) => s,
        Err(_) => {
            proof {
                reveal_strlit("");
                assert(vstd::string::is_ascii(""));
            }
            ""
        },
    }
}

/// Copies as much of `src` as fits over the start of `dst`.
pub fn copy_fixed(src: &[u8], dst: &mut [u8])
    ensures
        final(dst)@.len() == old(dst)@.len(),
        ({
            let n = if src@.len() < old(dst)@.len() {
                src@.len() as int
            } else {
                old(dst)@.len() as int
            };
            &&& final(dst)@.subrange(0, n) == src@.subrange(0, n)
            &&& final(dst)@.subrange(n, old(dst)@.len() as int) == old(dst)@.subrange(
                n,
                old(dst)@.len() as int,
            )
        }),
{
    let n: usize = if src.len() < dst.len() {
        src.len()
    } else {
        dst.len()
    };
    let mut i: usize = 0;
    while i < n
        invariant
            n <= src@.len(),
            n <= dst@.len(),
            dst@.len() == old(dst)@.len(),
            i <= n,
            forall|j: int| 0 <= j < i ==> dst@[j] == src@[j],
            forall|j: int| n <= j < dst@.len() ==> dst@[j] == old(dst)@[j],
        decreases n - i,
    {
        dst[i] = src[i];
        i = i + 1;
    }
    assert(dst@.subrange(0, n as int) =~= src@.subrange(0, n as int));
    assert(dst@.subrange(n as int, old(dst)@.len() as int) =~= old(dst)@.subrange(
        n as int,
        old(dst)@.len() as int,
    ));
}

/// The header of a catalog file listing `count` books.
pub open spec fn header_bytes(count: int) -> Seq<u8> {
    catalog_magic() + seq![
        CATALOG_VERSION,
        (if count < 255 {
            count
        } else {
            255
        }) as u8,
        0u8,
        0u8,
    ]
}

/// The header of a catalog file listing `count` books (at most 255 are counted).
pub fn encode_catalog_header(count: usize) -> (r: [u8; 8])
    ensures
        r@ == header_bytes(count as int),
{
    let mut header = [0u8; 8];
    header[0] = 0x58;
    header[1] = 0x34;
    header[2] = 0x43;
    header[3] = 0x54;
    header[4] = CATALOG_VERSION;
    header[5] = if count < 255 {
        count as u8
    } else {
        255
    };
    assert(header@ =~= header_bytes(count as int));
    header
}

/// The number of books a catalog header announces, or `None` when the magic
/// number or the version is wrong.
pub fn decode_catalog_header(header: &[u8; 8]) -> (r: Option<u8>)
    ensures
        r == (if header@.subrange(0, 4) == catalog_magic() && header@[4] == CATALOG_VERSION {
            Some(header@[5])
        } else {
            None
        }),
{
    let h: &[u8] = header.as_slice();
    if h[0] == 0x58 && h[1] == 0x34 && h[2] == 0x43 && h[3] == 0x54 && h[4] == CATALOG_VERSION {
        assert(h@.subrange(0, 4) =~= catalog_magic());
        Some(h[5])
    } else {
        assert(h@[0] != 0x58 || h@[1] != 0x34 || h@[2] != 0x43 || h@[3] != 0x54 ==> h@.subrange(0, 4)
            != catalog_magic()) by {
            if h@.subrange(0, 4) == catalog_magic() {
                assert(h@.subrange(0, 4)[0] == h@[0]);
                assert(h@.subrange(0, 4)[1] == h@[1]);
                assert(h@.subrange(0, 4)[2] == h@[2]);
                assert(h@.subrange(0, 4)[3] == h@[3]);
            }
        }
        None
    }
}

/// A book as the catalog file records it.
#[derive(Clone, Copy, Debug, PartialEq, Eq)]
pub struct CatalogEntry<'a> {
    pub in_books_dir: bool,
    pub byte_size: u32,
    pub source_hash: u32,
    pub display_name: &'a str,
    pub open_name: &'a str,
}

/// Little-endian bytes of a 32-bit value.
pub open spec fn le32_bytes(v: u32) -> Seq<u8> {
    seq![
        (v % 256) as u8,
        ((v / 256) % 256) as u8,
        ((v / 65536) % 256) as u8,
        ((v / 16777216) % 256) as u8,
    ]
}

/// `text` cut or zero-padded to `n` bytes.
pub open spec fn padded(text: Seq<u8>, n: int) -> Seq<u8> {
    Seq::new(n as nat, |i: int| if i < text.len() { text[i] } else { 0u8 })
}

/// The 92-byte record of a book.
pub open spec fn record_bytes(
    in_books_dir: bool,
    byte_size: u32,
    source_hash: u32,
    display_name: Seq<u8>,
    open_name: Seq<u8>,
) -> Seq<u8> {
    seq![if in_books_dir { 1u8 } else { 0u8 }, 0u8, 0u8, 0u8] + le32_bytes(byte_size) + le32_bytes(
        source_hash,
    ) + padded(display_name, 64) + padded(open_name, 16)
}

fn put_le32(record: &mut [u8; 92], at: usize, v: u32)
    requires
        at + 4 <= 92,
    ensures
        final(record)@ == old(record)@.update(at as int, (v % 256) as u8).update(
            at + 1,
            ((v / 256) % 256) as u8,
        ).update(at + 2, ((v / 65536) % 256) as u8).update(at + 3, ((v / 16777216) % 256) as u8),
{
    record[at] = (v % 256) as u8;
    record[at + 1] = ((v / 256) % 256) as u8;
    record[at + 2] = ((v / 65536) % 256) as u8;
    record[at + 3] = ((v / 16777216) % 256) as u8;
}

fn put_field(record: &mut [u8; 92], at: usize, n: usize, text: &[u8])
    requires
        at + n <= 92,
        forall|i: int| at <= i < at + n ==> old(record)@[i] == 0,
    ensures
        final(record)@ == old(record)@.take(at as int) + padded(text@, n as int) + old(
            record,
        )@.skip(at + n),
{
    let m: usize = if text.len() < n {
        text.len()
    } else {
        n
    };
    let mut i: usize = 0;
    while i < m
        invariant
            m <= n,
            m <= text@.len(),
            at + n <= 92,
            i <= m,
            forall|j: int| 0 <= j < 92 && !(at <= j < at + i) ==> record@[j] == old(record)@[j],
            forall|j: int| at <= j < at + i ==> record@[j] == text@[j - at],
        decreases m - i,
    {
        record[at + i] = text[i];
        i = i + 1;
    }
    assert(record@ =~= old(record)@.take(at as int) + padded(text@, n as int) + old(record)@.skip(
        at + n,
    ));
}

/// The record of one book: where it was found, its size, its content hash, its
/// display name cut to 64 bytes and its short name cut to 16 bytes.
pub fn encode_catalog_record(entry: &CatalogEntry) -> (r: [u8; 92])
    ensures
        r@ == record_bytes(
            entry.in_books_dir,
            entry.byte_size,
            entry.source_hash,
            sb(entry.display_name),
            sb(entry.open_name),
        ),
{
    let mut record = [0u8; 92];
    record[0] = if entry.in_books_dir {
        1
    } else {
        0
    };
    put_le32(&mut record, 4, entry.byte_size);
    put_le32(&mut record, 8, entry.source_hash);
    put_field(&mut record, 12, DISPLAY_NAME_BYTES, entry.display_name.as_bytes());
    put_field(&mut record, 76, OPEN_NAME_BYTES, entry.open_name.as_bytes());
    assert(record@ =~= record_bytes(
        entry.in_books_dir,
        entry.byte_size,
        entry.source_hash,
        sb(entry.display_name),
        sb(entry.open_name),
    ));
    record
}

/// Whether `e` is the entry that record `r` describes.
pub open spec fn entry_of_record(e: CatalogEntry, r: Seq<u8>) -> bool {
    &&& e.in_books_dir == (r[0] != 0)
    &&& e.byte_size as int == le32(r, 4)
    &&& e.source_hash as int == le32(r, 8)
    &&& sb(e.display_name) == field_text(r.subrange(12, 76))
    &&& sb(e.open_name) == field_text(r.subrange(76, 92))
}

/// The book a record describes, or `None` when either name is empty.
pub fn decode_catalog_record<'a>(record: &'a [u8; 92]) -> (r: Option<CatalogEntry<'a>>)
    ensures
        (field_text(record@.subrange(12, 76)).len() == 0 || field_text(record@.subrange(76, 92)).len()
            == 0) ==> r is None,
        (field_text(record@.subrange(12, 76)).len() > 0 && field_text(record@.subrange(76, 92)).len()
            > 0) ==> (r matches Some(e) && entry_of_record(e, record@)),
{
    let rec: &'a [u8] = record.as_slice();
    let display_name: &'a str = fixed_str(vstd::slice::slice_subrange(rec, 12, 76));
    let open_name: &'a str = fixed_str(vstd::slice::slice_subrange(rec, 76, 92));
    proof {
        lemma_field_len(rec@.subrange(12, 76), 0);
        lemma_field_len(rec@.subrange(76, 92), 0);
        assert(rec@.subrange(12, 76) =~= record@.subrange(12, 76));
        assert(rec@.subrange(76, 92) =~= record@.subrange(76, 92));
    }
    if display_name.len() == 0 || open_name.len() == 0 {
        return None;
    }
    let byte_size: u32 = rec[4] as u32 + rec[5] as u32 * 256 + rec[6] as u32 * 65536 + rec[7] as u32
        * 16777216;
    let source_hash: u32 = rec[8] as u32 + rec[9] as u32 * 256 + rec[10] as u32 * 65536 + rec[11] as u32
        * 16777216;
    Some(CatalogEntry { in_books_dir: rec[0] != 0, byte_size, source_hash, display_name, open_name })
}

proof fn lemma_field_len_at(b: Seq<u8>, k: int)
    requires
        0 <= k <= b.len(),
        forall|j: int| 0 <= j < k ==> b[j] != 0,
        k == b.len() || b[k] == 0,
    ensures
        field_len(b, 0) == k,
{
    lemma_field_len(b, 0);
}

proof fn lemma_padded_text(text: Seq<u8>, n: int)
    requires
        0 < text.len() <= n,
        valid_utf8(text),
        forall|j: int| 0 <= j < text.len() ==> text[j] != 0,
    ensures
        field_text(padded(text, n)) == text,
{
    let p = padded(text, n);
    lemma_field_len_at(p, text.len() as int);
    assert(p.subrange(0, text.len() as int) =~= text);
}

proof fn lemma_le32_bytes(v: u32)
    ensures
        le32(le32_bytes(v), 0) == v,
{
    let b = le32_bytes(v);
    assert(b[0] as int + b[1] as int * 256 + b[2] as int * 65536 + b[3] as int * 16777216 == v)
        by (nonlinear_arith)
        requires
            b[0] == v % 256,
            b[1] == (v / 256) % 256,
            b[2] == (v / 65536) % 256,
            b[3] == (v / 16777216) % 256,
            0 <= v < 0x1_0000_0000,
    ;
}

/// A record read back gives the book that was written, field for field,
/// when both names are non-empty, fit their fields and hold no zero byte.
pub proof fn lemma_record_round_trip(e: CatalogEntry)
    requires
        0 < sb(e.display_name).len() <= DISPLAY_NAME_BYTES,
        0 < sb(e.open_name).len() <= OPEN_NAME_BYTES,
        forall|j: int| 0 <= j < sb(e.display_name).len() ==> sb(e.display_name)[j] != 0,
        forall|j: int| 0 <= j < sb(e.open_name).len() ==> sb(e.open_name)[j] != 0,
    ensures
        ({
            let r = record_bytes(
                e.in_books_dir,
                e.byte_size,
                e.source_hash,
                sb(e.display_name),
                sb(e.open_name),
            );
            &&& field_text(r.subrange(12, 76)).len() > 0
            &&& field_text(r.subrange(76, 92)).len() > 0
            &&& entry_of_record(e, r)
        }),
{
    let d = sb(e.display_name);
    let o = sb(e.open_name);
    let r = record_bytes(e.in_books_dir, e.byte_size, e.source_hash, d, o);
    lemma_str_valid(e.display_name);
    lemma_str_valid(e.open_name);
    lemma_padded_text(d, 64);
    lemma_padded_text(o, 16);
    assert(r.subrange(12, 76) =~= padded(d, 64));
    assert(r.subrange(76, 92) =~= padded(o, 16));
    lemma_le32_bytes(e.byte_size);
    lemma_le32_bytes(e.source_hash);
    assert(r.subrange(4, 8) =~= le32_bytes(e.byte_size));
    assert(r.subrange(8, 12) =~= le32_bytes(e.source_hash));
    assert(le32(r, 4) == le32(r.subrange(4, 8), 0));
    assert(le32(r, 8) == le32(r.subrange(8, 12), 0));
}

/// Where a scan of the card stands.
#[derive(Clone, Copy, Debug, PartialEq, Eq)]
pub enum LibraryScanStatus {
    Scanning,
    Ready,
    Empty,
    Error,
}

/// The status of a finished listing of `count` books.
pub open spec fn listing_status_of(count: int) -> LibraryScanStatus {
    if count == 0 {
        LibraryScanStatus::Empty
    } else {
        LibraryScanStatus::Ready
    }
}

/// The status of a finished listing: `Empty` when no book was found, and
/// `Ready` otherwise.
pub fn listing_status(count: usize) -> (r: LibraryScanStatus)
    ensures
        r == listing_status_of(count as int),
{
    if count == 0 {
        LibraryScanStatus::Empty
    } else {
        LibraryScanStatus::Ready
    }
}

/// The status a scan leaves behind: a failure after some books were listed
/// still leaves those books on the shelf, so it reads as `Ready`.
pub fn settle_scan_status(status: LibraryScanStatus, count: usize) -> (r: LibraryScanStatus)
    ensures
        r == (if status == LibraryScanStatus::Error && count > 0 {
            LibraryScanStatus::Ready
        } else {
            status
        }),
{
    match status {
        LibraryScanStatus::Error => if count > 0 {
            LibraryScanStatus::Ready
        } else {
            LibraryScanStatus::Error
        },
        other => other,
    }
}

/// The name under which a directory entry is listed: its long name when it has
/// one, else its short name, and nothing for directories, volume labels and
/// files that are not `.epub`.
pub open spec fn listed_name_of(
    is_directory: bool,
    is_volume: bool,
    short_name: Seq<u8>,
    long_name: Option<Seq<u8>>,
) -> Option<Seq<u8>> {
    if is_directory || is_volume {
        None
    } else {
        let name = match long_name {
            Some(l) => l,
            None => short_name,
        };
        if epub_name(name) {
            Some(name)
        } else {
            None
        }
    }
}

/// The name under which a directory entry is listed, if it is a book.
pub fn listed_name<'a>(
    is_directory: bool,
    is_volume: bool,
    short_name: &'a str,
    long_name: Option<&'a str>,
) -> (r: Option<&'a str>)
    ensures
        r is Some <==> listed_name_of(
            is_directory,
            is_volume,
            sb(short_name),
            match long_name {
                Some(l) => Some(sb(l)),
                None => None,
            },
        ) is Some,
        r matches Some(n) ==> Some(sb(n)) == listed_name_of(
            is_directory,
            is_volume,
            sb(short_name),
            match long_name {
                Some(l) => Some(sb(l)),
                None => None,
            },
        ),
{
    if is_directory || is_volume {
        return None;
    }
    let name: &'a str = match long_name {
        Some(l) => l,
        None => short_name,
    };
    if is_epub_name(name) {
        Some(name)
    } else {
        None
    }
}

/// `prefix` followed by `name`, each part kept only when it still fits in
/// 64 bytes.
pub open spec fn book_path_of(prefix: Seq<u8>, name: Seq<u8>) -> Seq<u8> {
    let p = if prefix.len() <= 64 {
        prefix
    } else {
        Seq::empty()
    };
    if p.len() + name.len() <= 64 {
        p + name
    } else {
        p
    }
}

/// The display path of a book found under `prefix`, in a 64-byte string.
pub fn book_path(prefix: &str, name: &str) -> (r: heapless::String<64>)
    ensures
        path_buf_bytes(r) == book_path_of(sb(prefix), sb(name)),
{
    let mut path = path_buf_new();
    let _ = path_buf_push_str(&mut path, prefix);
    let _ = path_buf_push_str(&mut path, name);
    path
}

/// How many records to read after a catalog header: the count it announces,
/// at most `max_books`, or `None` when the header is not a catalog's.
pub fn records_to_read(header: &[u8; 8], max_books: usize) -> (r: Option<usize>)
    ensures
        r == (if header@.subrange(0, 4) == catalog_magic() && header@[4] == CATALOG_VERSION {
            Some(
                if (header@[5] as usize) < max_books {
                    header@[5] as usize
                } else {
                    max_books
                },
            )
        } else {
            None
        }),
{
    match decode_catalog_header(header) {
        Some(count) => {
            let count: usize = count as usize;
            Some(
                if count < max_books {
                    count
                } else {
                    max_books
                },
            )
        },
        None => None,
    }
}

/// A catalog header read back announces the count it was written with, capped
/// at 255.
pub proof fn lemma_header_round_trip(count: int)
    requires
        0 <= count,
    ensures
        header_bytes(count).subrange(0, 4) == catalog_magic(),
        header_bytes(count)[4] == CATALOG_VERSION,
        header_bytes(count)[5] == (if count < 255 {
            count
        } else {
            255
        }),
{
    assert(header_bytes(count).subrange(0, 4) =~= catalog_magic());
}

/// Whether a name is a book's does not depend on the letter case of its
/// extension.
pub proof fn lemma_epub_name_ignores_case(a: Seq<u8>, b: Seq<u8>)
    requires
        a.len() == b.len(),
        forall|i: int| 0 <= i < a.len() ==> ascii_lower(#[trigger] a[i]) == ascii_lower(b[i]),
    ensures
        epub_name(a) == epub_name(b),
{
    if a.len() >= 5 {
        let n = a.len() as int;
        assert(ascii_lower(a[n - 5]) == ascii_lower(b[n - 5]));
    }
}

} // verus!
