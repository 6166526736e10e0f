//! ZIP archives: the end-of-central-directory record, central directory entries,
//! local headers, and stored or deflated payloads, read from memory or from a
//! random-access reader.
use vstd::prelude::*;
use vstd::utf8::valid_utf8;
use crate::strs::{bytes_eq, sb};

verus! {

pub const MAX_ENTRY_NAME_BYTES: usize = 160;

/// Signature of a central directory file header.
pub const CENTRAL_SIG: u32 = 0x0201_4b50;

/// Signature of a local file header.
pub const LOCAL_SIG: u32 = 0x0403_4b50;

/// Size of the end-of-central-directory record without its comment.
pub const EOCD_LEN: usize = 22;

/// Size of a central directory file header without its variable fields.
pub const CENTRAL_HEADER_LEN: usize = 46;

/// Size of a local file header without its variable fields.
pub const LOCAL_HEADER_LEN: usize = 30;

#[derive(Clone, Copy, Debug, PartialEq, Eq, Structural)]
pub enum ZipError {
    MissingEndOfCentralDirectory,
    BadCentralDirectory,
    BadLocalHeader,
    EntryNotFound,
    NameTooLong,
    UnsupportedCompression,
    OutputTooSmall,
    Inflate,
    Io,
    EntryBufferTooSmall,
}

/// A central directory entry of an in-memory archive.
#[derive(Clone, Copy, Debug, PartialEq, Eq)]
pub struct ZipEntry<'a> {
    pub name: &'a str,
    pub compression_method: u16,
    pub compressed_size: u32,
    pub uncompressed_size: u32,
    pub local_header_offset: u32,
}

/// A central directory entry found by a streaming reader.
#[derive(Clone, Copy, Debug, PartialEq, Eq, Structural)]
pub struct OwnedZipEntry {
    pub compression_method: u16,
    pub compressed_size: u32,
    pub uncompressed_size: u32,
    pub local_header_offset: u32,
}

/// Little-endian 16-bit value at offset `o`.
pub open spec fn le16(b: Seq<u8>, o: int) -> int {
    b[o] as int + b[o + 1] as int * 256
}

/// Little-endian 32-bit value at offset `o`.
pub open spec fn le32(b: Seq<u8>, o: int) -> int {
    b[o] as int + b[o + 1] as int * 256 + b[o + 2] as int * 65536 + b[o + 3] as int * 16777216
}

/// Reads a little-endian `u16` at `offset`.
pub fn read_u16(bytes: &[u8], offset: usize) -> (r: Result<u16, ZipError>)
    ensures
        offset + 2 <= bytes@.len() ==> r == Ok::<u16, ZipError>(le16(bytes@, offset as int) as u16),
        offset + 2 > bytes@.len() ==> r == Err::<u16, ZipError>(ZipError::BadCentralDirectory),
        r matches Ok(v) ==> v as int == le16(bytes@, offset as int),
{
    if offset > bytes.len() || bytes.len() - offset < 2 {
        return Err(ZipError::BadCentralDirectory);
    }
    let v: u16 = bytes[offset] as u16 + bytes[offset + 1] as u16 * 256;
    Ok(v)
}

/// Reads a little-endian `u32` at `offset`.
pub fn read_u32(bytes: &[u8], offset: usize) -> (r: Result<u32, ZipError>)
    ensures
        offset + 4 <= bytes@.len() ==> r == Ok::<u32, ZipError>(le32(bytes@, offset as int) as u32),
        offset + 4 > bytes@.len() ==> r == Err::<u32, ZipError>(ZipError::BadCentralDirectory),
        r matches Ok(v) ==> v as int == le32(bytes@, offset as int),
{
    if offset > bytes.len() || bytes.len() - offset < 4 {
        return Err(ZipError::BadCentralDirectory);
    }
    let v: u32 = bytes[offset] as u32 + bytes[offset + 1] as u32 * 256 + bytes[offset + 2] as u32
        * 65536 + bytes[offset + 3] as u32 * 16777216;
    Ok(v)
}

/// Reads a `u16` at `base + delta`; a sum past the address space reads nothing.
fn read_u16_at(bytes: &[u8], base: usize, delta: usize) -> (r: Result<u16, ZipError>)
    ensures
        base + delta + 2 <= bytes@.len() ==> r == Ok::<u16, ZipError>(
            le16(bytes@, base + delta) as u16,
        ),
        base + delta + 2 > bytes@.len() ==> r == Err::<u16, ZipError>(
            ZipError::BadCentralDirectory,
        ),
        r matches Ok(v) ==> v as int == le16(bytes@, base + delta),
{
    // The slice's length fits in a `usize`, which bounds the offsets below.
    let _len: usize = bytes.len();
    match base.checked_add(delta) {
        Some(o) => read_u16(bytes, o),
        None => Err(ZipError::BadCentralDirectory),
    }
}

/// Reads a `u32` at `base + delta`; a sum past the address space reads nothing.
fn read_u32_at(bytes: &[u8], base: usize, delta: usize) -> (r: Result<u32, ZipError>)
    ensures
        base + delta + 4 <= bytes@.len() ==> r == Ok::<u32, ZipError>(
            le32(bytes@, base + delta) as u32,
        ),
        base + delta + 4 > bytes@.len() ==> r == Err::<u32, ZipError>(
            ZipError::BadCentralDirectory,
        ),
        r matches Ok(v) ==> v as int == le32(bytes@, base + delta),
{
    // The slice's length fits in a `usize`, which bounds the offsets below.
    let _len: usize = bytes.len();
    match base.checked_add(delta) {
        Some(o) => read_u32(bytes, o),
        None => Err(ZipError::BadCentralDirectory),
    }
}

/// Whether the end-of-central-directory signature `PK\x05\x06` starts at `p`.
pub open spec fn eocd_sig_at(b: Seq<u8>, p: int) -> bool {
    0 <= p && p + 4 <= b.len() && b[p] == 0x50 && b[p + 1] == 0x4b && b[p + 2] == 0x05 && b[p
        + 3] == 0x06
}

/// The last offset at or before `p` that holds the signature.
pub open spec fn find_eocd_from(b: Seq<u8>, p: int) -> Option<int>
    decreases p + 1,
{
    if p < 0 {
        None
    } else if eocd_sig_at(b, p) {
        Some(p)
    } else {
        find_eocd_from(b, p - 1)
    }
}

/// Where the end-of-central-directory record starts: the last signature that
/// leaves room for a whole record.
pub open spec fn eocd_offset(b: Seq<u8>) -> Option<int> {
    if b.len() < 22 {
        None
    } else {
        find_eocd_from(b, b.len() - 22)
    }
}

pub proof fn lemma_find_eocd_from(b: Seq<u8>, p: int)
    ensures
        find_eocd_from(b, p) matches Some(q) ==> 0 <= q <= p && eocd_sig_at(b, q),
    decreases p + 1,
{
    if p >= 0 && !eocd_sig_at(b, p) {
        lemma_find_eocd_from(b, p - 1);
    }
}

/// Finds the end-of-central-directory record, searching backwards from the end.
pub fn find_eocd(bytes: &[u8]) -> (r: Option<usize>)
    ensures
        match eocd_offset(bytes@) {
            Some(p) => r matches Some(q) && q as int == p,
            None => r is None,
        },
        r matches Some(p) ==> p + 22 <= bytes@.len(),
{
    proof {
        if bytes@.len() >= 22 {
            lemma_find_eocd_from(bytes@, bytes@.len() - 22);
        }
    }
    if bytes.len() < EOCD_LEN {
        return None;
    }
    let mut cursor: usize = bytes.len() - EOCD_LEN;
    loop
        invariant
            cursor + 22 <= bytes@.len(),
            eocd_offset(bytes@) == find_eocd_from(bytes@, cursor as int),
        decreases cursor,
    {
        if bytes[cursor] == 0x50 && bytes[cursor + 1] == 0x4b && bytes[cursor + 2] == 0x05
            && bytes[cursor + 3] == 0x06 {
            return Some(cursor);
        }
        if cursor == 0 {
            assert(find_eocd_from(bytes@, -1) is None);
            return None;
        }
        cursor = cursor - 1;
    }
}

#[verifier::external_type_specification]
#[verifier::external_body]
pub struct ExUtf8Error(core::str::Utf8Error);

/// `core::str::from_utf8`: the bytes as a string slice when they are well-formed
/// UTF-8, and an error otherwise.
#[verifier::external_body]
pub(crate) fn str_from_utf8<'a>(v: &'a [u8]) -> (r: Result<&'a str, core::str::Utf8Error>)
    ensures
        r is Ok <==> valid_utf8(v@),
        r matches Ok(s) ==> sb(s) == v@,
{
    core::str::from_utf8(v)
}

/// The fields of a central directory entry: name start and end offsets,
/// compression method, compressed size, uncompressed size, local header offset.
pub type CentralFields = (int, int, u16, u32, u32, u32);

/// The central directory entry at offset `c`, and the offset of the next one.
pub open spec fn central_entry(b: Seq<u8>, c: int) -> Result<(CentralFields, int), ZipError> {
    if c < 0 || c + 46 > b.len() || le32(b, c) != CENTRAL_SIG as int {
        Err(ZipError::BadCentralDirectory)
    } else {
        let name_len = le16(b, c + 28);
        let extra_len = le16(b, c + 30);
        let comment_len = le16(b, c + 32);
        let name_start = c + 46;
        let name_end = name_start + name_len;
        let next = name_end + extra_len + comment_len;
        if name_end > usize::MAX || next > usize::MAX || name_end > b.len() {
            Err(ZipError::BadCentralDirectory)
        } else if name_len > MAX_ENTRY_NAME_BYTES {
            Err(ZipError::NameTooLong)
        } else if !valid_utf8(b.subrange(name_start, name_end)) {
            Err(ZipError::BadCentralDirectory)
        } else {
            Ok(
                (
                    (
                        name_start,
                        name_end,
                        le16(b, c + 10) as u16,
                        le32(b, c + 20) as u32,
                        le32(b, c + 24) as u32,
                        le32(b, c + 42) as u32,
                    ),
                    next,
                ),
            )
        }
    }
}

/// Whether an entry carries the given fields, its name read from `b`.
pub open spec fn entry_is(e: ZipEntry, b: Seq<u8>, f: CentralFields) -> bool {
    &&& sb(e.name) == b.subrange(f.0, f.1)
    &&& e.compression_method == f.2
    &&& e.compressed_size == f.3
    &&& e.uncompressed_size == f.4
    &&& e.local_header_offset == f.5
}

/// Parses the central directory entry at `cursor`; returns it with the offset of
/// the next entry.
fn parse_central_entry<'a>(bytes: &'a [u8], cursor: usize) -> (r: Result<(ZipEntry<'a>, usize), ZipError>)
    ensures
        match central_entry(bytes@, cursor as int) {
            Ok((f, next)) => r matches Ok((e, n)) && entry_is(e, bytes@, f) && n == next,
            Err(err) => r == Err::<(ZipEntry<'a>, usize), ZipError>(err),
        },
{
    // The slice's length fits in a `usize`, which bounds the offsets below.
    let _len: usize = bytes.len();
    let sig: u32 = match read_u32(bytes, cursor) {
        Ok(v) => v,
        Err(e) => {
            return Err(e);
        },
    };
    if sig != CENTRAL_SIG {
        return Err(ZipError::BadCentralDirectory);
    }
    let compression_method: u16 = match read_u16_at(bytes, cursor, 10) {
        Ok(v) => v,
        Err(e) => {
            return Err(e);
        },
    };
    let compressed_size: u32 = match read_u32_at(bytes, cursor, 20) {
        Ok(v) => v,
        Err(e) => {
            return Err(e);
        },
    };
    let uncompressed_size: u32 = match read_u32_at(bytes, cursor, 24) {
        Ok(v) => v,
        Err(e) => {
            return Err(e);
        },
    };
    let name_len: usize = match read_u16_at(bytes, cursor, 28) {
        Ok(v) => v as usize,
        Err(e) => {
            return Err(e);
        },
    };
    let extra_len: usize = match read_u16_at(bytes, cursor, 30) {
        Ok(v) => v as usize,
        Err(e) => {
            return Err(e);
        },
    };
    let comment_len: usize = match read_u16_at(bytes, cursor, 32) {
        Ok(v) => v as usize,
        Err(e) => {
            return Err(e);
        },
    };
    let local_header_offset: u32 = match read_u32_at(bytes, cursor, 42) {
        Ok(v) => v,
        Err(e) => {
            return Err(e);
        },
    };
    let name_start: usize = cursor + 46;
    let name_end: usize = match name_start.checked_add(name_len) {
        Some(v) => v,
        None => {
            return Err(ZipError::BadCentralDirectory);
        },
    };
    let next: usize = match name_end.checked_add(extra_len) {
        Some(v) => match v.checked_add(comment_len) {
            Some(w) => w,
            None => {
                return Err(ZipError::BadCentralDirectory);
            },
        },
        None => {
            return Err(ZipError::BadCentralDirectory);
        },
    };
    if name_end > bytes.len() {
        return Err(ZipError::BadCentralDirectory);
    }
    let name_bytes: &'a [u8] = vstd::slice::slice_subrange(bytes, name_start, name_end);
    if name_len > MAX_ENTRY_NAME_BYTES {
        return Err(ZipError::NameTooLong);
    }
    let name: &'a str = match str_from_utf8(name_bytes) {
        Ok(s) => s,
        Err(_) => {
            return Err(ZipError::BadCentralDirectory);
        },
    };
    Ok(
        (
            ZipEntry {
                name,
                compression_method,
                compressed_size,
                uncompressed_size,
                local_header_offset,
            },
            next,
        ),
    )
}

/// The central directory location that `ZipArchive::new` reads: its offset and
/// its entry count.
pub open spec fn archive_layout(b: Seq<u8>) -> Result<(int, int), ZipError> {
    match eocd_offset(b) {
        None => Err(ZipError::MissingEndOfCentralDirectory),
        Some(e) => {
            let entry_count = le16(b, e + 10);
            let central_size = le32(b, e + 12);
            let central_offset = le32(b, e + 16);
            if central_offset + central_size > b.len() {
                Err(ZipError::BadCentralDirectory)
            } else {
                Ok((central_offset, entry_count))
            }
        },
    }
}

/// An archive held in memory.
pub struct ZipArchive<'a> {
    bytes: &'a [u8],
    central_offset: usize,
    entry_count: usize,
}

/// The entries of an archive, read one at a time; a malformed entry ends them.
pub struct ZipEntries<'a> {
    bytes: &'a [u8],
    cursor: usize,
    remaining: usize,
}

/// The entry that `ZipArchive::find` reports: walking `remaining` entries from
/// offset `c`, the first whose name is `name`. A malformed entry ends the walk.
pub open spec fn find_entry_from(b: Seq<u8>, c: int, remaining: nat, name: Seq<u8>) -> Result<
    CentralFields,
    ZipError,
>
    decreases remaining,
{
    if remaining == 0 {
        Err(ZipError::EntryNotFound)
    } else {
        match central_entry(b, c) {
            Err(_) => Err(ZipError::EntryNotFound),
            Ok((f, next)) => if b.subrange(f.0, f.1) == name {
                Ok(f)
            } else {
                find_entry_from(b, next, (remaining - 1) as nat, name)
            },
        }
    }
}

/// The byte range of an entry's payload, after its local header.
pub open spec fn payload_range(b: Seq<u8>, local_header_offset: u32, compressed_size: u32) -> Result<(int, int), ZipError> {
    let o = local_header_offset as int;
    if o + 4 > b.len() {
        Err(ZipError::BadCentralDirectory)
    } else if le32(b, o) != LOCAL_SIG as int {
        Err(ZipError::BadLocalHeader)
    } else if o + 30 > b.len() {
        Err(ZipError::BadCentralDirectory)
    } else {
        let start = o + 30 + le16(b, o + 26) + le16(b, o + 28);
        let end = start + compressed_size as int;
        if start > usize::MAX || end > usize::MAX || end > b.len() {
            Err(ZipError::BadLocalHeader)
        } else {
            Ok((start, end))
        }
    }
}

/// What reading a payload into an output buffer of `out_len` bytes yields:
/// the stored bytes, or the inflated bytes of a deflated entry.
pub open spec fn decode_payload(method: u16, data: Seq<u8>, out_len: nat) -> Result<Seq<u8>, ZipError> {
    if method == 0 {
        if out_len < data.len() {
            Err(ZipError::OutputTooSmall)
        } else {
            Ok(data)
        }
    } else if method == 8 {
        match raw_inflate(data, out_len) {
            Some(d) => Ok(d),
            None => Err(ZipError::Inflate),
        }
    } else {
        Err(ZipError::UnsupportedCompression)
    }
}

/// What `ZipArchive::read_entry` yields for an entry with the given compression
/// method, compressed size and local header offset.
pub open spec fn archive_read(b: Seq<u8>, method: u16, compressed_size: u32, local_header_offset: u32, out_len: nat) -> Result<Seq<u8>, ZipError> {
    match payload_range(b, local_header_offset, compressed_size) {
        Err(err) => Err(err),
        Ok((s, t)) => decode_payload(method, b.subrange(s, t), out_len),
    }
}

impl<'a> ZipArchive<'a> {
    /// The archive's bytes.
    pub closed spec fn data(&self) -> Seq<u8> {
        self.bytes@
    }

    /// Offset of the central directory.
    pub closed spec fn central_offset(&self) -> int {
        self.central_offset as int
    }

    /// Number of entries the central directory claims.
    pub closed spec fn entry_count(&self) -> int {
        self.entry_count as int
    }

    /// Locates the central directory of an archive.
    pub fn new(bytes: &'a [u8]) -> (r: Result<Self, ZipError>)
        ensures
            match archive_layout(bytes@) {
                Ok((off, count)) => r matches Ok(z) && z.data() == bytes@ && z.central_offset()
                    == off && z.entry_count() == count,
                Err(e) => r matches Err(f) && f == e,
            },
    {
        // The slice's length fits in a `usize`, which bounds the offsets below.
    let _len: usize = bytes.len();
        let eocd: usize = match find_eocd(bytes) {
            Some(p) => p,
            None => {
                return Err(ZipError::MissingEndOfCentralDirectory);
            },
        };
        if eocd + 22 > bytes.len() {
            return Err(ZipError::BadCentralDirectory);
        }
        let entry_count: usize = match read_u16(bytes, eocd + 10) {
            Ok(v) => v as usize,
            Err(e) => {
                return Err(e);
            },
        };
        let central_size: usize = match read_u32(bytes, eocd + 12) {
            Ok(v) => v as usize,
            Err(e) => {
                return Err(e);
            },
        };
        let central_offset: usize = match read_u32(bytes, eocd + 16) {
            Ok(v) => v as usize,
            Err(e) => {
                return Err(e);
            },
        };
        match central_offset.checked_add(central_size) {
            Some(end) => {
                if end > bytes.len() {
                    return Err(ZipError::BadCentralDirectory);
                }
            },
            None => {
                return Err(ZipError::BadCentralDirectory);
            },
        }
        Ok(Self { bytes, central_offset, entry_count })
    }

    /// The entries of the central directory, from its start.
    pub fn entries(&self) -> (r: ZipEntries<'a>)
        ensures
            r.data() == self.data(),
            r.cursor() == self.central_offset(),
            r.remaining() == self.entry_count(),
    {
        ZipEntries { bytes: self.bytes, cursor: self.central_offset, remaining: self.entry_count }
    }

    /// The first entry named `name`, walking the central directory until it ends
    /// or an entry is malformed.
    pub fn find(&self, name: &str) -> (r: Result<ZipEntry<'a>, ZipError>)
        ensures
            match find_entry_from(self.data(), self.central_offset(), self.entry_count() as nat, sb(name)) {
                Ok(f) => r matches Ok(e) && entry_is(e, self.data(), f),
                Err(err) => r == Err::<ZipEntry<'a>, ZipError>(err),
            },
    {
        let mut entries = self.entries();
        loop
            invariant
                entries.data() == self.data(),
                entries.remaining() >= 0,
                find_entry_from(self.data(), self.central_offset(), self.entry_count() as nat, sb(name))
                    == find_entry_from(
                    self.data(),
                    entries.cursor(),
                    entries.remaining() as nat,
                    sb(name),
                ),
            decreases entries.remaining(),
        {
            match entries.next() {
                None => {
                    return Err(ZipError::EntryNotFound);
                },
                Some(Ok(entry)) => {
                    if str_eq_name(entry.name, name) {
                        return Ok(entry);
                    }
                },
                Some(Err(_)) => {},
            }
        }
    }

    /// Copies a stored entry, or inflates a deflated one, into `output`; returns
    /// the number of bytes written.
    pub fn read_entry(&self, entry: ZipEntry<'a>, output: &mut [u8]) -> (r: Result<usize, ZipError>)
        ensures
            final(output)@.len() == old(output)@.len(),
            r matches Ok(n) ==> n <= old(output)@.len(),
            match archive_read(
                self.data(),
                entry.compression_method,
                entry.compressed_size,
                entry.local_header_offset,
                old(output)@.len() as nat,
            ) {
                Ok(d) => r matches Ok(n) && n == d.len() && final(output)@.subrange(0, n as int) == d,
                Err(e) => r == Err::<usize, ZipError>(e),
            },
            entry.compression_method == 0 && r is Ok ==> final(output)@.subrange(
                entry.compressed_size as int,
                old(output)@.len() as int,
            ) == old(output)@.subrange(entry.compressed_size as int, old(output)@.len() as int),
    {
        let compressed: &'a [u8] = match self.entry_payload(entry) {
            Ok(c) => c,
            Err(e) => {
                return Err(e);
            },
        };
        read_payload(entry.compression_method, compressed, output)
    }

    /// The payload bytes of an entry, located through its local header.
    fn entry_payload(&self, entry: ZipEntry<'a>) -> (r: Result<&'a [u8], ZipError>)
        ensures
            match payload_range(self.data(), entry.local_header_offset, entry.compressed_size) {
                Ok((s, t)) => r matches Ok(p) && p@ == self.data().subrange(s, t),
                Err(e) => r == Err::<&'a [u8], ZipError>(e),
            },
    {
        let offset: usize = entry.local_header_offset as usize;
        let sig: u32 = match read_u32(self.bytes, offset) {
            Ok(v) => v,
            Err(e) => {
                return Err(e);
            },
        };
        if sig != LOCAL_SIG {
            return Err(ZipError::BadLocalHeader);
        }
        let name_len: usize = match read_u16_at(self.bytes, offset, 26) {
            Ok(v) => v as usize,
            Err(e) => {
                return Err(e);
            },
        };
        let extra_len: usize = match read_u16_at(self.bytes, offset, 28) {
            Ok(v) => v as usize,
            Err(e) => {
                return Err(e);
            },
        };
        let start: usize = match offset.checked_add(30) {
            Some(a) => match a.checked_add(name_len) {
                Some(b) => match b.checked_add(extra_len) {
                    Some(c) => c,
                    None => {
                        return Err(ZipError::BadLocalHeader);
                    },
                },
                None => {
                    return Err(ZipError::BadLocalHeader);
                },
            },
            None => {
                return Err(ZipError::BadLocalHeader);
            },
        };
        let end: usize = match start.checked_add(entry.compressed_size as usize) {
            Some(e) => e,
            None => {
                return Err(ZipError::BadLocalHeader);
            },
        };
        if end > self.bytes.len() {
            return Err(ZipError::BadLocalHeader);
        }
        Ok(vstd::slice::slice_subrange(self.bytes, start, end))
    }
}

fn str_eq_name(a: &str, b: &str) -> (r: bool)
    ensures
        r == (sb(a) == sb(b)),
{
    crate::strs::str_eq(a, b)
}

impl<'a> ZipEntries<'a> {
    /// The archive's bytes.
    pub closed spec fn data(&self) -> Seq<u8> {
        self.bytes@
    }

    /// Offset of the next entry.
    pub closed spec fn cursor(&self) -> int {
        self.cursor as int
    }

    /// Number of entries left.
    pub closed spec fn remaining(&self) -> int {
        self.remaining as int
    }

    /// The next entry; a malformed entry is reported once and ends the walk.
    pub fn next(&mut self) -> (r: Option<Result<ZipEntry<'a>, ZipError>>)
        ensures
            final(self).data() == old(self).data(),
            old(self).remaining() == 0 ==> r is None && *final(self) == *old(self),
            old(self).remaining() > 0 ==> match central_entry(old(self).data(), old(self).cursor()) {
                Ok((f, next)) => r matches Some(Ok(e)) && entry_is(e, old(self).data(), f)
                    && final(self).cursor() == next && final(self).remaining() == old(
                    self,
                ).remaining() - 1,
                Err(err) => r == Some(Err::<ZipEntry<'a>, ZipError>(err)) && final(self).remaining()
                    == 0,
            },
    {
        if self.remaining == 0 {
            return None;
        }
        self.remaining = self.remaining - 1;
        match parse_central_entry(self.bytes, self.cursor) {
            Ok((entry, next_cursor)) => {
                self.cursor = next_cursor;
                Some(Ok(entry))
            },
            Err(e) => {
                self.remaining = 0;
                Some(Err(e))
            },
        }
    }
}

// ---------------------------------------------------------------------------
// Payload decoding.
#[verifier::external_type_specification]
#[verifier::external_body]
pub struct ExTinflStatus(miniz_oxide::inflate::TINFLStatus);

/// The bytes that raw (header-less) DEFLATE decompression of `compressed` into
/// an output buffer of `out_len` bytes produces, or `None` when it fails.
pub uninterp spec fn raw_inflate(compressed: Seq<u8>, out_len: nat) -> Option<Seq<u8>>;

/// `miniz_oxide::inflate::decompress_slice_iter_to_slice` on one input slice,
/// without a zlib header and without checking an Adler-32 sum: on success the
/// output starts with the inflated bytes and their count is returned. Which
/// failure status comes back, and what the rest of the output holds, is not
/// stated.
#[verifier::external_body]
fn inflate_raw(output: &mut [u8], compressed: &[u8]) -> (r: Result<usize, miniz_oxide::inflate::TINFLStatus>)
    ensures
        final(output)@.len() == old(output)@.len(),
        r is Ok <==> raw_inflate(compressed@, old(output)@.len() as nat) is Some,
        r matches Ok(n) ==> n == raw_inflate(compressed@, old(output)@.len() as nat).unwrap().len()
            && n <= old(output)@.len() && final(output)@.subrange(0, n as int) == raw_inflate(
            compressed@,
            old(output)@.len() as nat,
        ).unwrap(),
{
    miniz_oxide::inflate::decompress_slice_iter_to_slice(output, core::iter::once(compressed), false, true)
}

/// Maps the outcome of inflation to the archive's error type.
pub fn inflate_outcome(r: Result<usize, miniz_oxide::inflate::TINFLStatus>) -> (s: Result<usize, ZipError>)
    ensures
        r matches Ok(n) ==> s == Ok::<usize, ZipError>(n),
        r is Err ==> s == Err::<usize, ZipError>(ZipError::Inflate),
{
    match r {
        Ok(n) => Ok(n),
        Err(_) => Err(ZipError::Inflate),
    }
}

/// Writes the decoded payload of an entry with the given compression method.
pub(crate) fn read_payload(method: u16, compressed: &[u8], output: &mut [u8]) -> (r: Result<usize, ZipError>)
    ensures
        final(output)@.len() == old(output)@.len(),
        r matches Ok(n) ==> n <= old(output)@.len(),
        match decode_payload(method, compressed@, old(output)@.len() as nat) {
            Ok(d) => r matches Ok(n) && n == d.len() && final(output)@.subrange(0, n as int) == d,
            Err(e) => r == Err::<usize, ZipError>(e),
        },
        method == 0 && r is Ok ==> final(output)@.subrange(
            compressed@.len() as int,
            old(output)@.len() as int,
        ) == old(output)@.subrange(compressed@.len() as int, old(output)@.len() as int),
{
    if method == 0 {
        if output.len() < compressed.len() {
            return Err(ZipError::OutputTooSmall);
        }
        copy_prefix(output, compressed);
        Ok(compressed.len())
    } else if method == 8 {
        inflate_outcome(inflate_raw(output, compressed))
    } else {
        Err(ZipError::UnsupportedCompression)
    }
}

/// Copies `src` over the start of `dst`.
fn copy_prefix(dst: &mut [u8], src: &[u8])
    requires
        src@.len() <= old(dst)@.len(),
    ensures
        final(dst)@.len() == old(dst)@.len(),
        final(dst)@.subrange(0, src@.len() as int) == src@,
        final(dst)@.subrange(src@.len() as int, old(dst)@.len() as int) == old(dst)@.subrange(
            src@.len() as int,
            old(dst)@.len() as int,
        ),
{
    let mut i: usize = 0;
    while i < src.len()
        invariant
            src@.len() <= dst@.len(),
            dst@.len() == old(dst)@.len(),
            i <= src@.len(),
            forall|j: int| 0 <= j < i ==> dst@[j] == src@[j],
            forall|j: int| src@.len() <= j < dst@.len() ==> dst@[j] == old(dst)@[j],
        decreases src@.len() - i,
    {
        dst[i] = src[i];
        i = i + 1;
    }
    assert(dst@.subrange(0, src@.len() as int) =~= src@);
    assert(dst@.subrange(src@.len() as int, old(dst)@.len() as int) =~= old(dst)@.subrange(
        src@.len() as int,
        old(dst)@.len() as int,
    ));
}

// ---------------------------------------------------------------------------
// Archives as they are written.
/// Little-endian bytes of a 16-bit value.
pub open spec fn u16_bytes(v: int) -> Seq<u8> {
    seq![(v % 256) as u8, ((v / 256) % 256) as u8]
}

/// A local file header as written: the signature, 22 bytes of fields
/// (version, flags, method, times, checksum, sizes), the name and extra-field
/// lengths, the name and the extra field.
pub open spec fn local_header(fields: Seq<u8>, name: Seq<u8>, extra: Seq<u8>) -> Seq<u8> {
    seq![0x50u8, 0x4bu8, 0x03u8, 0x04u8] + fields + u16_bytes(name.len() as int) + u16_bytes(
        extra.len() as int,
    ) + name + extra
}

/// A central directory header as written: the signature, 24 bytes of fields
/// (versions, flags, method, times, checksum, sizes), the name, extra-field
/// and comment lengths, 12 bytes of fields (disk, attributes, local header
/// offset), then the name, the extra field and the comment.
pub type CentralHeader = (Seq<u8>, Seq<u8>, Seq<u8>, Seq<u8>, Seq<u8>);

pub open spec fn central_header(h: CentralHeader) -> Seq<u8> {
    seq![0x50u8, 0x4bu8, 0x01u8, 0x02u8] + h.0 + u16_bytes(h.1.len() as int) + u16_bytes(
        h.2.len() as int,
    ) + u16_bytes(h.3.len() as int) + h.4 + h.1 + h.2 + h.3
}

/// Whether a central directory header has the shape the format gives it and a
/// name the archive accepts.
pub open spec fn central_header_ok(h: CentralHeader) -> bool {
    &&& h.0.len() == 24
    &&& h.4.len() == 12
    &&& h.1.len() <= MAX_ENTRY_NAME_BYTES
    &&& valid_utf8(h.1)
    &&& h.2.len() < 65536
    &&& h.3.len() < 65536
}

/// Central directory headers written one after another.
pub open spec fn central_dir(hs: Seq<CentralHeader>) -> Seq<u8>
    decreases hs.len(),
{
    if hs.len() == 0 {
        Seq::empty()
    } else {
        central_header(hs[0]) + central_dir(hs.drop_first())
    }
}

pub proof fn lemma_u16_bytes(b: Seq<u8>, p: int, v: int)
    requires
        0 <= v < 65536,
        0 <= p,
        p + 2 <= b.len(),
        b[p] == u16_bytes(v)[0],
        b[p + 1] == u16_bytes(v)[1],
    ensures
        le16(b, p) == v,
{
    assert((v % 256) + ((v / 256) % 256) * 256 == v) by (nonlinear_arith)
        requires
            0 <= v < 65536,
    ;
}

/// A stored entry reads back exactly the bytes written after its local header,
/// whatever the lengths of its name and extra field.
pub proof fn lemma_stored_entry_reads_back(
    pre: Seq<u8>,
    fields: Seq<u8>,
    name: Seq<u8>,
    extra: Seq<u8>,
    data: Seq<u8>,
    post: Seq<u8>,
    out_len: nat,
)
    requires
        fields.len() == 22,
        name.len() < 65536,
        extra.len() < 65536,
        pre.len() <= u32::MAX,
        data.len() <= u32::MAX,
        pre.len() + local_header(fields, name, extra).len() + data.len() + post.len() <= usize::MAX,
    ensures
        archive_read(
            pre + local_header(fields, name, extra) + data + post,
            0,
            data.len() as u32,
            pre.len() as u32,
            out_len,
        ) == (if out_len < data.len() {
            Err::<Seq<u8>, ZipError>(ZipError::OutputTooSmall)
        } else {
            Ok::<Seq<u8>, ZipError>(data)
        }),
{
    let h = local_header(fields, name, extra);
    let b = pre + h + data + post;
    let o = pre.len() as int;
    assert(b.subrange(o, o + h.len()) =~= h);
    assert(b[o] == 0x50 && b[o + 1] == 0x4b && b[o + 2] == 0x03 && b[o + 3] == 0x04) by {
        assert(b[o] == h[0]);
        assert(b[o + 1] == h[1]);
        assert(b[o + 2] == h[2]);
        assert(b[o + 3] == h[3]);
    }
    assert(b[o + 26] == h[26] && b[o + 27] == h[27] && b[o + 28] == h[28] && b[o + 29] == h[29]);
    lemma_u16_bytes(b, o + 26, name.len() as int);
    lemma_u16_bytes(b, o + 28, extra.len() as int);
    let start = o + 30 + name.len() + extra.len();
    assert(b.subrange(start, start + data.len()) =~= data);
}

pub(crate) proof fn lemma_central_header_at(b: Seq<u8>, c: int, h: CentralHeader)
    requires
        central_header_ok(h),
        0 <= c,
        c + central_header(h).len() <= b.len(),
        b.len() <= usize::MAX,
        b.subrange(c, c + central_header(h).len()) == central_header(h),
    ensures
        central_entry(b, c) matches Ok((f, next)) && next == c + central_header(h).len() && f.0 == c
            + 46 && b.subrange(f.0, f.1) == h.1 && f.2 == le16(h.0, 6) && f.3 == le32(h.0, 16)
            && f.4 == le32(h.0, 20) && f.5 == le32(h.4, 8),
        le32(b, c) == CENTRAL_SIG,
        le16(b, c + 28) == h.1.len(),
        le16(b, c + 30) == h.2.len(),
        le16(b, c + 32) == h.3.len(),
{
    let hb = central_header(h);
    assert forall|i: int| 0 <= i < hb.len() implies b[c + i] == hb[i] by {
        assert(b.subrange(c, c + hb.len())[i] == b[c + i]);
    }
    assert(b[c] == hb[0] && b[c + 1] == hb[1] && b[c + 2] == hb[2] && b[c + 3] == hb[3]);
    assert(b[c + 28] == hb[28] && b[c + 29] == hb[29]);
    assert(b[c + 30] == hb[30] && b[c + 31] == hb[31]);
    assert(b[c + 32] == hb[32] && b[c + 33] == hb[33]);
    lemma_u16_bytes(b, c + 28, h.1.len() as int);
    lemma_u16_bytes(b, c + 30, h.2.len() as int);
    lemma_u16_bytes(b, c + 32, h.3.len() as int);
    assert(b.subrange(c + 46, c + 46 + h.1.len()) =~= h.1) by {
        assert forall|i: int| 0 <= i < h.1.len() implies b[c + 46 + i] == h.1[i] by {
            assert(b[c + 46 + i] == hb[46 + i]);
        }
    }
    assert(b[c + 10] == h.0[6] && b[c + 11] == h.0[7]) by {
        assert(b[c + 10] == hb[10]);
        assert(b[c + 11] == hb[11]);
    }
    assert(b[c + 20] == h.0[16] && b[c + 21] == h.0[17] && b[c + 22] == h.0[18] && b[c + 23]
        == h.0[19]) by {
        assert(b[c + 20] == hb[20]);
        assert(b[c + 21] == hb[21]);
        assert(b[c + 22] == hb[22]);
        assert(b[c + 23] == hb[23]);
    }
    assert(b[c + 24] == h.0[20] && b[c + 25] == h.0[21] && b[c + 26] == h.0[22] && b[c + 27]
        == h.0[23]) by {
        assert(b[c + 24] == hb[24]);
        assert(b[c + 25] == hb[25]);
        assert(b[c + 26] == hb[26]);
        assert(b[c + 27] == hb[27]);
    }
    assert(b[c + 42] == h.4[8] && b[c + 43] == h.4[9] && b[c + 44] == h.4[10] && b[c + 45]
        == h.4[11]) by {
        assert(b[c + 42] == hb[42]);
        assert(b[c + 43] == hb[43]);
        assert(b[c + 44] == hb[44]);
        assert(b[c + 45] == hb[45]);
    }
}

pub(crate) proof fn lemma_central_dir_split(b: Seq<u8>, c: int, hs: Seq<CentralHeader>)
    requires
        hs.len() > 0,
        0 <= c,
        c + central_dir(hs).len() <= b.len(),
        b.subrange(c, c + central_dir(hs).len()) == central_dir(hs),
    ensures
        central_dir(hs) == central_header(hs[0]) + central_dir(hs.drop_first()),
        b.subrange(c, c + central_header(hs[0]).len()) == central_header(hs[0]),
        b.subrange(
            c + central_header(hs[0]).len(),
            c + central_header(hs[0]).len() + central_dir(hs.drop_first()).len(),
        ) == central_dir(hs.drop_first()),
{
    let h = central_header(hs[0]);
    let rest = central_dir(hs.drop_first());
    assert(b.subrange(c, c + h.len()) =~= b.subrange(c, c + central_dir(hs).len()).subrange(
        0,
        h.len() as int,
    ));
    assert(b.subrange(c + h.len(), c + h.len() + rest.len()) =~= b.subrange(
        c,
        c + central_dir(hs).len(),
    ).subrange(h.len() as int, central_dir(hs).len() as int));
}

/// In a central directory written as a run of headers, with any extra fields
/// and comments, looking up a name finds the first header carrying it, with
/// that header's fields; each header is stepped over whole.
pub proof fn lemma_find_in_written_directory(
    b: Seq<u8>,
    c: int,
    hs: Seq<CentralHeader>,
    k: int,
    n: nat,
    name: Seq<u8>,
)
    requires
        0 <= c,
        forall|i: int| 0 <= i < hs.len() ==> central_header_ok(#[trigger] hs[i]),
        0 <= k < hs.len(),
        hs[k].1 == name,
        forall|i: int| 0 <= i < k ==> (#[trigger] hs[i]).1 != name,
        k < n,
        c + central_dir(hs).len() <= b.len(),
        b.len() <= usize::MAX,
        b.subrange(c, c + central_dir(hs).len()) == central_dir(hs),
    ensures
        find_entry_from(b, c, n, name) matches Ok(f) && f.0 == c + central_dir(hs.take(k)).len()
            + 46 && b.subrange(f.0, f.1) == name && f.2 == le16(hs[k].0, 6) && f.3 == le32(
            hs[k].0,
            16,
        ) && f.4 == le32(hs[k].0, 20) && f.5 == le32(hs[k].4, 8),
    decreases k,
{
    lemma_central_dir_split(b, c, hs);
    let h = hs[0];
    lemma_central_header_at(b, c, h);
    if k > 0 {
        let rest = hs.drop_first();
        let next = c + central_header(h).len();
        assert forall|i: int| 0 <= i < rest.len() implies central_header_ok(#[trigger] rest[i]) by {
            assert(rest[i] == hs[i + 1]);
        }
        assert forall|i: int| 0 <= i < k - 1 implies (#[trigger] rest[i]).1 != name by {
            assert(rest[i] == hs[i + 1]);
        }
        assert(rest[k - 1] == hs[k]);
        lemma_find_in_written_directory(b, next, rest, k - 1, (n - 1) as nat, name);
        assert(hs.take(k).drop_first() =~= rest.take(k - 1));
        assert(hs.take(k)[0] == hs[0]);
    } else {
        assert(hs.take(0) =~= Seq::<CentralHeader>::empty());
    }
}

/// In a central directory written as a run of headers, none of which carries
/// the name, looking it up over exactly those headers finds nothing.
pub proof fn lemma_absent_from_written_directory(
    b: Seq<u8>,
    c: int,
    hs: Seq<CentralHeader>,
    name: Seq<u8>,
)
    requires
        0 <= c,
        forall|i: int| 0 <= i < hs.len() ==> central_header_ok(#[trigger] hs[i]),
        forall|i: int| 0 <= i < hs.len() ==> (#[trigger] hs[i]).1 != name,
        c + central_dir(hs).len() <= b.len(),
        b.len() <= usize::MAX,
        b.subrange(c, c + central_dir(hs).len()) == central_dir(hs),
    ensures
        find_entry_from(b, c, hs.len(), name) == Err::<CentralFields, ZipError>(
            ZipError::EntryNotFound,
        ),
    decreases hs.len(),
{
    if hs.len() > 0 {
        lemma_central_dir_split(b, c, hs);
        let h = hs[0];
        lemma_central_header_at(b, c, h);
        let rest = hs.drop_first();
        assert forall|i: int| 0 <= i < rest.len() implies central_header_ok(#[trigger] rest[i]) by {
            assert(rest[i] == hs[i + 1]);
        }
        assert forall|i: int| 0 <= i < rest.len() implies (#[trigger] rest[i]).1 != name by {
            assert(rest[i] == hs[i + 1]);
        }
        lemma_absent_from_written_directory(b, c + central_header(h).len(), rest, name);
    }
}

} // verus!
