//! ZIP access through a random-access reader, for archives too large to hold in
//! memory: only the tail, one central directory header and one payload at a time
//! are read into caller-provided scratch buffers.
use vstd::prelude::*;
use crate::strs::{bytes_eq, sb};
use crate::zip::{
    archive_layout, archive_read, central_dir, central_entry, central_header, central_header_ok,
    decode_payload, eocd_offset, find_entry_from, find_eocd, lemma_central_dir_split,
    lemma_central_header_at, lemma_stored_entry_reads_back, le16, le32, local_header,
    payload_range, read_payload, read_u16, read_u32, CentralHeader, OwnedZipEntry, ZipError,
    CENTRAL_SIG, LOCAL_SIG, MAX_ENTRY_NAME_BYTES,
};

verus! {

/// A source of bytes read front to back.
pub trait ByteStream {
    type Error;

    fn read(&mut self, out: &mut [u8]) -> Result<usize, Self::Error>;
}

/// How many bytes a read of up to `room` bytes at `offset` gets from `len`
/// bytes: as many as fit, and none past the end.
pub open spec fn read_count(len: int, offset: int, room: int) -> int {
    if offset >= len {
        0
    } else if room < len - offset {
        room
    } else {
        len - offset
    }
}

/// A source of bytes read at arbitrary offsets, such as a file on a card.
pub trait ReadAt {
    type Error;

    /// The bytes behind the reader.
    spec fn content(&self) -> Seq<u8>;

    /// Whether the reader serves its bytes, now and on every later call: its
    /// length is reported, and every read succeeds with as many bytes as fit.
    spec fn serves(&self) -> bool;

    /// The number of bytes behind the reader.
    fn len(&mut self) -> (r: Result<u32, Self::Error>)
        ensures
            final(self).content() == old(self).content(),
            old(self).serves() ==> final(self).serves(),
            r matches Ok(n) ==> n as int == old(self).content().len(),
            old(self).serves() ==> r is Ok,
    ;

    /// Whether there are no bytes behind the reader.
    fn is_empty(&mut self) -> (r: Result<bool, Self::Error>)
        ensures
            final(self).content() == old(self).content(),
            old(self).serves() ==> final(self).serves(),
            r matches Ok(b) ==> b == (old(self).content().len() == 0),
            old(self).serves() ==> r is Ok,
    {
        match self.len() {
            Ok(n) => Ok(n == 0),
            Err(e) => Err(e),
        }
    }

    /// Reads up to `out.len()` bytes at `offset` into the start of `out`;
    /// returns how many were read.
    fn read_at(&mut self, offset: u32, out: &mut [u8]) -> (r: Result<usize, Self::Error>)
        ensures
            final(self).content() == old(self).content(),
            old(self).serves() ==> final(self).serves(),
            final(out)@.len() == old(out)@.len(),
            r matches Ok(n) ==> n <= old(out)@.len() && (n > 0 ==> offset + n <= old(
                self,
            ).content().len() && final(out)@.subrange(0, n as int) == old(self).content().subrange(
                offset as int,
                offset + n,
            )),
            old(self).serves() ==> (r matches Ok(n) && n == read_count(
                old(self).content().len() as int,
                offset as int,
                old(out)@.len() as int,
            )),
    ;
}

/// A reader over bytes held in memory.
pub struct SliceReader<'a> {
    bytes: &'a [u8],
}

impl<'a> SliceReader<'a> {
    /// A reader over `bytes`; it serves them when their length fits 32 bits.
    pub fn new(bytes: &'a [u8]) -> (r: Self)
        ensures
            r.content() == bytes@,
            r.serves() == (bytes@.len() <= u32::MAX),
    {
        SliceReader { bytes }
    }
}

impl<'a> ReadAt for SliceReader<'a> {
    type Error = ();

    closed spec fn content(&self) -> Seq<u8> {
        self.bytes@
    }

    closed spec fn serves(&self) -> bool {
        self.bytes@.len() <= u32::MAX
    }

    /// The length of the bytes; it fails only when they do not fit 32 bits.
    fn len(&mut self) -> (r: Result<u32, ()>)
        ensures
            *final(self) == *old(self),
            old(self).content().len() <= u32::MAX ==> r == Ok::<u32, ()>(
                old(self).content().len() as u32,
            ),
            old(self).content().len() > u32::MAX ==> r == Err::<u32, ()>(()),
    {
        if self.bytes.len() > 0xffff_ffff {
            Err(())
        } else {
            Ok(self.bytes.len() as u32)
        }
    }

    /// Never fails: copies the bytes from `offset` on, as many as `out` holds,
    /// and leaves the rest of `out` as it was; past the end it reads nothing.
    fn read_at(&mut self, offset: u32, out: &mut [u8]) -> (r: Result<usize, ()>)
        ensures
            *final(self) == *old(self),
            r == Ok::<usize, ()>(
                if offset > old(self).content().len() {
                    0usize
                } else if old(out)@.len() < old(self).content().len() - offset {
                    old(out)@.len() as usize
                } else {
                    (old(self).content().len() - offset) as usize
                },
            ),
            r matches Ok(n) ==> final(out)@.subrange(n as int, old(out)@.len() as int) == old(
                out,
            )@.subrange(n as int, old(out)@.len() as int),
    {
        let offset: usize = offset as usize;
        if offset > self.bytes.len() {
            return Ok(0);
        }
        let rest: usize = self.bytes.len() - offset;
        let count: usize = if out.len() < rest {
            out.len()
        } else {
            rest
        };
        let blen: usize = self.bytes.len();
        let mut i: usize = 0;
        while i < count
            invariant
                blen == self.bytes@.len(),
                count <= out@.len(),
                offset + count <= self.bytes@.len(),
                out@.len() == old(out)@.len(),
                i <= count,
                forall|j: int| 0 <= j < i ==> out@[j] == self.bytes@[offset + j],
                forall|j: int| count <= j < out@.len() ==> out@[j] == old(out)@[j],
            decreases count - i,
        {
            out[i] = self.bytes[offset + i];
            i = i + 1;
        }
        assert(out@.subrange(0, count as int) =~= self.bytes@.subrange(
            offset as int,
            offset + count,
        ));
        assert(out@.subrange(count as int, out@.len() as int) =~= old(out)@.subrange(
            count as int,
            old(out)@.len() as int,
        ));
        Ok(count)
    }
}

/// Fills all of `out` with the reader's bytes at `offset`; a short read or a
/// reader failure is an I/O error.
fn read_exact_at<R: ReadAt>(reader: &mut R, offset: u32, out: &mut [u8]) -> (r: Result<(), ZipError>)
    requires
        old(reader).content().len() <= u32::MAX,
    ensures
        final(reader).content() == old(reader).content(),
        final(out)@.len() == old(out)@.len(),
        r is Ok ==> old(out)@.len() == 0 || (offset + old(out)@.len() <= old(
            reader,
        ).content().len() && final(out)@ == old(reader).content().subrange(
            offset as int,
            offset + old(out)@.len(),
        )),
        r is Err ==> r == Err::<(), ZipError>(ZipError::Io),
        old(reader).serves() ==> final(reader).serves(),
        old(out)@.len() == 0 ==> r is Ok && final(out)@ == old(out)@,
        old(reader).serves() ==> (r is Ok <==> (old(out)@.len() == 0 || offset + old(out)@.len()
            <= old(reader).content().len())),
{
    let ghost content = reader.content();
    let ghost serving = reader.serves();
    let n: usize = out.len();
    let mut filled: usize = 0;
    while filled < n
        invariant
            reader.content() == content,
            content == old(reader).content(),
            serving == old(reader).serves(),
            serving ==> reader.serves(),
            serving && offset + n <= content.len() ==> (filled == 0 || filled == n),
            content.len() <= u32::MAX,
            out@.len() == n,
            n == old(out)@.len(),
            filled <= n,
            filled > 0 ==> offset + filled <= content.len() && out@.subrange(0, filled as int)
                == content.subrange(offset as int, offset + filled),
        decreases n - filled,
    {
        let ghost before = out@;
        let (head, tail) = out.split_at_mut(filled);
        let count: usize = match reader.read_at(offset + filled as u32, tail) {
            Ok(c) => c,
            Err(_) => {
                return Err(ZipError::Io);
            },
        };
        if count == 0 {
            return Err(ZipError::Io);
        }
        proof {
            if serving && offset + n <= content.len() {
                assert(count == n);
            }
        }
        proof {
            if filled > 0 {
                assert(out@.subrange(0, filled + count) =~= before.subrange(0, filled as int)
                    + content.subrange(offset + filled, offset + filled + count));
            } else {
                assert(out@.subrange(0, filled + count) =~= content.subrange(
                    offset as int,
                    offset + filled + count,
                ));
            }
        }
        filled = filled + count;
    }
    proof {
        if n > 0 {
            assert(out@ =~= out@.subrange(0, n as int));
        }
    }
    Ok(())
}

/// The central directory location that `ZipStream::new` reads from a tail of at
/// most `scratch_len` bytes: its offset and entry count.
pub open spec fn stream_layout(c: Seq<u8>, scratch_len: nat) -> Result<(int, int), ZipError> {
    if c.len() > u32::MAX {
        Err(ZipError::Io)
    } else if c.len() < 22 {
        Err(ZipError::MissingEndOfCentralDirectory)
    } else {
        let tail_len = if scratch_len < c.len() {
            scratch_len as int
        } else {
            c.len() as int
        };
        let tail = c.subrange(c.len() - tail_len, c.len() as int);
        match eocd_offset(tail) {
            None => Err(ZipError::MissingEndOfCentralDirectory),
            Some(e) => Ok((le32(tail, e + 16), le16(tail, e + 10))),
        }
    }
}

/// The entry that `ZipStream::find_entry` reports: walking `remaining` central
/// directory headers from `cursor`, the first whose name is `name`, with names
/// read into a buffer of `cap` bytes.
pub open spec fn stream_find(c: Seq<u8>, cursor: int, remaining: nat, name: Seq<u8>, cap: nat) -> Result<
    OwnedZipEntry,
    ZipError,
>
    decreases remaining,
{
    if remaining == 0 {
        Err(ZipError::EntryNotFound)
    } else if cursor + 46 > c.len() {
        Err(ZipError::Io)
    } else if le32(c, cursor) != CENTRAL_SIG as int {
        Err(ZipError::BadCentralDirectory)
    } else {
        let name_len = le16(c, cursor + 28);
        let extra_len = le16(c, cursor + 30);
        let comment_len = le16(c, cursor + 32);
        if name_len > cap {
            Err(ZipError::EntryBufferTooSmall)
        } else if cursor + 46 + name_len > c.len() {
            Err(ZipError::Io)
        } else if c.subrange(cursor + 46, cursor + 46 + name_len) == name {
            Ok(
                OwnedZipEntry {
                    compression_method: le16(c, cursor + 10) as u16,
                    compressed_size: le32(c, cursor + 20) as u32,
                    uncompressed_size: le32(c, cursor + 24) as u32,
                    local_header_offset: le32(c, cursor + 42) as u32,
                },
            )
        } else {
            let next = cursor + 46 + name_len + extra_len + comment_len;
            if next > u32::MAX {
                Err(ZipError::BadCentralDirectory)
            } else {
                stream_find(c, next, (remaining - 1) as nat, name, cap)
            }
        }
    }
}

/// Where an entry's payload starts, after its local header.
pub open spec fn stream_payload_offset(c: Seq<u8>, e: OwnedZipEntry) -> Result<int, ZipError> {
    let o = e.local_header_offset as int;
    if o + 30 > c.len() {
        Err(ZipError::Io)
    } else if le32(c, o) != LOCAL_SIG as int {
        Err(ZipError::BadLocalHeader)
    } else {
        let start = o + 30 + le16(c, o + 26) + le16(c, o + 28);
        if start > u32::MAX {
            Err(ZipError::BadLocalHeader)
        } else {
            Ok(start)
        }
    }
}

/// What `ZipStream::read_entry` yields for `e`, with a scratch buffer of
/// `scratch_len` bytes and an output buffer of `out_len` bytes.
pub open spec fn stream_read(c: Seq<u8>, e: OwnedZipEntry, scratch_len: nat, out_len: nat) -> Result<
    Seq<u8>,
    ZipError,
> {
    if e.compressed_size > scratch_len {
        Err(ZipError::OutputTooSmall)
    } else {
        match stream_payload_offset(c, e) {
            Err(err) => Err(err),
            Ok(p) => if e.compressed_size > 0 && p + e.compressed_size > c.len() {
                Err(ZipError::Io)
            } else {
                decode_payload(
                    e.compression_method,
                    if e.compressed_size == 0 {
                        Seq::empty()
                    } else {
                        c.subrange(p, p + e.compressed_size)
                    },
                    out_len,
                )
            },
        }
    }
}

/// An archive read through a random-access reader.
pub struct ZipStream<R> {
    reader: R,
    central_offset: u32,
    entry_count: u16,
}

impl<R: ReadAt> ZipStream<R> {
    /// The reader's length fits the 32-bit offsets of the format.
    pub closed spec fn wf(self) -> bool {
        self.reader.content().len() <= u32::MAX
    }

    /// The bytes behind the reader.
    pub closed spec fn content(self) -> Seq<u8> {
        self.reader.content()
    }

    /// Whether the reader serves its bytes.
    pub closed spec fn serves(self) -> bool {
        self.reader.serves()
    }

    /// Offset of the central directory.
    pub closed spec fn central_offset(self) -> int {
        self.central_offset as int
    }

    /// Number of entries the central directory claims.
    pub closed spec fn entry_count(self) -> int {
        self.entry_count as int
    }

    /// Locates the central directory by reading the archive's tail into
    /// `tail_scratch`. Any reader failure is reported as `Io`.
    pub fn new(reader: R, tail_scratch: &mut [u8]) -> (r: Result<Self, ZipError>)
        ensures
            final(tail_scratch)@.len() == old(tail_scratch)@.len(),
            r matches Ok(z) ==> z.wf() && z.content() == reader.content() && stream_layout(
                reader.content(),
                old(tail_scratch)@.len(),
            ) == Ok::<(int, int), ZipError>((z.central_offset(), z.entry_count())),
            r matches Err(e) ==> e != ZipError::Io ==> stream_layout(
                reader.content(),
                old(tail_scratch)@.len(),
            ) == Err::<(int, int), ZipError>(e),
            r matches Ok(z) ==> (reader.serves() ==> z.serves()),
            reader.serves() ==> match stream_layout(reader.content(), old(tail_scratch)@.len()) {
                Ok((off, count)) => r matches Ok(z) && z.central_offset() == off && z.entry_count()
                    == count,
                Err(e) => r == Err::<Self, ZipError>(e),
            },
            reader.serves() && reader.content().len() < 22 ==> final(tail_scratch)@ == old(
                tail_scratch,
            )@,
            reader.serves() && reader.content().len() >= 22 ==> ({
                let len = reader.content().len() as int;
                let t = if old(tail_scratch)@.len() < len {
                    old(tail_scratch)@.len() as int
                } else {
                    len
                };
                &&& final(tail_scratch)@.subrange(0, t) == reader.content().subrange(len - t, len)
                &&& final(tail_scratch)@.subrange(t, old(tail_scratch)@.len() as int) == old(
                    tail_scratch,
                )@.subrange(t, old(tail_scratch)@.len() as int)
            }),
    {
        let mut reader = reader;
        let ghost content = reader.content();
        let len: u32 = match reader.len() {
            Ok(n) => n,
            Err(_) => {
                return Err(ZipError::Io);
            },
        };
        if len < 22 {
            return Err(ZipError::MissingEndOfCentralDirectory);
        }
        let tail_len: usize = if tail_scratch.len() < len as usize {
            tail_scratch.len()
        } else {
            len as usize
        };
        let tail_offset: u32 = len - tail_len as u32;
        let ghost before = tail_scratch@;
        {
            let (head, _rest) = tail_scratch.split_at_mut(tail_len);
            match read_exact_at(&mut reader, tail_offset, head) {
                Ok(()) => {},
                Err(e) => {
                    return Err(e);
                },
            }
        }
        let tail: &[u8] = vstd::slice::slice_subrange(tail_scratch, 0, tail_len);
        proof {
            assert(tail@ =~= content.subrange(content.len() - tail_len, content.len() as int));
        }
        let eocd: usize = match find_eocd(tail) {
            Some(p) => p,
            None => {
                return Err(ZipError::MissingEndOfCentralDirectory);
            },
        };
        let entry_count: u16 = match read_u16(tail, eocd + 10) {
            Ok(v) => v,
            Err(e) => {
                return Err(e);
            },
        };
        let central_offset: u32 = match read_u32(tail, eocd + 16) {
            Ok(v) => v,
            Err(e) => {
                return Err(e);
            },
        };
        Ok(Self { reader, central_offset, entry_count })
    }

    /// The first central directory entry named `name`. Each header is read into
    /// `header_scratch` and each name into `name_scratch`; a reader failure is
    /// reported as `Io`.
    pub fn find_entry(&mut self, name: &str, header_scratch: &mut [u8; 46], name_scratch: &mut [u8]) -> (r:
        Result<OwnedZipEntry, ZipError>)
        requires
            old(self).wf(),
        ensures
            final(self).wf(),
            final(self).content() == old(self).content(),
            final(self).central_offset() == old(self).central_offset(),
            final(self).entry_count() == old(self).entry_count(),
            final(name_scratch)@.len() == old(name_scratch)@.len(),
            r matches Ok(e) ==> stream_find(
                old(self).content(),
                old(self).central_offset(),
                old(self).entry_count() as nat,
                sb(name),
                old(name_scratch)@.len(),
            ) == Ok::<OwnedZipEntry, ZipError>(e),
            r matches Err(e) ==> e != ZipError::Io ==> stream_find(
                old(self).content(),
                old(self).central_offset(),
                old(self).entry_count() as nat,
                sb(name),
                old(name_scratch)@.len(),
            ) == Err::<OwnedZipEntry, ZipError>(e),
            old(self).entry_count() == 0 ==> r == Err::<OwnedZipEntry, ZipError>(
                ZipError::EntryNotFound,
            ),
            old(self).serves() ==> final(self).serves(),
            old(self).serves() ==> r == stream_find(
                old(self).content(),
                old(self).central_offset(),
                old(self).entry_count() as nat,
                sb(name),
                old(name_scratch)@.len(),
            ),
    {
        let ghost c = self.reader.content();
        let ghost cap = name_scratch@.len();
        let name_bytes: &[u8] = name.as_bytes();
        let mut cursor: u32 = self.central_offset;
        let count: u16 = self.entry_count;
        let mut i: u16 = 0;
        while i < count
            invariant
                self.reader.content() == c,
                c == old(self).content(),
                c.len() <= u32::MAX,
                self.central_offset == old(self).central_offset,
                self.entry_count == old(self).entry_count,
                count == self.entry_count,
                name_scratch@.len() == cap,
                cap == old(name_scratch)@.len(),
                name_bytes@ == sb(name),
                old(self).serves() ==> self.reader.serves(),
                i <= count,
                stream_find(c, old(self).central_offset(), count as nat, sb(name), cap)
                    == stream_find(c, cursor as int, (count - i) as nat, sb(name), cap),
            decreases count - i,
        {
            match read_exact_at(&mut self.reader, cursor, header_scratch) {
                Ok(()) => {},
                Err(e) => {
                    return Err(e);
                },
            }
            let header: &[u8] = header_scratch.as_slice();
            proof {
                assert forall|k: int| 0 <= k < 46 implies header@[k] == c[cursor + k] by {
                    assert(header@[k] == c.subrange(cursor as int, cursor + 46)[k]);
                }
            }
            let sig: u32 = match read_u32(header, 0) {
                Ok(v) => v,
                Err(e) => {
                    return Err(e);
                },
            };
            if sig != CENTRAL_SIG {
                return Err(ZipError::BadCentralDirectory);
            }
            let compression_method: u16 = match read_u16(header, 10) {
                Ok(v) => v,
                Err(e) => {
                    return Err(e);
                },
            };
            let compressed_size: u32 = match read_u32(header, 20) {
                Ok(v) => v,
                Err(e) => {
                    return Err(e);
                },
            };
            let uncompressed_size: u32 = match read_u32(header, 24) {
                Ok(v) => v,
                Err(e) => {
                    return Err(e);
                },
            };
            let name_len: usize = match read_u16(header, 28) {
                Ok(v) => v as usize,
                Err(e) => {
                    return Err(e);
                },
            };
            let extra_len: u32 = match read_u16(header, 30) {
                Ok(v) => v as u32,
                Err(e) => {
                    return Err(e);
                },
            };
            let comment_len: u32 = match read_u16(header, 32) {
                Ok(v) => v as u32,
                Err(e) => {
                    return Err(e);
                },
            };
            let local_header_offset: u32 = match read_u32(header, 42) {
                Ok(v) => v,
                Err(e) => {
                    return Err(e);
                },
            };
            if name_len > name_scratch.len() {
                return Err(ZipError::EntryBufferTooSmall);
            }
            let matched: bool;
            {
                let (name_buf, _rest) = name_scratch.split_at_mut(name_len);
                match read_exact_at(&mut self.reader, cursor + 46, name_buf) {
                    Ok(()) => {},
                    Err(e) => {
                        return Err(e);
                    },
                }
                proof {
                    if name_len == 0 {
                        assert(name_buf@ =~= c.subrange(cursor + 46, cursor + 46 + name_len));
                    }
                }
                matched = bytes_eq(name_buf, name_bytes);
            }
            if matched {
                return Ok(
                    OwnedZipEntry {
                        compression_method,
                        compressed_size,
                        uncompressed_size,
                        local_header_offset,
                    },
                );
            }
            cursor = match cursor.checked_add(46 + name_len as u32 + extra_len + comment_len) {
                Some(next) => next,
                None => {
                    return Err(ZipError::BadCentralDirectory);
                },
            };
            i = i + 1;
        }
        Err(ZipError::EntryNotFound)
    }

    /// Reads an entry's payload into `compressed_scratch` and writes it, copied
    /// or inflated, into `output`; returns the number of bytes written. A reader
    /// failure is reported as `Io`.
    pub fn read_entry(&mut self, entry: OwnedZipEntry, compressed_scratch: &mut [u8], output: &mut [u8]) -> (r:
        Result<usize, ZipError>)
        requires
            old(self).wf(),
        ensures
            final(self).wf(),
            final(self).content() == old(self).content(),
            final(self).central_offset() == old(self).central_offset(),
            final(self).entry_count() == old(self).entry_count(),
            final(compressed_scratch)@.len() == old(compressed_scratch)@.len(),
            final(output)@.len() == old(output)@.len(),
            r matches Ok(n) ==> n <= old(output)@.len(),
            r matches Ok(n) ==> stream_read(
                old(self).content(),
                entry,
                old(compressed_scratch)@.len(),
                old(output)@.len(),
            ) matches Ok(d) && n == d.len() && final(output)@.subrange(0, n as int) == d,
            r matches Err(e) ==> e != ZipError::Io ==> stream_read(
                old(self).content(),
                entry,
                old(compressed_scratch)@.len(),
                old(output)@.len(),
            ) == Err::<Seq<u8>, ZipError>(e),
            entry.compressed_size > old(compressed_scratch)@.len() ==> r == Err::<usize, ZipError>(
                ZipError::OutputTooSmall,
            ),
            old(self).serves() ==> final(self).serves(),
            old(self).serves() ==> match stream_read(
                old(self).content(),
                entry,
                old(compressed_scratch)@.len(),
                old(output)@.len(),
            ) {
                Ok(d) => r matches Ok(n) && n == d.len() && final(output)@.subrange(0, n as int) == d,
                Err(e) => r == Err::<usize, ZipError>(e),
            },
    {
        let ghost c = self.reader.content();
        if entry.compressed_size as usize > compressed_scratch.len() {
            return Err(ZipError::OutputTooSmall);
        }
        let payload_offset: u32 = match self.entry_payload_offset(entry) {
            Ok(p) => p,
            Err(e) => {
                return Err(e);
            },
        };
        let (compressed, _rest) = compressed_scratch.split_at_mut(entry.compressed_size as usize);
        match read_exact_at(&mut self.reader, payload_offset, compressed) {
            Ok(()) => {},
            Err(e) => {
                return Err(e);
            },
        }
        proof {
            if entry.compressed_size == 0 {
                assert(compressed@ =~= Seq::<u8>::empty());
            }
        }
        read_payload(entry.compression_method, compressed, output)
    }

    /// Where an entry's payload starts, read from its local header.
    fn entry_payload_offset(&mut self, entry: OwnedZipEntry) -> (r: Result<u32, ZipError>)
        requires
            old(self).wf(),
        ensures
            final(self).wf(),
            final(self).content() == old(self).content(),
            final(self).central_offset() == old(self).central_offset(),
            final(self).entry_count() == old(self).entry_count(),
            r matches Ok(p) ==> stream_payload_offset(old(self).content(), entry) == Ok::<
                int,
                ZipError,
            >(p as int),
            r matches Err(e) ==> e != ZipError::Io ==> stream_payload_offset(
                old(self).content(),
                entry,
            ) == Err::<int, ZipError>(e),
            old(self).serves() ==> final(self).serves(),
            old(self).serves() ==> match stream_payload_offset(old(self).content(), entry) {
                Ok(p) => r == Ok::<u32, ZipError>(p as u32),
                Err(e) => r == Err::<u32, ZipError>(e),
            },
    {
        let ghost c = self.reader.content();
        let mut header = [0u8; 30];
        match read_exact_at(&mut self.reader, entry.local_header_offset, &mut header) {
            Ok(()) => {},
            Err(e) => {
                return Err(e);
            },
        }
        let h: &[u8] = header.as_slice();
        let ghost o: int = entry.local_header_offset as int;
        proof {
            assert forall|k: int| 0 <= k < 30 implies h@[k] == c[o + k] by {
                assert(h@[k] == c.subrange(o, o + 30)[k]);
            }
        }
        let sig: u32 = match read_u32(h, 0) {
            Ok(v) => v,
            Err(e) => {
                return Err(e);
            },
        };
        if sig != LOCAL_SIG {
            return Err(ZipError::BadLocalHeader);
        }
        let name_len: u32 = match read_u16(h, 26) {
            Ok(v) => v as u32,
            Err(e) => {
                return Err(e);
            },
        };
        let extra_len: u32 = match read_u16(h, 28) {
            Ok(v) => v as u32,
            Err(e) => {
                return Err(e);
            },
        };
        match entry.local_header_offset.checked_add(30 + name_len + extra_len) {
            Some(p) => Ok(p),
            None => Err(ZipError::BadLocalHeader),
        }
    }
}

/// Read through a reader with a tail buffer as large as the archive, an
/// archive's central directory is found where the in-memory reader finds it.
pub proof fn lemma_stream_layout_agrees(b: Seq<u8>, scratch_len: nat)
    requires
        b.len() <= u32::MAX,
        scratch_len >= b.len(),
    ensures
        archive_layout(b) matches Ok((off, n)) ==> stream_layout(b, scratch_len) == Ok::<
            (int, int),
            ZipError,
        >((off, n)),
{
    if b.len() >= 22 {
        assert(b.subrange(b.len() - b.len(), b.len() as int) =~= b);
    }
}

/// Walking the same central directory with a name buffer that holds the
/// longest name an archive accepts, the streaming reader finds the entry that
/// the in-memory reader finds, with the same fields. (Offsets past 32 bits,
/// which the streaming reader rejects, are left out.)
pub proof fn lemma_stream_find_agrees(b: Seq<u8>, c: int, n: nat, name: Seq<u8>, cap: nat)
    requires
        b.len() + 0x20000 <= u32::MAX,
        cap >= MAX_ENTRY_NAME_BYTES,
    ensures
        find_entry_from(b, c, n, name) matches Ok(f) ==> stream_find(b, c, n, name, cap) == Ok::<
            OwnedZipEntry,
            ZipError,
        >(
            OwnedZipEntry {
                compression_method: f.2,
                compressed_size: f.3,
                uncompressed_size: f.4,
                local_header_offset: f.5,
            },
        ),
    decreases n,
{
    if n > 0 {
        match central_entry(b, c) {
            Ok((f, next)) => {
                assert(next == c + 46 + le16(b, c + 28) + le16(b, c + 30) + le16(b, c + 32));
                assert(le16(b, c + 30) <= 0xffff && le16(b, c + 32) <= 0xffff) by {
                    assert(b[c + 31] as int * 256 <= 255 * 256);
                    assert(b[c + 33] as int * 256 <= 255 * 256);
                }
                if b.subrange(f.0, f.1) != name {
                    lemma_stream_find_agrees(b, next, (n - 1) as nat, name, cap);
                }
            },
            Err(_) => {},
        }
    }
}

/// The streaming reader reads the same bytes for an entry as the in-memory
/// reader, when its scratch buffer holds the compressed payload and the
/// entry's local header is well-formed.
pub proof fn lemma_stream_read_agrees(b: Seq<u8>, e: OwnedZipEntry, scratch_len: nat, out_len: nat)
    requires
        b.len() <= u32::MAX,
        e.compressed_size <= scratch_len,
        payload_range(b, e.local_header_offset, e.compressed_size) is Ok,
    ensures
        stream_read(b, e, scratch_len, out_len) == archive_read(
            b,
            e.compression_method,
            e.compressed_size,
            e.local_header_offset,
            out_len,
        ),
{
    let o = e.local_header_offset as int;
    let start = o + 30 + le16(b, o + 26) + le16(b, o + 28);
    if e.compressed_size == 0 {
        assert(b.subrange(start, start) =~= Seq::<u8>::empty());
    }
}

/// Read through a reader, a stored entry gives back exactly the bytes written
/// after its local header, whatever the lengths of its name and extra field.
pub proof fn lemma_stream_reads_written_entry(
    pre: Seq<u8>,
    fields: Seq<u8>,
    name: Seq<u8>,
    extra: Seq<u8>,
    data: Seq<u8>,
    post: Seq<u8>,
    uncompressed_size: u32,
    scratch_len: nat,
    out_len: nat,
)
    requires
        fields.len() == 22,
        name.len() < 65536,
        extra.len() < 65536,
        pre.len() + local_header(fields, name, extra).len() + data.len() + post.len() <= u32::MAX,
    ensures
        stream_read(
            pre + local_header(fields, name, extra) + data + post,
            OwnedZipEntry {
                compression_method: 0,
                compressed_size: data.len() as u32,
                uncompressed_size,
                local_header_offset: pre.len() as u32,
            },
            scratch_len,
            out_len,
        ) == (if data.len() > scratch_len || out_len < data.len() {
            Err::<Seq<u8>, ZipError>(ZipError::OutputTooSmall)
        } else {
            Ok::<Seq<u8>, ZipError>(data)
        }),
{
    let b = pre + local_header(fields, name, extra) + data + post;
    let e = OwnedZipEntry {
        compression_method: 0,
        compressed_size: data.len() as u32,
        uncompressed_size,
        local_header_offset: pre.len() as u32,
    };
    lemma_stored_entry_reads_back(pre, fields, name, extra, data, post, out_len);
    if data.len() <= scratch_len {
        lemma_stream_read_agrees(b, e, scratch_len, out_len);
    }
}

/// Read through a reader, a central directory written as a run of headers,
/// with any extra fields and comments, yields the first header carrying the
/// name, with that header's fields, when the name buffer holds every name.
pub proof fn lemma_stream_find_in_written_directory(
    b: Seq<u8>,
    c: int,
    hs: Seq<CentralHeader>,
    k: int,
    n: nat,
    name: Seq<u8>,
    cap: nat,
)
    requires
        0 <= c,
        forall|i: int| 0 <= i < hs.len() ==> central_header_ok(#[trigger] hs[i]),
        0 <= k < hs.len(),
        hs[k].1 == name,
        forall|i: int| 0 <= i < k ==> (#[trigger] hs[i]).1 != name,
        k < n,
        cap >= MAX_ENTRY_NAME_BYTES,
        c + central_dir(hs).len() <= b.len(),
        b.len() <= u32::MAX,
        b.subrange(c, c + central_dir(hs).len()) == central_dir(hs),
    ensures
        stream_find(b, c, n, name, cap) == Ok::<OwnedZipEntry, ZipError>(
            OwnedZipEntry {
                compression_method: le16(hs[k].0, 6) as u16,
                compressed_size: le32(hs[k].0, 16) as u32,
                uncompressed_size: le32(hs[k].0, 20) as u32,
                local_header_offset: le32(hs[k].4, 8) as u32,
            },
        ),
    decreases k,
{
    lemma_central_dir_split(b, c, hs);
    let h = hs[0];
    lemma_central_header_at(b, c, h);
    if k > 0 {
        let rest = hs.drop_first();
        let next = c + central_header(h).len();
        assert forall|i: int| 0 <= i < rest.len() implies central_header_ok(#[trigger] rest[i]) by {
            assert(rest[i] == hs[i + 1]);
        }
        assert forall|i: int| 0 <= i < k - 1 implies (#[trigger] rest[i]).1 != name by {
            assert(rest[i] == hs[i + 1]);
        }
        assert(rest[k - 1] == hs[k]);
        lemma_stream_find_in_written_directory(b, next, rest, k - 1, (n - 1) as nat, name, cap);
    }
}

} // verus!
