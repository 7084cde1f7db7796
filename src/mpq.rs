//! The block-structured archive: header, encrypted hash and block tables, and
//! named files.
use vstd::prelude::*;

use crate::crypto::{build_table, decrypt, decrypt_spec, hash, hash_spec, is_crypt_table, word_at};
use crate::error::DecodeError;
use vstd::string::StringSliceAdditionalSpecFns;

verus! {

/// `MPQ\x1a`, read little-endian.
pub const MAGIC_HEADER: u32 = 0x1A51_504D;

/// `MPQ\x1b`, read little-endian: a user data header comes first.
pub const MAGIC_USER_DATA: u32 = 0x1B51_504D;

pub const FLAG_IMPLODE: u32 = 0x0000_0100;

pub const FLAG_COMPRESSED: u32 = 0x0000_0200;

pub const FLAG_ENCRYPTED: u32 = 0x0001_0000;

pub const FLAG_SINGLE_UNIT: u32 = 0x0100_0000;

pub const FLAG_DELETE_MARKER: u32 = 0x0200_0000;

pub const FLAG_SECTOR_CRC: u32 = 0x0400_0000;

pub const FLAG_EXISTS: u32 = 0x8000_0000;

/// The hash type that names a table's key.
pub const HASH_TABLE_KEY: u32 = 3;

/// The first of the two hash types that check a file name.
pub const HASH_NAME_A: u32 = 1;

/// The second of the two hash types that check a file name.
pub const HASH_NAME_B: u32 = 2;

/// The little-endian 16-bit value at byte `at`.
pub open spec fn u16_at(d: Seq<u8>, at: int) -> u16 {
    (d[at] as int + d[at + 1] as int * 0x100) as u16
}

/// The little-endian 64-bit value at byte `at`.
pub open spec fn i64_at(d: Seq<u8>, at: int) -> i64 {
    (word_at(d, at) as int + word_at(d, at + 4) as int * 0x1_0000_0000) as i64
}

/// Checks the main header at `off`: its position in the file, or why it is
/// not there.
pub open spec fn main_header_spec(d: Seq<u8>, off: int) -> Result<nat, DecodeError> {
    if off + 32 > d.len() {
        Err(DecodeError::Truncated)
    } else if word_at(d, off) != MAGIC_HEADER {
        Err(DecodeError::Corrupted)
    } else if u16_at(d, off + 12) >= 1 && off + 44 > d.len() {
        Err(DecodeError::Truncated)
    } else {
        Ok(off as nat)
    }
}

/// Where the main header starts, after an optional user data header.
pub open spec fn header_spec(d: Seq<u8>) -> Result<nat, DecodeError> {
    if d.len() < 4 {
        Err(DecodeError::Truncated)
    } else if word_at(d, 0) == MAGIC_HEADER {
        main_header_spec(d, 0)
    } else if word_at(d, 0) == MAGIC_USER_DATA {
        if d.len() < 16 || 16 + word_at(d, 12) > d.len() {
            Err(DecodeError::Truncated)
        } else {
            main_header_spec(d, word_at(d, 8) as int)
        }
    } else {
        Err(DecodeError::Corrupted)
    }
}

/// The header that precedes the archive in wrapped files.
#[derive(Debug)]
pub struct UserDataHeader {
    pub user_data_size: u32,
    pub mpq_header_offset: u32,
    pub user_data_header_size: u32,
    pub content: Vec<u8>,
}

/// Header fields present from format version 1 on.
#[derive(Debug, Clone, Copy)]
pub struct HeaderExtension {
    pub extended_block_table_offset: i64,
    pub hash_table_offset_high: i16,
    pub block_table_offset_high: i16,
}

#[derive(Debug)]
pub struct ArchiveHeader {
    pub magic: u32,
    pub header_size: u32,
    pub archive_size: u32,
    pub format_version: u16,
    pub sector_size_shift: u16,
    pub hash_table_offset: u32,
    pub block_table_offset: u32,
    pub hash_table_entries: u32,
    pub block_table_entries: u32,
    pub extension: Option<HeaderExtension>,
    /// Where the main header starts in the file; table and file offsets count
    /// from here.
    pub offset: usize,
    pub user_data_header: Option<UserDataHeader>,
}

impl ArchiveHeader {
    /// The fields are those stored in `d` for a main header at `off`.
    pub open spec fn read_from(&self, d: Seq<u8>, o: nat) -> bool {
        let off = o as int;
        &&& self.offset == o
        &&& self.magic == word_at(d, off)
        &&& self.header_size == word_at(d, off + 4)
        &&& self.archive_size == word_at(d, off + 8)
        &&& self.format_version == u16_at(d, off + 12)
        &&& self.sector_size_shift == u16_at(d, off + 14)
        &&& self.hash_table_offset == word_at(d, off + 16)
        &&& self.block_table_offset == word_at(d, off + 20)
        &&& self.hash_table_entries == word_at(d, off + 24)
        &&& self.block_table_entries == word_at(d, off + 28)
        &&& (self.format_version >= 1 <==> self.extension is Some)
        &&& (self.extension matches Some(x) ==> {
            &&& x.extended_block_table_offset == i64_at(d, off + 32)
            &&& x.hash_table_offset_high == u16_at(d, off + 40) as i16
            &&& x.block_table_offset_high == u16_at(d, off + 42) as i16
        })
        &&& (word_at(d, 0) == MAGIC_USER_DATA <==> self.user_data_header is Some)
        &&& (self.user_data_header matches Some(u) ==> {
            &&& u.user_data_size == word_at(d, 4)
            &&& u.mpq_header_offset == word_at(d, 8)
            &&& u.user_data_header_size == word_at(d, 12)
            &&& u.content@ == d.subrange(16, 16 + word_at(d, 12))
        })
    }
}

#[derive(Debug, Clone, Copy, PartialEq, Eq, Structural)]
pub struct HashTableEntry {
    pub hash_a: u32,
    pub hash_b: u32,
    pub locale: u16,
    pub platform: u16,
    pub block_index: u32,
}

#[derive(Debug, Clone, Copy, PartialEq, Eq, Structural)]
pub struct BlockTableEntry {
    pub offset: u32,
    pub archived_size: usize,
    pub size: usize,
    pub flags: u32,
}

/// The hash table entry stored at record `k` of plain table bytes `p`.
pub open spec fn hash_entry_at(p: Seq<u8>, k: int) -> HashTableEntry {
    HashTableEntry {
        hash_a: word_at(p, 16 * k),
        hash_b: word_at(p, 16 * k + 4),
        locale: u16_at(p, 16 * k + 8),
        platform: u16_at(p, 16 * k + 10),
        block_index: word_at(p, 16 * k + 12),
    }
}

/// The block table entry stored at record `k` of plain table bytes `p`.
pub open spec fn block_entry_at(p: Seq<u8>, k: int) -> BlockTableEntry {
    BlockTableEntry {
        offset: word_at(p, 16 * k),
        archived_size: word_at(p, 16 * k + 4) as usize,
        size: word_at(p, 16 * k + 8) as usize,
        flags: word_at(p, 16 * k + 12),
    }
}

/// `(hash table)`
pub open spec fn hash_table_name() -> Seq<u8> {
    seq![40u8, 104, 97, 115, 104, 32, 116, 97, 98, 108, 101, 41]
}

/// `(block table)`
pub open spec fn block_table_name() -> Seq<u8> {
    seq![40u8, 98, 108, 111, 99, 107, 32, 116, 97, 98, 108, 101, 41]
}

/// The plain bytes of the table of `entries` records at `start`, under the
/// key named `name`.
pub open spec fn table_bytes(t: Seq<u32>, d: Seq<u8>, start: int, entries: int, name: Seq<u8>) -> Result<
    Seq<u8>,
    DecodeError,
> {
    if start + 16 * entries > d.len() {
        Err(DecodeError::Truncated)
    } else {
        Ok(decrypt_spec(t, d.subrange(start, start + 16 * entries), hash_spec(t, name, 3)))
    }
}

/// What the bzip2 block decompressor yields for a compressed stream: the
/// output bytes, or nothing when the stream does not decode.
pub uninterp spec fn bzip2_decoded(data: Seq<u8>) -> Option<Seq<u8>>;

/// Relies on `bzip2::read::BzDecoder`, read to its end with
/// `std::io::Read::read_to_end`: the output depends on the input bytes alone,
/// and a stream that does not decode gives an error.
#[verifier::external_body]
fn bunzip2(data: &[u8]) -> (r: Option<Vec<u8>>)
    ensures
        r matches Some(v) ==> bzip2_decoded(data@) == Some(v@),
        r is None ==> bzip2_decoded(data@) is None,
{
    let mut out: Vec<u8> = Vec::new();
    match std::io::Read::read_to_end(&mut bzip2::read::BzDecoder::new(data), &mut out) {
        Ok(_) => Some(out),
        Err(_) => None,
    }
}

/// What a single-unit file decompresses to, given the output of the block
/// decompressor: it must have exactly the file's size.
pub open spec fn accept_spec(out: Option<Seq<u8>>, size: nat) -> Result<Seq<u8>, DecodeError> {
    match out {
        Some(v) => if v.len() == size {
            Ok(v)
        } else {
            Err(DecodeError::Corrupted)
        },
        None => Err(DecodeError::Corrupted),
    }
}

/// Takes the block decompressor's output when it has the file's size.
pub fn accept_decompressed(out: Option<Vec<u8>>, size: usize) -> (r: Result<Vec<u8>, DecodeError>)
    ensures
        match accept_spec(
            match out {
                Some(v) => Some(v@),
                None => None,
            },
            size as nat,
        ) {
            Ok(v) => r matches Ok(x) && x@ == v,
            Err(e) => r == Err::<Vec<u8>, DecodeError>(e),
        },
{
    match out {
        Some(v) => if v.len() == size {
            Ok(v)
        } else {
            Err(DecodeError::Corrupted)
        },
        None => Err(DecodeError::Corrupted),
    }
}

/// Decompressing the bytes of a single-unit file by the method in its first
/// byte: 0 stores, 16 is the block compressor.
pub open spec fn decompress_spec(raw: Seq<u8>, size: nat) -> Result<Seq<u8>, DecodeError> {
    if raw.len() == 0 {
        Err(DecodeError::Truncated)
    } else if raw[0] == 0 {
        Ok(raw.drop_first())
    } else if raw[0] == 16 {
        accept_spec(bzip2_decoded(raw.drop_first()), size)
    } else {
        Err(DecodeError::UnsupportedCompression)
    }
}

fn read_u16(d: &Vec<u8>, at: usize) -> (r: u16)
    requires
        at + 2 <= d@.len(),
    ensures
        r == u16_at(d@, at as int),
{
    assert(d@.len() == d.len());
    d[at] as u16 + d[at + 1] as u16 * 0x100
}

fn read_u32(d: &Vec<u8>, at: usize) -> (r: u32)
    requires
        at + 4 <= d@.len(),
    ensures
        r == word_at(d@, at as int),
{
    assert(d@.len() == d.len());
    d[at] as u32 + d[at + 1] as u32 * 0x100 + d[at + 2] as u32 * 0x1_0000 + d[at + 3] as u32
        * 0x100_0000
}

fn copy_range(d: &Vec<u8>, start: usize, end: usize) -> (r: Vec<u8>)
    requires
        start <= end <= d@.len(),
    ensures
        r@ == d@.subrange(start as int, end as int),
{
    let mut out: Vec<u8> = Vec::new();
    let mut i: usize = start;
    while i < end
        invariant
            start <= i <= end <= d@.len(),
            out@ == d@.subrange(start as int, i as int),
        decreases end - i,
    {
        out.push(d[i]);
        i = i + 1;
    }
    out
}

/// Parses the main header at `off`.
fn parse_main_header(d: &Vec<u8>, off: usize, user: Option<UserDataHeader>) -> (r: Result<
    ArchiveHeader,
    DecodeError,
>)
    requires
        user matches Some(u) ==> {
            &&& word_at(d@, 0) == MAGIC_USER_DATA
            &&& u.user_data_size == word_at(d@, 4)
            &&& u.mpq_header_offset == word_at(d@, 8)
            &&& u.user_data_header_size == word_at(d@, 12)
            &&& u.content@ == d@.subrange(16, 16 + word_at(d@, 12))
        },
        user is None ==> word_at(d@, 0) != MAGIC_USER_DATA,
        d@.len() >= 4,
    ensures
        match main_header_spec(d@, off as int) {
            Ok(o) => r matches Ok(h) && h.read_from(d@, o),
            Err(e) => r matches Err(x) && x == e,
        },
{
    if d.len() < 32 || off > d.len() - 32 {
        return Err(DecodeError::Truncated);
    }
    let magic = read_u32(d, off);
    if magic != MAGIC_HEADER {
        return Err(DecodeError::Corrupted);
    }
    let format_version = read_u16(d, off + 12);
    let extension = if format_version >= 1 {
        if d.len() < 44 || off > d.len() - 44 {
            return Err(DecodeError::Truncated);
        }
        let lo = read_u32(d, off + 32);
        let hi = read_u32(d, off + 36);
        Some(
            HeaderExtension {
                extended_block_table_offset: #[verifier::truncate] ((lo as u64 + hi as u64 * 0x1_0000_0000) as i64),
                hash_table_offset_high: #[verifier::truncate] (read_u16(d, off + 40) as i16),
                block_table_offset_high: #[verifier::truncate] (read_u16(d, off + 42) as i16),
            },
        )
    } else {
        None
    };
    Ok(
        ArchiveHeader {
            magic,
            header_size: read_u32(d, off + 4),
            archive_size: read_u32(d, off + 8),
            format_version,
            sector_size_shift: read_u16(d, off + 14),
            hash_table_offset: read_u32(d, off + 16),
            block_table_offset: read_u32(d, off + 20),
            hash_table_entries: read_u32(d, off + 24),
            block_table_entries: read_u32(d, off + 28),
            extension,
            offset: off,
            user_data_header: user,
        },
    )
}

/// Parses the header at the start of the file, following a user data header
/// to the main one.
pub fn parse_header(d: &Vec<u8>) -> (r: Result<ArchiveHeader, DecodeError>)
    ensures
        match header_spec(d@) {
            Ok(o) => r matches Ok(h) && h.read_from(d@, o),
            Err(e) => r matches Err(x) && x == e,
        },
{
    if d.len() < 4 {
        return Err(DecodeError::Truncated);
    }
    let magic = read_u32(d, 0);
    if magic == MAGIC_HEADER {
        parse_main_header(d, 0, None)
    } else if magic == MAGIC_USER_DATA {
        if d.len() < 16 {
            return Err(DecodeError::Truncated);
        }
        let size = read_u32(d, 12);
        if size as usize > d.len() - 16 {
            return Err(DecodeError::Truncated);
        }
        let user = UserDataHeader {
            user_data_size: read_u32(d, 4),
            mpq_header_offset: read_u32(d, 8),
            user_data_header_size: size,
            content: copy_range(d, 16, 16 + size as usize),
        };
        let off = read_u32(d, 8);
        parse_main_header(d, off as usize, Some(user))
    } else {
        Err(DecodeError::Corrupted)
    }
}

/// Checks that the header parses and that both tables lie inside the file:
/// the main header's position, or the first problem found.
pub open spec fn open_spec(d: Seq<u8>) -> Result<nat, DecodeError> {
    match header_spec(d) {
        Err(e) => Err(e),
        Ok(on) => {
            let o = on as int;
            let hash_start = o + word_at(d, o + 16);
            let block_start = o + word_at(d, o + 20);
            if hash_start + 16 * word_at(d, o + 24) > d.len() {
                Err(DecodeError::Truncated)
            } else if block_start + 16 * word_at(d, o + 28) > d.len() {
                Err(DecodeError::Truncated)
            } else {
                Ok(on)
            }
        },
    }
}

/// The index of the first hash table entry at or after `i` with both name hashes.
pub open spec fn match_from(t: Seq<HashTableEntry>, a: u32, b: u32, i: int) -> Option<int>
    decreases t.len() - i,
{
    if i < 0 || i >= t.len() {
        None
    } else if t[i].hash_a == a && t[i].hash_b == b {
        Some(i)
    } else {
        match_from(t, a, b, i + 1)
    }
}

/// An archive read into memory, with its tables decrypted.
pub struct MPQArchive {
    pub data: Vec<u8>,
    pub header: ArchiveHeader,
    pub hash_table: Vec<HashTableEntry>,
    pub block_table: Vec<BlockTableEntry>,
    pub table: Vec<u32>,
}

impl MPQArchive {
    /// The tables are those that the file stores.
    pub open spec fn wf(&self) -> bool {
        let d = self.data@;
        let o = self.header.offset as int;
        let t = self.table@;
        &&& is_crypt_table(t)
        &&& open_spec(d) == Ok::<nat, DecodeError>(o as nat)
        &&& self.header.read_from(d, o as nat)
        &&& table_bytes(t, d, o + self.header.hash_table_offset, self.header.hash_table_entries as int, hash_table_name()) matches Ok(p)
            && self.hash_table@ == Seq::new(self.header.hash_table_entries as nat, |k: int| hash_entry_at(p, k))
        &&& table_bytes(t, d, o + self.header.block_table_offset, self.header.block_table_entries as int, block_table_name()) matches Ok(p)
            && self.block_table@ == Seq::new(self.header.block_table_entries as nat, |k: int| block_entry_at(p, k))
    }

    /// The block entry that `name` resolves to: the first hash table entry
    /// with both of the name's hashes picks it.
    pub open spec fn resolve_spec(&self, name: Seq<u8>) -> Option<BlockTableEntry> {
        let t = self.table@;
        match match_from(self.hash_table@, hash_spec(t, name, 1), hash_spec(t, name, 2), 0) {
            None => None,
            Some(k) => {
                let bi = self.hash_table@[k].block_index;
                if bi < self.block_table@.len() {
                    Some(self.block_table@[bi as int])
                } else {
                    None
                }
            },
        }
    }

    /// The contents of file `name`: `None` when no entry names it.
    pub open spec fn file_spec(&self, name: Seq<u8>, force_decompress: bool) -> Result<
        Option<Seq<u8>>,
        DecodeError,
    > {
        match self.resolve_spec(name) {
            None => Ok(None),
            Some(e) => {
                let d = self.data@;
                let start = e.offset + self.header.offset;
                if e.flags & FLAG_EXISTS == 0 || e.archived_size == 0 {
                    Ok(Some(Seq::empty()))
                } else if start + e.archived_size > d.len() {
                    Err(DecodeError::Truncated)
                } else if e.flags & FLAG_ENCRYPTED != 0 {
                    Err(DecodeError::UnsupportedLayout)
                } else if e.flags & FLAG_SINGLE_UNIT == 0 {
                    Err(DecodeError::UnsupportedLayout)
                } else {
                    let raw = d.subrange(start as int, start + e.archived_size);
                    if e.flags & FLAG_COMPRESSED != 0 && (force_decompress || e.size > e.archived_size) {
                        match decompress_spec(raw, e.size as nat) {
                            Ok(v) => Ok(Some(v)),
                            Err(x) => Err(x),
                        }
                    } else {
                        Ok(Some(raw))
                    }
                }
            },
        }
    }

    /// Opens an archive held in memory: parses the header and decrypts the
    /// hash and block tables.
    pub fn new(data: Vec<u8>) -> (r: Result<MPQArchive, DecodeError>)
        ensures
            match open_spec(data@) {
                Ok(_) => r matches Ok(a) && a.wf() && a.data@ == data@,
                Err(e) => r matches Err(x) && x == e,
            },
    {
        let header = match parse_header(&data) {
            Ok(h) => h,
            Err(e) => return Err(e),
        };
        let table = build_table();
        let off = header.offset;
        let hash_start: u64 = off as u64 + header.hash_table_offset as u64;
        let hash_len: u64 = header.hash_table_entries as u64 * 16;
        if hash_start + hash_len > data.len() as u64 {
            return Err(DecodeError::Truncated);
        }
        let block_start: u64 = off as u64 + header.block_table_offset as u64;
        let block_len: u64 = header.block_table_entries as u64 * 16;
        if block_start + block_len > data.len() as u64 {
            return Err(DecodeError::Truncated);
        }
        let hash_name: [u8; 12] = [40, 104, 97, 115, 104, 32, 116, 97, 98, 108, 101, 41];
        let block_name: [u8; 13] = [40, 98, 108, 111, 99, 107, 32, 116, 97, 98, 108, 101, 41];
        assert(hash_name@ =~= hash_table_name());
        assert(block_name@ =~= block_table_name());
        let hash_plain = Self::table_plain(&data, &table, hash_start as usize, header.hash_table_entries, hash_name.as_slice());
        let block_plain = Self::table_plain(&data, &table, block_start as usize, header.block_table_entries, block_name.as_slice());
        let mut hash_table: Vec<HashTableEntry> = Vec::new();
        let mut k: usize = 0;
        let n = header.hash_table_entries as usize;
        while k < n
            invariant
                k <= n,
                n == header.hash_table_entries,
                hash_plain@.len() == 16 * n,
                hash_plain.len() == 16 * n,
                hash_table@ =~= Seq::new(k as nat, |j: int| hash_entry_at(hash_plain@, j)),
            decreases n - k,
        {
            hash_table.push(HashTableEntry {
                hash_a: read_u32(&hash_plain, 16 * k),
                hash_b: read_u32(&hash_plain, 16 * k + 4),
                locale: read_u16(&hash_plain, 16 * k + 8),
                platform: read_u16(&hash_plain, 16 * k + 10),
                block_index: read_u32(&hash_plain, 16 * k + 12),
            });
            k = k + 1;
        }
        let mut block_table: Vec<BlockTableEntry> = Vec::new();
        let mut k: usize = 0;
        let n = header.block_table_entries as usize;
        while k < n
            invariant
                k <= n,
                n == header.block_table_entries,
                block_plain@.len() == 16 * n,
                block_plain.len() == 16 * n,
                block_table@ =~= Seq::new(k as nat, |j: int| block_entry_at(block_plain@, j)),
            decreases n - k,
        {
            block_table.push(BlockTableEntry {
                offset: read_u32(&block_plain, 16 * k),
                archived_size: read_u32(&block_plain, 16 * k + 4) as usize,
                size: read_u32(&block_plain, 16 * k + 8) as usize,
                flags: read_u32(&block_plain, 16 * k + 12),
            });
            k = k + 1;
        }
        Ok(MPQArchive { data, header, hash_table, block_table, table })
    }

    fn table_plain(d: &Vec<u8>, table: &Vec<u32>, start: usize, entries: u32, name: &[u8]) -> (r: Vec<u8>)
        requires
            is_crypt_table(table@),
            start + 16 * entries <= d@.len(),
        ensures
            table_bytes(table@, d@, start as int, entries as int, name@) == Ok::<Seq<u8>, DecodeError>(r@),
            r@.len() == 16 * entries,
    {
        assert(d@.len() == d.len());
        let bytes = copy_range(d, start, start + 16 * entries as usize);
        assert(bytes@.len() % 4 == 0);
        let key = hash(table, name, HASH_TABLE_KEY);
        decrypt(table, bytes.as_slice(), key)
    }

    /// Finds the block entry of file `filename`.
    pub fn resolve(&self, filename: &str) -> (r: Option<BlockTableEntry>)
        requires
            self.wf(),
        ensures
            r == self.resolve_spec(filename.spec_bytes()),
    {
        let name = filename.as_bytes();
        let a = hash(&self.table, name, HASH_NAME_A);
        let b = hash(&self.table, name, HASH_NAME_B);
        let mut i: usize = 0;
        while i < self.hash_table.len()
            invariant
                i <= self.hash_table@.len(),
                a == hash_spec(self.table@, filename.spec_bytes(), 1),
                b == hash_spec(self.table@, filename.spec_bytes(), 2),
                match_from(self.hash_table@, a, b, 0) == match_from(self.hash_table@, a, b, i as int),
            decreases self.hash_table.len() - i,
        {
            let e = self.hash_table[i];
            if e.hash_a == a && e.hash_b == b {
                let bi = e.block_index as usize;
                if bi < self.block_table.len() {
                    return Some(self.block_table[bi]);
                } else {
                    return None;
                }
            }
            i = i + 1;
        }
        None
    }

    /// Reads file `filename`: `None` when the archive does not name it.
    pub fn read_file(&self, filename: &str, force_decompress: bool) -> (r: Result<
        Option<Vec<u8>>,
        DecodeError,
    >)
        requires
            self.wf(),
        ensures
            match self.file_spec(filename.spec_bytes(), force_decompress) {
                Ok(None) => r matches Ok(None),
                Ok(Some(v)) => r matches Ok(Some(x)) && x@ == v,
                Err(e) => r matches Err(x) && x == e,
            },
    {
        let e = match self.resolve(filename) {
            None => return Ok(None),
            Some(e) => e,
        };
        if e.flags & FLAG_EXISTS == 0 || e.archived_size == 0 {
            return Ok(Some(Vec::new()));
        }
        let start: u64 = e.offset as u64 + self.header.offset as u64;
        if start + e.archived_size as u64 > self.data.len() as u64 {
            return Err(DecodeError::Truncated);
        }
        if e.flags & FLAG_ENCRYPTED != 0 {
            return Err(DecodeError::UnsupportedLayout);
        }
        if e.flags & FLAG_SINGLE_UNIT == 0 {
            return Err(DecodeError::UnsupportedLayout);
        }
        let raw = copy_range(&self.data, start as usize, start as usize + e.archived_size);
        if e.flags & FLAG_COMPRESSED != 0 && (force_decompress || e.size > e.archived_size) {
            match decompress(&raw, e.size) {
                Ok(v) => Ok(Some(v)),
                Err(x) => Err(x),
            }
        } else {
            Ok(Some(raw))
        }
    }
}

/// Decompresses the stored bytes of a single-unit file.
pub fn decompress(raw: &Vec<u8>, size: usize) -> (r: Result<Vec<u8>, DecodeError>)
    ensures
        match decompress_spec(raw@, size as nat) {
            Ok(v) => r matches Ok(x) && x@ == v,
            Err(e) => r == Err::<Vec<u8>, DecodeError>(e),
        },
{
    if raw.len() == 0 {
        return Err(DecodeError::Truncated);
    }
    let body = copy_range(raw, 1, raw.len());
    assert(body@ =~= raw@.drop_first());
    if raw[0] == 0 {
        Ok(body)
    } else if raw[0] == 16 {
        accept_decompressed(bunzip2(body.as_slice()), size)
    } else {
        Err(DecodeError::UnsupportedCompression)
    }
}

proof fn lemma_match_from_none(t: Seq<HashTableEntry>, a: u32, b: u32, i: int)
    requires
        0 <= i,
        forall|k: int| i <= k < t.len() ==> !(#[trigger] t[k].hash_a == a && t[k].hash_b == b),
    ensures
        match_from(t, a, b, i) is None,
    decreases t.len() - i,
{
    if i < t.len() {
        lemma_match_from_none(t, a, b, i + 1);
    }
}

proof fn lemma_match_from_some(t: Seq<HashTableEntry>, a: u32, b: u32, i: int)
    ensures
        match_from(t, a, b, i) matches Some(k) ==> i <= k < t.len() && t[k].hash_a == a && t[k].hash_b == b,
    decreases t.len() - i,
{
    if 0 <= i < t.len() {
        lemma_match_from_some(t, a, b, i + 1);
    }
}

/// Resolving goes by the two name hashes alone: names that agree on both
/// resolve to the same entry; a name whose pair no hash table entry carries
/// resolves to nothing; a name that resolves picks an entry that carries its
/// pair.
pub proof fn lemma_resolve_by_hashes(a: MPQArchive, n1: Seq<u8>, n2: Seq<u8>)
    ensures
        hash_spec(a.table@, n1, 1) == hash_spec(a.table@, n2, 1) && hash_spec(a.table@, n1, 2)
            == hash_spec(a.table@, n2, 2) ==> a.resolve_spec(n1) == a.resolve_spec(n2),
        (forall|k: int|
            0 <= k < a.hash_table@.len() ==> !(#[trigger] a.hash_table@[k].hash_a == hash_spec(
                a.table@,
                n1,
                1,
            ) && a.hash_table@[k].hash_b == hash_spec(a.table@, n1, 2))) ==> a.resolve_spec(n1) is None,
        a.resolve_spec(n1) is Some ==> exists|k: int|
            0 <= k < a.hash_table@.len() && #[trigger] a.hash_table@[k].hash_a == hash_spec(a.table@, n1, 1)
                && a.hash_table@[k].hash_b == hash_spec(a.table@, n1, 2) && a.resolve_spec(n1) == Some(
                a.block_table@[a.hash_table@[k].block_index as int],
            ),
{
    let ha = hash_spec(a.table@, n1, 1);
    let hb = hash_spec(a.table@, n1, 2);
    lemma_match_from_some(a.hash_table@, ha, hb, 0);
    if forall|k: int| 0 <= k < a.hash_table@.len() ==> !(#[trigger] a.hash_table@[k].hash_a == ha && a.hash_table@[k].hash_b == hb) {
        lemma_match_from_none(a.hash_table@, ha, hb, 0);
    }
}

/// In a hash table whose entries point at distinct blocks, two names that
/// resolve through entries pointing at the same block agree on both hashes.
pub proof fn lemma_same_block_means_collision(a: MPQArchive, n1: Seq<u8>, n2: Seq<u8>)
    requires
        forall|i: int, j: int|
            0 <= i < a.hash_table@.len() && 0 <= j < a.hash_table@.len() && i != j
                ==> #[trigger] a.hash_table@[i].block_index != #[trigger] a.hash_table@[j].block_index,
    ensures
        ({
            let t = a.table@;
            let m1 = match_from(a.hash_table@, hash_spec(t, n1, 1), hash_spec(t, n1, 2), 0);
            let m2 = match_from(a.hash_table@, hash_spec(t, n2, 1), hash_spec(t, n2, 2), 0);
            m1 is Some && m2 is Some && a.hash_table@[m1->0].block_index
                == a.hash_table@[m2->0].block_index ==> hash_spec(t, n1, 1) == hash_spec(t, n2, 1)
                && hash_spec(t, n1, 2) == hash_spec(t, n2, 2)
        }),
{
    let t = a.table@;
    lemma_match_from_some(a.hash_table@, hash_spec(t, n1, 1), hash_spec(t, n1, 2), 0);
    lemma_match_from_some(a.hash_table@, hash_spec(t, n2, 1), hash_spec(t, n2, 2), 0);
}

} // verus!
