//! The fixed-size records of the archive header and the flag word of a chunk.
//!
//! Every record is little-endian and unpadded. Each type states the bytes it
//! is stored as (`spec_bytes`) and the record found at a position of a byte
//! sequence (`spec_at`); the two are inverse to each other.

use crate::bytes::{
    lemma_u16_at_encoded, lemma_u32_at_encoded, put_u16, put_u32, read_u16_at, read_u32_at, u16_at,
    u16_le, u32_at, u32_le,
};
use vstd::prelude::*;

verus! {

/// The first four bytes of a main volume, read as a little-endian integer.
pub const MAGIC: u32 = 0x5A525444;

/// Ends the chunk list of a file in the file-to-chunk map.
pub const CHUNK_LIST_TERMINATOR: u16 = 0xFFFF;

/// The buffer size that stream adapters around this library use.
pub const DEFAULT_BUFFER_SIZE: usize = 131072;

/// The only header version this library reads and writes.
pub const SUPPORTED_VERSION: u8 = 0;

/// Stored size of an [`ArchiveHeader`].
pub const ARCHIVE_HEADER_LEN: usize = 9;

/// Stored size of a [`ChunkTableHeader`].
pub const CHUNK_TABLE_HEADER_LEN: usize = 4;

/// Stored size of a [`ChunkDiskEntry`].
pub const CHUNK_ENTRY_LEN: usize = 16;

/// Stored size of a [`RangeSettingsDisk`].
pub const RANGE_SETTINGS_LEN: usize = 10;

/// The chunk shares a combination buffer.
pub const CHUNK_COMBUF: u16 = 0x1;

/// The payload is range-coded.
pub const CHUNK_DZ: u16 = 0x4;

/// The payload is a gzip stream.
pub const CHUNK_ZLIB: u16 = 0x8;

/// The payload is a bzip2 stream.
pub const CHUNK_BZIP: u16 = 0x10;

/// The payload is MP3 audio.
pub const CHUNK_MP3: u16 = 0x20;

/// The payload is a JPEG image.
pub const CHUNK_JPEG: u16 = 0x40;

/// The chunk stands for zero bytes and has no payload.
pub const CHUNK_ZERO: u16 = 0x80;

/// The payload is stored as it is.
pub const CHUNK_COPYCOMP: u16 = 0x100;

/// The payload is an LZMA stream.
pub const CHUNK_LZMA: u16 = 0x200;

/// The chunk may be read at random offsets.
pub const CHUNK_RANDOMACCESS: u16 = 0x400;

/// Every bit that has a meaning in a flag word.
pub const CHUNK_ALL_FLAGS: u16 = 0x7FD;

/// The bits that say how a payload was transformed: range coder, gzip,
/// bzip2, zero, copy and LZMA. Every other bit is an attribute.
pub const CHUNK_CODEC_MASK: u16 = 0x39C;

/// The codecs whose stored length is not known from the decompressed length.
pub const CHUNK_COMPRESSED_MASK: u16 = 0x21C;

/// Whether `bits` holds a bit of `mask`.
pub open spec fn has_flag(bits: u16, mask: u16) -> bool {
    bits & mask != 0
}

/// Whether `bits` holds a bit of `mask`.
#[verifier::when_used_as_spec(has_flag)]
pub fn flag_set(bits: u16, mask: u16) -> (b: bool)
    ensures
        b == has_flag(bits, mask),
{
    bits & mask != 0
}

/// Whether one of the chunks carries the range-coder flag, which decides
/// whether a range-settings block follows the split list.
pub open spec fn any_range_chunk(chunks: Seq<ChunkDiskEntry>) -> bool {
    exists|i: int| 0 <= i < chunks.len() && has_flag(#[trigger] chunks[i].flags, CHUNK_DZ)
}

/// The main file header.
#[derive(Debug, Clone, Copy, PartialEq, Eq, Structural)]
pub struct ArchiveHeader {
    pub magic: u32,
    pub num_files: u16,
    pub num_dirs: u16,
    pub version: u8,
}

impl ArchiveHeader {
    /// The nine bytes this header is stored as.
    pub open spec fn spec_bytes(self) -> Seq<u8> {
        u32_le(self.magic) + u16_le(self.num_files) + u16_le(self.num_dirs) + seq![self.version]
    }

    /// The header stored at index `i` of `s`.
    pub open spec fn spec_at(s: Seq<u8>, i: int) -> ArchiveHeader
        recommends
            0 <= i,
            i + 9 <= s.len(),
    {
        ArchiveHeader {
            magic: u32_at(s, i),
            num_files: u16_at(s, i + 4),
            num_dirs: u16_at(s, i + 6),
            version: s[i + 8],
        }
    }

    /// Where the bytes at `i` are the stored form of `self`, the header read
    /// at `i` is `self`.
    pub proof fn lemma_at_encoded(self, s: Seq<u8>, i: int)
        requires
            0 <= i,
            i + 9 <= s.len(),
            s.subrange(i, i + 9) == self.spec_bytes(),
        ensures
            self.spec_bytes().len() == 9,
            Self::spec_at(s, i) == self,
    {
        let e = self.spec_bytes();
        assert(e.len() == 9);
        assert(s.subrange(i, i + 4) =~= e.subrange(0, 4));
        assert(e.subrange(0, 4) =~= u32_le(self.magic));
        lemma_u32_at_encoded(s, i, self.magic);
        assert(s.subrange(i + 4, i + 6) =~= e.subrange(4, 6));
        assert(e.subrange(4, 6) =~= u16_le(self.num_files));
        lemma_u16_at_encoded(s, i + 4, self.num_files);
        assert(s.subrange(i + 6, i + 8) =~= e.subrange(6, 8));
        assert(e.subrange(6, 8) =~= u16_le(self.num_dirs));
        lemma_u16_at_encoded(s, i + 6, self.num_dirs);
        assert(s[i + 8] == e[8]);
    }

    /// Appends the stored form of the header.
    pub fn write_to(&self, out: &mut Vec<u8>)
        ensures
            final(out)@ == old(out)@ + self.spec_bytes(),
    {
        put_u32(out, self.magic);
        put_u16(out, self.num_files);
        put_u16(out, self.num_dirs);
        out.push(self.version);
        assert(out@ =~= old(out)@ + self.spec_bytes());
    }

    /// The header stored at `pos`, or `None` where fewer than nine bytes are left.
    pub fn read_at(data: &[u8], pos: usize) -> (r: Option<ArchiveHeader>)
        ensures
            r == if pos + 9 <= data@.len() {
                Some(Self::spec_at(data@, pos as int))
            } else {
                None
            },
    {
        if pos > data.len() || data.len() - pos < ARCHIVE_HEADER_LEN {
            return None;
        }
        let magic = read_u32_at(data, pos).unwrap();
        let num_files = read_u16_at(data, pos + 4).unwrap();
        let num_dirs = read_u16_at(data, pos + 6).unwrap();
        let version = data[pos + 8];
        Some(ArchiveHeader { magic, num_files, num_dirs, version })
    }
}

/// Header of the chunk table: how many volumes and how many chunks.
#[derive(Debug, Clone, Copy, PartialEq, Eq, Structural)]
pub struct ChunkTableHeader {
    pub num_arch_files: u16,
    pub num_chunks: u16,
}

impl ChunkTableHeader {
    /// The four bytes this header is stored as.
    pub open spec fn spec_bytes(self) -> Seq<u8> {
        u16_le(self.num_arch_files) + u16_le(self.num_chunks)
    }

    /// The header stored at index `i` of `s`.
    pub open spec fn spec_at(s: Seq<u8>, i: int) -> ChunkTableHeader
        recommends
            0 <= i,
            i + 4 <= s.len(),
    {
        ChunkTableHeader { num_arch_files: u16_at(s, i), num_chunks: u16_at(s, i + 2) }
    }

    /// Where the bytes at `i` are the stored form of `self`, the header read
    /// at `i` is `self`.
    pub proof fn lemma_at_encoded(self, s: Seq<u8>, i: int)
        requires
            0 <= i,
            i + 4 <= s.len(),
            s.subrange(i, i + 4) == self.spec_bytes(),
        ensures
            self.spec_bytes().len() == 4,
            Self::spec_at(s, i) == self,
    {
        let e = self.spec_bytes();
        assert(s.subrange(i, i + 2) =~= e.subrange(0, 2));
        assert(e.subrange(0, 2) =~= u16_le(self.num_arch_files));
        lemma_u16_at_encoded(s, i, self.num_arch_files);
        assert(s.subrange(i + 2, i + 4) =~= e.subrange(2, 4));
        assert(e.subrange(2, 4) =~= u16_le(self.num_chunks));
        lemma_u16_at_encoded(s, i + 2, self.num_chunks);
    }

    /// Appends the stored form of the header.
    pub fn write_to(&self, out: &mut Vec<u8>)
        ensures
            final(out)@ == old(out)@ + self.spec_bytes(),
    {
        put_u16(out, self.num_arch_files);
        put_u16(out, self.num_chunks);
        assert(out@ =~= old(out)@ + self.spec_bytes());
    }

    /// The header stored at `pos`, or `None` where fewer than four bytes are left.
    pub fn read_at(data: &[u8], pos: usize) -> (r: Option<ChunkTableHeader>)
        ensures
            r == if pos + 4 <= data@.len() {
                Some(Self::spec_at(data@, pos as int))
            } else {
                None
            },
    {
        if pos > data.len() || data.len() - pos < CHUNK_TABLE_HEADER_LEN {
            return None;
        }
        let num_arch_files = read_u16_at(data, pos).unwrap();
        let num_chunks = read_u16_at(data, pos + 2).unwrap();
        Some(ChunkTableHeader { num_arch_files, num_chunks })
    }
}

/// One record of the chunk table.
#[derive(Debug, Clone, Copy, PartialEq, Eq, Structural)]
pub struct ChunkDiskEntry {
    /// Where the payload starts inside its volume.
    pub offset: u32,
    /// Stored length as the table claims it; archives in the wild get it wrong.
    pub c_len: u32,
    /// Length of the payload once decompressed.
    pub d_len: u32,
    /// Codec and attribute bits.
    pub flags: u16,
    /// Volume that holds the payload: 0 is the main volume, `k` is split `k - 1`.
    pub file_idx: u16,
}

impl ChunkDiskEntry {
    /// The sixteen bytes this record is stored as.
    pub open spec fn spec_bytes(self) -> Seq<u8> {
        u32_le(self.offset) + u32_le(self.c_len) + u32_le(self.d_len) + u16_le(self.flags)
            + u16_le(self.file_idx)
    }

    /// The record stored at index `i` of `s`.
    pub open spec fn spec_at(s: Seq<u8>, i: int) -> ChunkDiskEntry
        recommends
            0 <= i,
            i + 16 <= s.len(),
    {
        ChunkDiskEntry {
            offset: u32_at(s, i),
            c_len: u32_at(s, i + 4),
            d_len: u32_at(s, i + 8),
            flags: u16_at(s, i + 12),
            file_idx: u16_at(s, i + 14),
        }
    }

    /// Where the bytes at `i` are the stored form of `self`, the record read
    /// at `i` is `self`.
    pub proof fn lemma_at_encoded(self, s: Seq<u8>, i: int)
        requires
            0 <= i,
            i + 16 <= s.len(),
            s.subrange(i, i + 16) == self.spec_bytes(),
        ensures
            self.spec_bytes().len() == 16,
            Self::spec_at(s, i) == self,
    {
        let e = self.spec_bytes();
        assert(e.len() == 16);
        assert(s.subrange(i, i + 4) =~= e.subrange(0, 4));
        assert(e.subrange(0, 4) =~= u32_le(self.offset));
        lemma_u32_at_encoded(s, i, self.offset);
        assert(s.subrange(i + 4, i + 8) =~= e.subrange(4, 8));
        assert(e.subrange(4, 8) =~= u32_le(self.c_len));
        lemma_u32_at_encoded(s, i + 4, self.c_len);
        assert(s.subrange(i + 8, i + 12) =~= e.subrange(8, 12));
        assert(e.subrange(8, 12) =~= u32_le(self.d_len));
        lemma_u32_at_encoded(s, i + 8, self.d_len);
        assert(s.subrange(i + 12, i + 14) =~= e.subrange(12, 14));
        assert(e.subrange(12, 14) =~= u16_le(self.flags));
        lemma_u16_at_encoded(s, i + 12, self.flags);
        assert(s.subrange(i + 14, i + 16) =~= e.subrange(14, 16));
        assert(e.subrange(14, 16) =~= u16_le(self.file_idx));
        lemma_u16_at_encoded(s, i + 14, self.file_idx);
    }

    /// Appends the stored form of the record.
    pub fn write_to(&self, out: &mut Vec<u8>)
        ensures
            final(out)@ == old(out)@ + self.spec_bytes(),
    {
        put_u32(out, self.offset);
        put_u32(out, self.c_len);
        put_u32(out, self.d_len);
        put_u16(out, self.flags);
        put_u16(out, self.file_idx);
        assert(out@ =~= old(out)@ + self.spec_bytes());
    }

    /// The record stored at `pos`, or `None` where fewer than sixteen bytes are left.
    pub fn read_at(data: &[u8], pos: usize) -> (r: Option<ChunkDiskEntry>)
        ensures
            r == if pos + 16 <= data@.len() {
                Some(Self::spec_at(data@, pos as int))
            } else {
                None
            },
    {
        if pos > data.len() || data.len() - pos < CHUNK_ENTRY_LEN {
            return None;
        }
        let offset = read_u32_at(data, pos).unwrap();
        let c_len = read_u32_at(data, pos + 4).unwrap();
        let d_len = read_u32_at(data, pos + 8).unwrap();
        let flags = read_u16_at(data, pos + 12).unwrap();
        let file_idx = read_u16_at(data, pos + 14).unwrap();
        Some(ChunkDiskEntry { offset, c_len, d_len, flags, file_idx })
    }
}

/// Settings of the range coder, stored only where a chunk uses it.
#[derive(Debug, Clone, Copy, PartialEq, Eq, Structural)]
pub struct RangeSettingsDisk {
    pub win_size: u8,
    pub flags: u8,
    pub offset_table_size: u8,
    pub offset_tables: u8,
    pub offset_contexts: u8,
    pub ref_length_table_size: u8,
    pub ref_length_tables: u8,
    pub ref_offset_table_size: u8,
    pub ref_offset_tables: u8,
    pub big_min_match: u8,
}

impl RangeSettingsDisk {
    /// The ten bytes this block is stored as.
    pub open spec fn spec_bytes(self) -> Seq<u8> {
        seq![
            self.win_size,
            self.flags,
            self.offset_table_size,
            self.offset_tables,
            self.offset_contexts,
            self.ref_length_table_size,
            self.ref_length_tables,
            self.ref_offset_table_size,
            self.ref_offset_tables,
            self.big_min_match,
        ]
    }

    /// The block stored at index `i` of `s`.
    pub open spec fn spec_at(s: Seq<u8>, i: int) -> RangeSettingsDisk
        recommends
            0 <= i,
            i + 10 <= s.len(),
    {
        RangeSettingsDisk {
            win_size: s[i],
            flags: s[i + 1],
            offset_table_size: s[i + 2],
            offset_tables: s[i + 3],
            offset_contexts: s[i + 4],
            ref_length_table_size: s[i + 5],
            ref_length_tables: s[i + 6],
            ref_offset_table_size: s[i + 7],
            ref_offset_tables: s[i + 8],
            big_min_match: s[i + 9],
        }
    }

    /// The block whose ten bytes are all zero.
    pub open spec fn spec_zeroed() -> RangeSettingsDisk {
        RangeSettingsDisk {
            win_size: 0,
            flags: 0,
            offset_table_size: 0,
            offset_tables: 0,
            offset_contexts: 0,
            ref_length_table_size: 0,
            ref_length_tables: 0,
            ref_offset_table_size: 0,
            ref_offset_tables: 0,
            big_min_match: 0,
        }
    }

    /// The block whose ten bytes are all zero.
    pub fn zeroed() -> (r: RangeSettingsDisk)
        ensures
            r == Self::spec_zeroed(),
    {
        RangeSettingsDisk {
            win_size: 0,
            flags: 0,
            offset_table_size: 0,
            offset_tables: 0,
            offset_contexts: 0,
            ref_length_table_size: 0,
            ref_length_tables: 0,
            ref_offset_table_size: 0,
            ref_offset_tables: 0,
            big_min_match: 0,
        }
    }

    /// Where the bytes at `i` are the stored form of `self`, the block read
    /// at `i` is `self`.
    pub proof fn lemma_at_encoded(self, s: Seq<u8>, i: int)
        requires
            0 <= i,
            i + 10 <= s.len(),
            s.subrange(i, i + 10) == self.spec_bytes(),
        ensures
            self.spec_bytes().len() == 10,
            Self::spec_at(s, i) == self,
    {
        let e = s.subrange(i, i + 10);
        assert(s[i] == e[0]);
        assert(s[i + 1] == e[1]);
        assert(s[i + 2] == e[2]);
        assert(s[i + 3] == e[3]);
        assert(s[i + 4] == e[4]);
        assert(s[i + 5] == e[5]);
        assert(s[i + 6] == e[6]);
        assert(s[i + 7] == e[7]);
        assert(s[i + 8] == e[8]);
        assert(s[i + 9] == e[9]);
    }

    /// Appends the stored form of the block.
    pub fn write_to(&self, out: &mut Vec<u8>)
        ensures
            final(out)@ == old(out)@ + self.spec_bytes(),
    {
        out.push(self.win_size);
        out.push(self.flags);
        out.push(self.offset_table_size);
        out.push(self.offset_tables);
        out.push(self.offset_contexts);
        out.push(self.ref_length_table_size);
        out.push(self.ref_length_tables);
        out.push(self.ref_offset_table_size);
        out.push(self.ref_offset_tables);
        out.push(self.big_min_match);
        assert(out@ =~= old(out)@ + self.spec_bytes());
    }

    /// The block stored at `pos`, or `None` where fewer than ten bytes are left.
    pub fn read_at(data: &[u8], pos: usize) -> (r: Option<RangeSettingsDisk>)
        ensures
            r == if pos + 10 <= data@.len() {
                Some(Self::spec_at(data@, pos as int))
            } else {
                None
            },
    {
        if pos > data.len() || data.len() - pos < RANGE_SETTINGS_LEN {
            return None;
        }
        Some(
            RangeSettingsDisk {
                win_size: data[pos],
                flags: data[pos + 1],
                offset_table_size: data[pos + 2],
                offset_tables: data[pos + 3],
                offset_contexts: data[pos + 4],
                ref_length_table_size: data[pos + 5],
                ref_length_tables: data[pos + 6],
                ref_offset_table_size: data[pos + 7],
                ref_offset_tables: data[pos + 8],
                big_min_match: data[pos + 9],
            },
        )
    }
}

} // verus!
