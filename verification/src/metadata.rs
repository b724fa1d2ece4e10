//! The archive structure as it is held in memory, and the whole header as
//! one byte format.

use crate::bytes::u32_at;
use crate::error::DzipError;
use crate::format::{
    any_range_chunk, flag_set, has_flag, ArchiveHeader, ChunkDiskEntry, ChunkTableHeader,
    RangeSettingsDisk, CHUNK_DZ, MAGIC, SUPPORTED_VERSION,
};
use crate::layout::{
    chunks_bytes, file_map_bytes, lemma_parse_file_map_bounds, lemma_parse_strings_bounds, nul_free,
    parse_chunks, parse_file_map, parse_strings, strings_bytes, terminator_free,
};
use crate::reader::{decoded_from, DzipReader};
use crate::writer::map_view;
use vstd::prelude::*;

verus! {

/// The range-coder settings as the archive model carries them.
pub type RangeSettings = RangeSettingsDisk;

/// One record of the file-to-chunk map: the directory a file lies in and
/// the chunks that make up its bytes, in order.
#[derive(Debug, Clone, PartialEq, Eq)]
pub struct FileMapDiskEntry {
    pub dir_idx: u16,
    pub chunk_ids: Vec<u16>,
}

impl View for FileMapDiskEntry {
    type V = (u16, Seq<u16>);

    open spec fn view(&self) -> (u16, Seq<u16>) {
        (self.dir_idx, self.chunk_ids@)
    }
}

/// The records of a map as plain sequences.
pub open spec fn entries_view(entries: Seq<FileMapDiskEntry>) -> Seq<(u16, Seq<u16>)> {
    entries.map_values(|e: FileMapDiskEntry| e@)
}

/// A chunk of the table together with the stored length that the reconciler
/// works out for it.
#[derive(Debug, Clone, Copy, PartialEq, Eq, Structural)]
pub struct RawChunk {
    /// Index of the chunk in the table.
    pub id: u16,
    /// Where the payload starts inside its volume.
    pub offset: u32,
    /// Stored length as the table claims it.
    pub _head_c_len: u32,
    /// Length of the payload once decompressed.
    pub d_len: u32,
    /// Codec and attribute bits.
    pub flags: u16,
    /// Volume that holds the payload.
    pub file_idx: u16,
    /// Stored length as the reconciler found it; zero until it has run.
    pub real_c_len: u32,
}

impl RawChunk {
    /// The chunk that record `entry` at table index `id` stands for, before
    /// reconciliation.
    pub open spec fn spec_from_disk(id: u16, entry: ChunkDiskEntry) -> RawChunk {
        RawChunk {
            id,
            offset: entry.offset,
            _head_c_len: entry.c_len,
            d_len: entry.d_len,
            flags: entry.flags,
            file_idx: entry.file_idx,
            real_c_len: 0,
        }
    }

    /// The chunk that record `entry` at table index `id` stands for, before
    /// reconciliation.
    pub fn from_disk(id: u16, entry: &ChunkDiskEntry) -> (c: RawChunk)
        ensures
            c == Self::spec_from_disk(id, *entry),
    {
        RawChunk {
            id,
            offset: entry.offset,
            _head_c_len: entry.c_len,
            d_len: entry.d_len,
            flags: entry.flags,
            file_idx: entry.file_idx,
            real_c_len: 0,
        }
    }
}

/// Everything the header of an archive says, with strings as raw bytes.
pub struct ArchiveLayout {
    pub version: u8,
    /// Base names of the files, in file order.
    pub file_names: Seq<Seq<u8>>,
    /// The stored directories; the root, which has index 0, is not among them.
    pub dir_names: Seq<Seq<u8>>,
    /// Directory index and chunk ids of each file.
    pub file_map: Seq<(u16, Seq<u16>)>,
    /// The number of volumes as the chunk table header holds it.
    pub num_arch_files: u16,
    pub chunks: Seq<ChunkDiskEntry>,
    /// Names of the split volumes.
    pub split_names: Seq<Seq<u8>>,
    /// Present exactly where a chunk is range-coded.
    pub range: Option<RangeSettingsDisk>,
}

/// Why a byte sequence is not the header of an archive.
pub enum ParseFault {
    /// The bytes end inside a block.
    Truncated,
    /// The first four bytes are not the magic.
    BadMagic(u32),
    /// The version byte is not the supported one.
    BadVersion(u8),
    /// The directory count is zero, though the root always counts.
    NoDirectories,
}

/// How many split names follow a chunk table whose header counts
/// `num_arch_files` volumes.
pub open spec fn split_count(num_arch_files: u16) -> nat {
    if num_arch_files > 1 {
        (num_arch_files - 1) as nat
    } else {
        0
    }
}

/// What the header of an archive says: the blocks in their order, each
/// starting where the one before ended, and the index at which the payload
/// of the main volume starts.
pub open spec fn parse_layout(s: Seq<u8>) -> Result<(ArchiveLayout, int), ParseFault> {
    if s.len() < 4 {
        Err(ParseFault::Truncated)
    } else if u32_at(s, 0) != MAGIC {
        Err(ParseFault::BadMagic(u32_at(s, 0)))
    } else if s.len() < 9 {
        Err(ParseFault::Truncated)
    } else {
        let header = ArchiveHeader::spec_at(s, 0);
        if header.version != SUPPORTED_VERSION {
            Err(ParseFault::BadVersion(header.version))
        } else if header.num_dirs == 0 {
            Err(ParseFault::NoDirectories)
        } else {
            parse_tables(s, header)
        }
    }
}

/// The part of [`parse_layout`] behind the file header.
pub open spec fn parse_tables(s: Seq<u8>, header: ArchiveHeader) -> Result<
    (ArchiveLayout, int),
    ParseFault,
> {
    match parse_strings(s, 9, header.num_files as nat) {
        None => Err(ParseFault::Truncated),
        Some((file_names, dirs_at)) => match parse_strings(s, dirs_at, (header.num_dirs - 1) as nat) {
            None => Err(ParseFault::Truncated),
            Some((dir_names, map_at)) => match parse_file_map(s, map_at, header.num_files as nat) {
                None => Err(ParseFault::Truncated),
                Some((file_map, table_at)) => if table_at + 4 > s.len() {
                    Err(ParseFault::Truncated)
                } else {
                    let table = ChunkTableHeader::spec_at(s, table_at);
                    match parse_chunks(s, table_at + 4, table.num_chunks as nat) {
                        None => Err(ParseFault::Truncated),
                        Some(chunks) => {
                            let splits_at = table_at + 4 + 16 * table.num_chunks;
                            match parse_strings(s, splits_at, split_count(table.num_arch_files)) {
                                None => Err(ParseFault::Truncated),
                                Some((split_names, rest_at)) => {
                                    let layout = ArchiveLayout {
                                        version: header.version,
                                        file_names,
                                        dir_names,
                                        file_map,
                                        num_arch_files: table.num_arch_files,
                                        chunks,
                                        split_names,
                                        range: None,
                                    };
                                    if !any_range_chunk(chunks) {
                                        Ok((layout, rest_at))
                                    } else if rest_at + 10 > s.len() {
                                        Err(ParseFault::Truncated)
                                    } else {
                                        Ok(
                                            (
                                                ArchiveLayout {
                                                    range: Some(RangeSettingsDisk::spec_at(s, rest_at)),
                                                    ..layout
                                                },
                                                rest_at + 10,
                                            ),
                                        )
                                    }
                                },
                            }
                        },
                    }
                },
            },
        },
    }
}

/// The bytes of the header region of an archive: the blocks in their order.
pub open spec fn layout_bytes(layout: ArchiveLayout) -> Seq<u8> {
    table_prefix_bytes(layout) + chunks_bytes(layout.chunks) + table_suffix_bytes(layout)
}

/// The header region up to the chunk table.
pub open spec fn table_prefix_bytes(layout: ArchiveLayout) -> Seq<u8> {
    ArchiveHeader {
        magic: MAGIC,
        num_files: layout.file_names.len() as u16,
        num_dirs: (layout.dir_names.len() + 1) as u16,
        version: layout.version,
    }.spec_bytes() + strings_bytes(layout.file_names) + strings_bytes(layout.dir_names)
        + file_map_bytes(layout.file_map) + ChunkTableHeader {
        num_arch_files: layout.num_arch_files,
        num_chunks: layout.chunks.len() as u16,
    }.spec_bytes()
}

/// The header region behind the chunk table.
pub open spec fn table_suffix_bytes(layout: ArchiveLayout) -> Seq<u8> {
    strings_bytes(layout.split_names) + match layout.range {
        Some(settings) => settings.spec_bytes(),
        None => Seq::empty(),
    }
}

/// The lengths of the strings of a table, each with its terminator, added up.
pub open spec fn strings_size(names: Seq<Seq<u8>>) -> int
    decreases names.len(),
{
    if names.len() == 0 {
        0
    } else {
        strings_size(names.drop_last()) + names.last().len() + 1
    }
}

/// The sizes of the records of a file-to-chunk map, added up: two bytes for
/// the directory, two for each chunk, two for the terminator.
pub open spec fn file_map_size(entries: Seq<(u16, Seq<u16>)>) -> int
    decreases entries.len(),
{
    if entries.len() == 0 {
        0
    } else {
        file_map_size(entries.drop_last()) + 2 + 2 * entries.last().1.len() + 2
    }
}

/// How long the header region of an archive is, worked out from its
/// structure alone.
pub open spec fn header_size(layout: ArchiveLayout) -> int {
    9 + strings_size(layout.file_names) + strings_size(layout.dir_names) + file_map_size(
        layout.file_map,
    ) + 4 + 16 * layout.chunks.len() + strings_size(layout.split_names) + if layout.range is Some {
        10int
    } else {
        0int
    }
}

/// A string table is as long as its strings and their terminators.
pub proof fn lemma_strings_size(names: Seq<Seq<u8>>)
    ensures
        strings_bytes(names).len() == strings_size(names),
    decreases names.len(),
{
    if names.len() == 0 {
        assert(names.map_values(|n: Seq<u8>| crate::layout::cstr_bytes(n)) =~= Seq::empty());
    } else {
        assert(names =~= names.drop_last().push(names.last()));
        crate::layout::lemma_strings_bytes_push(names.drop_last(), names.last());
        lemma_strings_size(names.drop_last());
    }
}

/// A file-to-chunk map is as long as its records.
pub proof fn lemma_file_map_size(entries: Seq<(u16, Seq<u16>)>)
    ensures
        file_map_bytes(entries).len() == file_map_size(entries),
    decreases entries.len(),
{
    if entries.len() == 0 {
        assert(entries.map_values(|e: (u16, Seq<u16>)| crate::layout::map_entry_bytes(e))
            =~= Seq::empty());
    } else {
        assert(entries =~= entries.drop_last().push(entries.last()));
        crate::layout::lemma_file_map_bytes_push(entries.drop_last(), entries.last());
        crate::layout::lemma_map_entry_bytes_len(entries.last());
        lemma_file_map_size(entries.drop_last());
    }
}

/// The header region is exactly as long as [`header_size`] says, and the
/// chunk table starts where the blocks before it end.
pub proof fn lemma_header_size(layout: ArchiveLayout)
    ensures
        layout_bytes(layout).len() == header_size(layout),
        table_prefix_bytes(layout).len() == 9 + strings_size(layout.file_names) + strings_size(
            layout.dir_names,
        ) + file_map_size(layout.file_map) + 4,
        chunks_bytes(layout.chunks).len() == 16 * layout.chunks.len(),
{
    lemma_strings_size(layout.file_names);
    lemma_strings_size(layout.dir_names);
    lemma_strings_size(layout.split_names);
    lemma_file_map_size(layout.file_map);
    crate::layout::lemma_chunks_bytes_layout(layout.chunks);
}

/// Whether a layout can be stored and read back: the counts fit their
/// 16-bit fields, the version is the supported one, no string holds a zero
/// byte, no chunk list holds the terminator, the split list has a name for
/// every volume but the main one, and range settings are there exactly
/// where a chunk is range-coded.
pub open spec fn storable(layout: ArchiveLayout) -> bool {
    &&& layout.version == SUPPORTED_VERSION
    &&& layout.file_names.len() <= u16::MAX
    &&& layout.dir_names.len() < u16::MAX
    &&& layout.file_map.len() == layout.file_names.len()
    &&& layout.chunks.len() <= u16::MAX
    &&& layout.split_names.len() == split_count(layout.num_arch_files)
    &&& forall|k: int| 0 <= k < layout.file_names.len() ==> nul_free(#[trigger] layout.file_names[k])
    &&& forall|k: int| 0 <= k < layout.dir_names.len() ==> nul_free(#[trigger] layout.dir_names[k])
    &&& forall|k: int|
        0 <= k < layout.split_names.len() ==> nul_free(#[trigger] layout.split_names[k])
    &&& forall|k: int|
        0 <= k < layout.file_map.len() ==> terminator_free(#[trigger] layout.file_map[k].1)
    &&& layout.range is Some <==> any_range_chunk(layout.chunks)
}

/// Where the bytes from `start` on are `x + y`, they are `x` and then `y`.
pub proof fn lemma_split(s: Seq<u8>, start: int, x: Seq<u8>, y: Seq<u8>)
    requires
        0 <= start,
        start + (x + y).len() <= s.len(),
        s.subrange(start, start + (x + y).len()) == x + y,
    ensures
        s.subrange(start, start + x.len()) == x,
        s.subrange(start + x.len(), start + x.len() + y.len()) == y,
{
    let all = x + y;
    assert forall|i: int| 0 <= i < all.len() implies s[start + i] == all[i] by {
        assert(s[start + i] == s.subrange(start, start + all.len())[i]);
    }
    assert forall|i: int| 0 <= i < x.len() implies s[start + i] == x[i] by {
        assert(all[i] == x[i]);
    }
    assert forall|i: int| 0 <= i < y.len() implies s[start + x.len() + i] == y[i] by {
        assert(all[x.len() + i] == y[i]);
    }
    assert(s.subrange(start, start + x.len()) =~= x);
    assert(s.subrange(start + x.len(), start + x.len() + y.len()) =~= y);
}

/// The file header that a layout is stored with.
pub open spec fn header_of(layout: ArchiveLayout) -> ArchiveHeader {
    ArchiveHeader {
        magic: MAGIC,
        num_files: layout.file_names.len() as u16,
        num_dirs: (layout.dir_names.len() + 1) as u16,
        version: layout.version,
    }
}

/// The chunk table header that a layout is stored with.
pub open spec fn table_header_of(layout: ArchiveLayout) -> ChunkTableHeader {
    ChunkTableHeader {
        num_arch_files: layout.num_arch_files,
        num_chunks: layout.chunks.len() as u16,
    }
}

/// Where each block of a stored layout lies.
proof fn lemma_layout_segments(layout: ArchiveLayout, s: Seq<u8>)
    requires
        layout_bytes(layout).len() <= s.len(),
        s.subrange(0, layout_bytes(layout).len() as int) == layout_bytes(layout),
    ensures
        ({
            let dirs_at = 9 + strings_size(layout.file_names);
            let map_at = dirs_at + strings_size(layout.dir_names);
            let table_at = map_at + file_map_size(layout.file_map);
            let splits_at = table_at + 4 + 16 * layout.chunks.len();
            let rest_at = splits_at + strings_size(layout.split_names);
            &&& s.subrange(0, 9) == header_of(layout).spec_bytes()
            &&& s.subrange(9, dirs_at) == strings_bytes(layout.file_names)
            &&& s.subrange(dirs_at, map_at) == strings_bytes(layout.dir_names)
            &&& s.subrange(map_at, table_at) == file_map_bytes(layout.file_map)
            &&& s.subrange(table_at, table_at + 4) == table_header_of(layout).spec_bytes()
            &&& s.subrange(table_at + 4, splits_at) == chunks_bytes(layout.chunks)
            &&& s.subrange(splits_at, rest_at) == strings_bytes(layout.split_names)
            &&& layout.range matches Some(settings) ==> s.subrange(rest_at, rest_at + 10)
                == settings.spec_bytes()
            &&& rest_at + (if layout.range is Some { 10int } else { 0int }) == layout_bytes(layout).len()
            &&& 0 <= dirs_at <= map_at <= table_at <= splits_at <= rest_at <= s.len()
        }),
{
    lemma_header_size(layout);
    lemma_strings_size(layout.file_names);
    lemma_strings_size(layout.dir_names);
    lemma_strings_size(layout.split_names);
    lemma_file_map_size(layout.file_map);
    let hb = header_of(layout).spec_bytes();
    let fb = strings_bytes(layout.file_names);
    let db = strings_bytes(layout.dir_names);
    let mb = file_map_bytes(layout.file_map);
    let tb = table_header_of(layout).spec_bytes();
    let cb = chunks_bytes(layout.chunks);
    let sb = strings_bytes(layout.split_names);
    let rb = match layout.range {
        Some(settings) => settings.spec_bytes(),
        None => Seq::<u8>::empty(),
    };
    assert(hb.len() == 9);
    assert(tb.len() == 4);
    let prefix = table_prefix_bytes(layout);
    assert(prefix == hb + fb + db + mb + tb);
    lemma_split(s, 0, prefix + cb, sb + rb);
    lemma_split(s, (prefix + cb).len() as int, sb, rb);
    lemma_split(s, 0, prefix, cb);
    lemma_split(s, 0, hb + fb + db + mb, tb);
    lemma_split(s, 0, hb + fb + db, mb);
    lemma_split(s, 0, hb + fb, db);
    lemma_split(s, 0, hb, fb);
}

/// Reading a stored header gives the layout back: where `s` starts with the
/// header region of a storable layout, a reader finds exactly that layout,
/// and the payload of the main volume starts right behind the region.
pub proof fn lemma_parse_stored_layout(layout: ArchiveLayout, s: Seq<u8>)
    requires
        storable(layout),
        layout_bytes(layout).len() <= s.len(),
        s.subrange(0, layout_bytes(layout).len() as int) == layout_bytes(layout),
    ensures
        parse_layout(s) == Ok::<(ArchiveLayout, int), ParseFault>(
            (layout, layout_bytes(layout).len() as int),
        ),
{
    let header = header_of(layout);
    let table = table_header_of(layout);
    lemma_layout_segments(layout, s);
    lemma_strings_size(layout.file_names);
    lemma_strings_size(layout.dir_names);
    lemma_strings_size(layout.split_names);
    lemma_file_map_size(layout.file_map);
    let dirs_at = 9 + strings_size(layout.file_names);
    let map_at = dirs_at + strings_size(layout.dir_names);
    let table_at = map_at + file_map_size(layout.file_map);
    let splits_at = table_at + 4 + 16 * layout.chunks.len();
    let rest_at = splits_at + strings_size(layout.split_names);
    header.lemma_at_encoded(s, 0);
    crate::layout::lemma_parse_strings_encoded(s, 9, layout.file_names);
    crate::layout::lemma_parse_strings_encoded(s, dirs_at, layout.dir_names);
    crate::layout::lemma_parse_file_map_encoded(s, map_at, layout.file_map);
    table.lemma_at_encoded(s, table_at);
    crate::layout::lemma_parse_chunks_encoded(s, table_at + 4, layout.chunks);
    crate::layout::lemma_parse_strings_encoded(s, splits_at, layout.split_names);
    match layout.range {
        None => {},
        Some(settings) => {
            settings.lemma_at_encoded(s, rest_at);
        },
    }
    assert(ArchiveHeader::spec_at(s, 0) == header);
    assert(parse_strings(s, 9, header.num_files as nat) == Some((layout.file_names, dirs_at)));
    assert(parse_strings(s, dirs_at, (header.num_dirs - 1) as nat) == Some((layout.dir_names, map_at)));
    assert(parse_file_map(s, map_at, header.num_files as nat) == Some((layout.file_map, table_at)));
    assert(ChunkTableHeader::spec_at(s, table_at) == table);
    assert(parse_chunks(s, table_at + 4, table.num_chunks as nat) == Some(layout.chunks));
    assert(parse_strings(s, splits_at, split_count(table.num_arch_files)) == Some(
        (layout.split_names, rest_at),
    ));
    lemma_parse_tables_found(s, header, layout, table, dirs_at, map_at, table_at, rest_at);
}

/// Puts the blocks that were found together.
proof fn lemma_parse_tables_found(
    s: Seq<u8>,
    header: ArchiveHeader,
    layout: ArchiveLayout,
    table: ChunkTableHeader,
    dirs_at: int,
    map_at: int,
    table_at: int,
    rest_at: int,
)
    requires
        header.version == layout.version,
        table.num_arch_files == layout.num_arch_files,
        parse_strings(s, 9, header.num_files as nat) == Some((layout.file_names, dirs_at)),
        parse_strings(s, dirs_at, (header.num_dirs - 1) as nat) == Some((layout.dir_names, map_at)),
        parse_file_map(s, map_at, header.num_files as nat) == Some((layout.file_map, table_at)),
        table_at + 4 <= s.len(),
        ChunkTableHeader::spec_at(s, table_at) == table,
        parse_chunks(s, table_at + 4, table.num_chunks as nat) == Some(layout.chunks),
        parse_strings(s, table_at + 4 + 16 * table.num_chunks, split_count(table.num_arch_files))
            == Some((layout.split_names, rest_at)),
        layout.range is Some <==> any_range_chunk(layout.chunks),
        layout.range matches Some(settings) ==> rest_at + 10 <= s.len() && RangeSettingsDisk::spec_at(
            s,
            rest_at,
        ) == settings,
    ensures
        parse_tables(s, header) == Ok::<(ArchiveLayout, int), ParseFault>(
            (
                layout,
                rest_at + if layout.range is Some {
                    10int
                } else {
                    0int
                },
            ),
        ),
{
}

/// Whether error `e` reports fault `f`.
pub open spec fn reports(e: DzipError, f: ParseFault) -> bool {
    match f {
        ParseFault::Truncated => e is Format,
        ParseFault::BadMagic(found) => e == DzipError::InvalidMagic(found),
        ParseFault::BadVersion(v) => e == DzipError::UnsupportedVersion(v),
        ParseFault::NoDirectories => e is Format,
    }
}

/// The text of the root directory.
pub open spec fn root_dir() -> Seq<char> {
    seq!['.']
}

/// The structure of an archive as the extraction and listing code uses it.
#[derive(Debug)]
pub struct ArchiveMetadata {
    pub version: u8,
    /// Base names of the files, in file order.
    pub user_files: Vec<String>,
    /// The directories; index 0 is the root `"."`, so that a directory
    /// index of the map can be used as it is.
    pub directories: Vec<String>,
    pub map_entries: Vec<FileMapDiskEntry>,
    pub raw_chunks: Vec<RawChunk>,
    pub split_file_names: Vec<String>,
    pub range_settings: Option<RangeSettings>,
    /// Length of the main volume in bytes.
    pub main_file_len: u64,
}

impl ArchiveMetadata {
    /// What holds of every structure that was read from an archive: there
    /// is a name for each file, the root directory comes first, all counts
    /// fit the 16-bit fields they were read from, and each chunk knows its
    /// place in the table.
    pub open spec fn wf(&self) -> bool {
        &&& self.user_files@.len() == self.map_entries@.len()
        &&& self.user_files@.len() <= u16::MAX
        &&& 1 <= self.directories@.len() <= u16::MAX
        &&& self.directories@[0]@ == root_dir()
        &&& self.raw_chunks@.len() <= u16::MAX
        &&& self.split_file_names@.len() < u16::MAX
        &&& forall|i: int| 0 <= i < self.raw_chunks@.len() ==> (#[trigger] self.raw_chunks@[i]).id == i
    }

    /// Whether this structure is what `layout` says, for a main volume of
    /// `main_len` bytes.
    pub open spec fn describes(&self, layout: ArchiveLayout, main_len: int) -> bool {
        &&& self.version == layout.version
        &&& decoded_from(self.user_files@, layout.file_names)
        &&& self.directories@.len() == layout.dir_names.len() + 1
        &&& self.directories@[0]@ == root_dir()
        &&& forall|k: int|
            0 <= k < layout.dir_names.len() ==> crate::reader::is_decoding(
                (#[trigger] self.directories@[k + 1])@,
                layout.dir_names[k],
            )
        &&& entries_view(self.map_entries@) == layout.file_map
        &&& self.raw_chunks@.len() == layout.chunks.len()
        &&& forall|i: int|
            0 <= i < layout.chunks.len() ==> #[trigger] self.raw_chunks@[i]
                == RawChunk::spec_from_disk(i as u16, layout.chunks[i])
        &&& decoded_from(self.split_file_names@, layout.split_names)
        &&& self.range_settings == layout.range
        &&& self.main_file_len == main_len
    }

    /// Reads the header of an archive from the bytes of its main volume.
    ///
    /// Succeeds exactly where the bytes start with a well-formed header;
    /// the result then holds what the header says, with every string
    /// decoded as UTF-8 and the root directory put in front of the stored
    /// ones. Fails with `InvalidMagic` on a wrong magic, with
    /// `UnsupportedVersion` on a version other than 0, and with `Format`
    /// where a block is truncated or the directory count is zero.
    pub fn parse(data: &[u8]) -> (r: Result<ArchiveMetadata, DzipError>)
        ensures
            match parse_layout(data@) {
                Ok((layout, payload_start)) => r matches Ok(meta) && meta.describes(
                    layout,
                    data@.len() as int,
                ) && meta.wf() && 0 <= payload_start <= data@.len(),
                Err(fault) => r matches Err(e) && reports(e, fault),
            },
            r matches Ok(meta) ==> 1 <= meta.directories@.len() == ArchiveHeader::spec_at(
                data@,
                0,
            ).num_dirs,
    {
        let mut reader = DzipReader::new(data);
        let header = match reader.read_archive_settings() {
            Ok(h) => h,
            Err(e) => {
                return Err(e);
            },
        };
        if header.version != SUPPORTED_VERSION {
            return Err(DzipError::UnsupportedVersion(header.version));
        }
        if header.num_dirs == 0 {
            return Err(DzipError::Format(String::from_str("directory count is zero")));
        }
        proof {
            lemma_parse_strings_bounds(data@, 9, header.num_files as nat);
        }
        let user_files = match reader.read_strings(header.num_files as usize) {
            Ok(v) => v,
            Err(e) => {
                return Err(e);
            },
        };
        proof {
            lemma_parse_strings_bounds(data@, reader.position(), (header.num_dirs - 1) as nat);
        }
        let mut stored_dirs = match reader.read_strings((header.num_dirs - 1) as usize) {
            Ok(v) => v,
            Err(e) => {
                return Err(e);
            },
        };
        let ghost dir_texts = stored_dirs@;
        let mut directories: Vec<String> = Vec::new();
        let root = String::from_str(".");
        proof {
            reveal_strlit(".");
            assert(root@ =~= root_dir());
        }
        directories.push(root);
        directories.append(&mut stored_dirs);
        proof {
            lemma_parse_file_map_bounds(data@, reader.position(), header.num_files as nat);
        }
        let map = match reader.read_file_chunk_map(header.num_files as usize) {
            Ok(v) => v,
            Err(e) => {
                return Err(e);
            },
        };
        let map_entries = entries_from_pairs(&map);
        let table = match reader.read_chunk_settings() {
            Ok(t) => t,
            Err(e) => {
                return Err(e);
            },
        };
        let disk_chunks = match reader.read_chunks(table.num_chunks as usize) {
            Ok(v) => v,
            Err(e) => {
                return Err(e);
            },
        };
        let splits: usize = if table.num_arch_files > 1 {
            (table.num_arch_files - 1) as usize
        } else {
            0
        };
        proof {
            lemma_parse_strings_bounds(data@, reader.position(), splits as nat);
        }
        let split_file_names = match reader.read_file_list(splits) {
            Ok(v) => v,
            Err(e) => {
                return Err(e);
            },
        };
        let (raw_chunks, has_range) = chunks_from_disk(&disk_chunks);
        let range_settings = if has_range {
            match reader.read_global_settings() {
                Ok(settings) => Some(settings),
                Err(e) => {
                    return Err(e);
                },
            }
        } else {
            None
        };
        let main_file_len = data.len() as u64;
        let meta = ArchiveMetadata {
            version: header.version,
            user_files,
            directories,
            map_entries,
            raw_chunks,
            split_file_names,
            range_settings,
            main_file_len,
        };
        proof {
            assert forall|k: int| 0 <= k < dir_texts.len() implies (
            #[trigger] meta.directories@[k + 1]) == dir_texts[k] by {}
        }
        Ok(meta)
    }
}

/// The records of a map as the archive model holds them.
pub fn entries_from_pairs(map: &Vec<(u16, Vec<u16>)>) -> (entries: Vec<FileMapDiskEntry>)
    ensures
        entries_view(entries@) == map_view(map@),
        entries@.len() == map@.len(),
{
    let mut entries: Vec<FileMapDiskEntry> = Vec::new();
    let mut k: usize = 0;
    while k < map.len()
        invariant
            k <= map@.len(),
            entries@.len() == k,
            forall|j: int| 0 <= j < k ==> (#[trigger] entries@[j])@ == (map@[j].0, map@[j].1@),
        decreases map@.len() - k,
    {
        let ids = map[k].1.clone();
        assert(ids@ =~= map@[k as int].1@);
        entries.push(FileMapDiskEntry { dir_idx: map[k].0, chunk_ids: ids });
        k += 1;
    }
    proof {
        assert(entries_view(entries@) =~= map_view(map@));
    }
    entries
}

/// The chunks of a table as the archive model holds them, and whether one
/// of them is range-coded.
pub fn chunks_from_disk(table: &Vec<ChunkDiskEntry>) -> (r: (Vec<RawChunk>, bool))
    requires
        table@.len() <= u16::MAX,
    ensures
        r.0@.len() == table@.len(),
        forall|i: int|
            0 <= i < table@.len() ==> #[trigger] r.0@[i] == RawChunk::spec_from_disk(
                i as u16,
                table@[i],
            ),
        r.1 == any_range_chunk(table@),
{
    let mut chunks: Vec<RawChunk> = Vec::new();
    let mut has_range = false;
    let mut k: usize = 0;
    while k < table.len()
        invariant
            k <= table@.len() <= u16::MAX,
            chunks@.len() == k,
            forall|i: int|
                0 <= i < k ==> #[trigger] chunks@[i] == RawChunk::spec_from_disk(
                    i as u16,
                    table@[i],
                ),
            has_range == any_range_chunk(table@.take(k as int)),
        decreases table@.len() - k,
    {
        let entry = &table[k];
        proof {
            let before = table@.take(k as int);
            let after = table@.take(k + 1);
            if any_range_chunk(before) {
                let w = choose|i: int|
                    0 <= i < before.len() && has_flag(#[trigger] before[i].flags, CHUNK_DZ);
                assert(after[w] == before[w]);
            }
            if has_flag(entry.flags, CHUNK_DZ) {
                assert(after[k as int] == *entry);
            }
            if any_range_chunk(after) {
                let w = choose|i: int|
                    0 <= i < after.len() && has_flag(#[trigger] after[i].flags, CHUNK_DZ);
                if w < k {
                    assert(before[w] == after[w]);
                }
            }
        }
        if flag_set(entry.flags, CHUNK_DZ) {
            has_range = true;
        }
        chunks.push(RawChunk::from_disk(k as u16, entry));
        k += 1;
    }
    proof {
        assert(table@.take(table@.len() as int) =~= table@);
    }
    (chunks, has_range)
}

} // verus!
