//! Sequential reader of the header blocks.

use crate::bytes::{read_u16_at, read_u32_at, string_from_utf8_lossy, u32_at, utf8_lossy};
use crate::error::DzipError;
use crate::format::{
    ArchiveHeader, ChunkDiskEntry, ChunkTableHeader, RangeSettingsDisk, CHUNK_LIST_TERMINATOR,
    MAGIC,
};
use crate::layout::{
    first_nul, lemma_first_nul, parse_chunks, parse_file_map, parse_ids, parse_strings,
};
use crate::writer::map_view;
use vstd::prelude::*;
use vstd::slice::slice_subrange;
use vstd::utf8::{decode_utf8, valid_utf8};

verus! {

/// Whether `texts` are the lossy decodings of `names`, one for one: the
/// text that a name encodes where it is valid UTF-8, and otherwise that
/// text with every ill-formed part replaced.
pub open spec fn decoded_from(texts: Seq<String>, names: Seq<Seq<u8>>) -> bool {
    &&& texts.len() == names.len()
    &&& forall|k: int| 0 <= k < texts.len() ==> is_decoding((#[trigger] texts[k])@, names[k])
}

/// Whether `text` is the lossy decoding of `name`.
pub open spec fn is_decoding(text: Seq<char>, name: Seq<u8>) -> bool {
    &&& text == utf8_lossy(name)
    &&& valid_utf8(name) ==> text == decode_utf8(name)
}

/// Names that were written are read back as they were: where `read` are
/// the decodings of the bytes that `written` were stored as, both hold
/// the same texts.
pub proof fn lemma_written_names_read_back(written: Seq<String>, read: Seq<String>)
    requires
        decoded_from(read, crate::writer::names_bytes(written)),
    ensures
        read.len() == written.len(),
        forall|k: int| 0 <= k < read.len() ==> (#[trigger] read[k])@ == written[k]@,
{
    assert forall|k: int| 0 <= k < read.len() implies (#[trigger] read[k])@ == written[k]@ by {
        crate::bytes::lemma_text_roundtrip(written[k]@);
        assert(crate::writer::names_bytes(written)[k] == crate::bytes::text_bytes(written[k]@));
    }
}

/// The error for a header whose bytes end too early: `Format`, with a
/// message that says so.
pub fn truncated() -> (e: DzipError)
    ensures
        e matches DzipError::Format(message) && message@ == "unexpected end of archive header"@,
{
    DzipError::Format(String::from_str("unexpected end of archive header"))
}

/// The index of the first zero byte from `pos` on, or the length of `data`.
pub fn find_nul(data: &[u8], pos: usize) -> (n: usize)
    requires
        pos <= data@.len(),
    ensures
        n == first_nul(data@, pos as int),
        pos <= n <= data@.len(),
{
    let mut n: usize = pos;
    proof {
        lemma_first_nul(data@, pos as int);
    }
    while n < data.len() && data[n] != 0
        invariant
            pos <= n <= data@.len(),
            first_nul(data@, pos as int) == first_nul(data@, n as int),
        decreases data@.len() - n,
    {
        n += 1;
    }
    proof {
        lemma_first_nul(data@, n as int);
    }
    n
}

/// Reads `count` zero-terminated strings from `pos` on and decodes each as
/// UTF-8, replacing what is not valid. Gives the texts and the index behind
/// the last terminator, or `None` where the bytes end before it.
pub fn read_strings_at(data: &[u8], pos: usize, count: usize) -> (r: Option<(Vec<String>, usize)>)
    requires
        pos <= data@.len(),
    ensures
        match parse_strings(data@, pos as int, count as nat) {
            Some((names, end)) => r matches Some((texts, next)) && decoded_from(texts@, names)
                && next == end && pos <= next <= data@.len(),
            None => r is None,
        },
{
    let len = data.len();
    let mut at: usize = pos;
    let mut texts: Vec<String> = Vec::new();
    let ghost mut names: Seq<Seq<u8>> = Seq::empty();
    let mut k: usize = 0;
    proof {
        match parse_strings(data@, pos as int, count as nat) {
            None => {},
            Some((rest, end)) => {
                assert(names + rest =~= rest);
            },
        }
    }
    while k < count
        invariant
            k <= count,
            pos <= at <= data@.len(),
            decoded_from(texts@, names),
            names.len() == k,
            parse_strings(data@, pos as int, count as nat) == match parse_strings(
                data@,
                at as int,
                (count - k) as nat,
            ) {
                None => None,
                Some((rest, end)) => Some((names + rest, end)),
            },
        decreases count - k,
    {
        let n = find_nul(data, at);
        if n >= data.len() {
            assert(parse_strings(data@, at as int, (count - k) as nat) is None);
            return None;
        }
        let raw = slice_subrange(data, at, n);
        let text = string_from_utf8_lossy(raw);
        proof {
            let tail = parse_strings(data@, n + 1, (count - k - 1) as nat);
            assert(raw@ == data@.subrange(at as int, n as int));
            match tail {
                None => {},
                Some((rest, end)) => {
                    assert(names + (seq![raw@] + rest) =~= names.push(raw@) + rest);
                },
            }
        }
        texts.push(text);
        proof {
            names = names.push(raw@);
        }
        at = n + 1;
        k += 1;
    }
    proof {
        assert(names + Seq::<Seq<u8>>::empty() =~= names);
    }
    Some((texts, at))
}

/// Reads the chunk ids of one file from `pos` on, up to the terminator.
/// Gives the ids and the index behind the terminator, or `None` where the
/// bytes end before a terminator.
pub fn read_ids_at(data: &[u8], pos: usize) -> (r: Option<(Vec<u16>, usize)>)
    requires
        pos <= data@.len(),
    ensures
        match parse_ids(data@, pos as int) {
            Some((ids, end)) => r matches Some((v, next)) && v@ == ids && next == end && pos
                <= next <= data@.len(),
            None => r is None,
        },
{
    let len = data.len();
    let mut at: usize = pos;
    let mut ids: Vec<u16> = Vec::new();
    proof {
        match parse_ids(data@, pos as int) {
            None => {},
            Some((rest, end)) => {
                assert(ids@ + rest =~= rest);
            },
        }
    }
    loop
        invariant
            data@.len() == len,
            pos <= at <= data@.len(),
            parse_ids(data@, pos as int) == match parse_ids(data@, at as int) {
                None => None,
                Some((rest, end)) => Some((ids@ + rest, end)),
            },
        decreases data@.len() - at,
    {
        match read_u16_at(data, at) {
            None => {
                return None;
            },
            Some(id) => {
                proof {
                    match parse_ids(data@, at + 2) {
                        None => {},
                        Some((rest, end)) => {
                            assert(ids@ + (seq![id] + rest) =~= ids@.push(id) + rest);
                        },
                    }
                    assert(ids@ + Seq::<u16>::empty() =~= ids@);
                }
                at = at + 2;
                if id == CHUNK_LIST_TERMINATOR {
                    return Some((ids, at));
                }
                ids.push(id);
            },
        }
    }
}

/// Reads `count` records of the file-to-chunk map from `pos` on. Gives the
/// records and the index behind the last one, or `None` where the bytes end
/// inside a record.
pub fn read_file_map_at(data: &[u8], pos: usize, count: usize) -> (r: Option<
    (Vec<(u16, Vec<u16>)>, usize),
>)
    requires
        pos <= data@.len(),
    ensures
        match parse_file_map(data@, pos as int, count as nat) {
            Some((entries, end)) => r matches Some((map, next)) && map_view(map@) == entries
                && next == end && pos <= next <= data@.len(),
            None => r is None,
        },
{
    let len = data.len();
    let mut at: usize = pos;
    let mut map: Vec<(u16, Vec<u16>)> = Vec::new();
    let mut k: usize = 0;
    proof {
        assert(map_view(map@) =~= Seq::empty());
        match parse_file_map(data@, pos as int, count as nat) {
            None => {},
            Some((rest, end)) => {
                assert(map_view(map@) + rest =~= rest);
            },
        }
    }
    while k < count
        invariant
            k <= count,
            data@.len() == len,
            pos <= at <= data@.len(),
            map@.len() == k,
            parse_file_map(data@, pos as int, count as nat) == match parse_file_map(
                data@,
                at as int,
                (count - k) as nat,
            ) {
                None => None,
                Some((rest, end)) => Some((map_view(map@) + rest, end)),
            },
        decreases count - k,
    {
        let dir_idx = match read_u16_at(data, at) {
            None => {
                assert(parse_file_map(data@, at as int, (count - k) as nat) is None);
                return None;
            },
            Some(v) => v,
        };
        let (ids, next) = match read_ids_at(data, at + 2) {
            None => {
                assert(parse_file_map(data@, at as int, (count - k) as nat) is None);
                return None;
            },
            Some(found) => found,
        };
        proof {
            let entry = (dir_idx, ids@);
            match parse_file_map(data@, next as int, (count - k - 1) as nat) {
                None => {},
                Some((rest, end)) => {
                    assert(map_view(map@) + (seq![entry] + rest) =~= map_view(map@).push(entry)
                        + rest);
                },
            }
            assert(map_view(map@.push((dir_idx, ids))) =~= map_view(map@).push(entry));
        }
        map.push((dir_idx, ids));
        at = next;
        k += 1;
    }
    proof {
        assert(map_view(map@) + Seq::<(u16, Seq<u16>)>::empty() =~= map_view(map@));
    }
    Some((map, at))
}

/// Reads `count` records of the chunk table from `pos` on, or gives `None`
/// where fewer than sixteen bytes a record are left.
pub fn read_chunks_at(data: &[u8], pos: usize, count: usize) -> (r: Option<Vec<ChunkDiskEntry>>)
    requires
        pos <= data@.len(),
    ensures
        match parse_chunks(data@, pos as int, count as nat) {
            Some(chunks) => r matches Some(v) && v@ == chunks,
            None => r is None,
        },
{
    let len = data.len();
    if (len - pos) / 16 < count {
        return None;
    }
    let mut chunks: Vec<ChunkDiskEntry> = Vec::new();
    let mut k: usize = 0;
    while k < count
        invariant
            k <= count,
            data@.len() == len,
            pos + 16 * count <= data@.len(),
            chunks@.len() == k,
            forall|j: int| 0 <= j < k ==> chunks@[j] == ChunkDiskEntry::spec_at(data@, pos + 16 * j),
        decreases count - k,
    {
        let entry = ChunkDiskEntry::read_at(data, pos + 16 * k).unwrap();
        chunks.push(entry);
        k += 1;
    }
    proof {
        assert(chunks@ =~= parse_chunks(data@, pos as int, count as nat).unwrap());
    }
    Some(chunks)
}

/// Reads the blocks of an archive header one after the other from a byte slice.
///
/// A method that fails leaves the reader where it was.
pub struct DzipReader<'a> {
    data: &'a [u8],
    pos: usize,
}

impl<'a> DzipReader<'a> {
    #[verifier::type_invariant]
    spec fn in_bounds(self) -> bool {
        self.pos <= self.data@.len()
    }

    /// The bytes the reader was made for.
    pub closed spec fn bytes(&self) -> Seq<u8> {
        self.data@
    }

    /// The index of the next byte to read.
    pub closed spec fn position(&self) -> int {
        self.pos as int
    }

    /// A reader at the start of `data`.
    pub fn new(data: &'a [u8]) -> (r: Self)
        ensures
            r.bytes() == data@,
            r.position() == 0,
    {
        Self { data, pos: 0 }
    }

    /// The index of the next byte to read.
    pub fn offset(&self) -> (n: usize)
        ensures
            n == self.position(),
            n <= self.bytes().len(),
    {
        proof {
            use_type_invariant(self);
        }
        self.pos
    }

    /// Reads the nine-byte file header and checks its magic.
    ///
    /// Fails with `Format` where the bytes end inside the header and with
    /// `InvalidMagic` where the first four bytes are not the magic.
    pub fn read_archive_settings(&mut self) -> (r: Result<ArchiveHeader, DzipError>)
        ensures
            final(self).bytes() == old(self).bytes(),
            r is Err ==> final(self).position() == old(self).position(),
            old(self).position() + 4 > old(self).bytes().len() ==> r is Err && r->Err_0 is Format,
            old(self).position() + 4 <= old(self).bytes().len() && u32_at(
                old(self).bytes(),
                old(self).position(),
            ) != MAGIC ==> r == Err::<ArchiveHeader, DzipError>(
                DzipError::InvalidMagic(u32_at(old(self).bytes(), old(self).position())),
            ),
            old(self).position() + 4 <= old(self).bytes().len() && old(self).position() + 9 > old(
                self).bytes().len() && u32_at(old(self).bytes(), old(self).position()) == MAGIC
                ==> r is Err && r->Err_0 is Format,
            old(self).position() + 9 <= old(self).bytes().len() && u32_at(
                old(self).bytes(),
                old(self).position(),
            ) == MAGIC ==> r == Ok::<ArchiveHeader, DzipError>(
                ArchiveHeader::spec_at(old(self).bytes(), old(self).position()),
            ) && final(self).position() == old(self).position() + 9,
    {
        proof {
            use_type_invariant(&*self);
        }
        let data = self.data;
        let pos = self.pos;
        let len = data.len();
        match read_u32_at(data, pos) {
            None => Err(truncated()),
            Some(magic) => {
                if magic != MAGIC {
                    return Err(DzipError::InvalidMagic(magic));
                }
                match ArchiveHeader::read_at(data, pos) {
                    None => Err(truncated()),
                    Some(header) => {
                        self.pos = pos + 9;
                        Ok(header)
                    },
                }
            },
        }
    }

    /// Reads `count` zero-terminated strings and decodes each as UTF-8,
    /// replacing what is not valid.
    ///
    /// Fails with `Format` where the bytes end before the last terminator.
    pub fn read_strings(&mut self, count: usize) -> (r: Result<Vec<String>, DzipError>)
        ensures
            final(self).bytes() == old(self).bytes(),
            match parse_strings(old(self).bytes(), old(self).position(), count as nat) {
                Some((names, end)) => r matches Ok(texts) && decoded_from(texts@, names) && final(
                    self).position() == end,
                None => r is Err && r->Err_0 is Format && final(self).position() == old(
                    self).position(),
            },
    {
        proof {
            use_type_invariant(&*self);
        }
        match read_strings_at(self.data, self.pos, count) {
            None => Err(truncated()),
            Some((texts, next)) => {
                self.pos = next;
                Ok(texts)
            },
        }
    }

    /// Reads the split list: `count` zero-terminated volume names.
    pub fn read_file_list(&mut self, count: usize) -> (r: Result<Vec<String>, DzipError>)
        ensures
            final(self).bytes() == old(self).bytes(),
            match parse_strings(old(self).bytes(), old(self).position(), count as nat) {
                Some((names, end)) => r matches Ok(texts) && decoded_from(texts@, names) && final(
                    self).position() == end,
                None => r is Err && r->Err_0 is Format && final(self).position() == old(
                    self).position(),
            },
    {
        self.read_strings(count)
    }

    /// Reads `count` records of the file-to-chunk map.
    ///
    /// Fails with `Format` where the bytes end inside a record.
    pub fn read_file_chunk_map(&mut self, count: usize) -> (r: Result<
        Vec<(u16, Vec<u16>)>,
        DzipError,
    >)
        ensures
            final(self).bytes() == old(self).bytes(),
            match parse_file_map(old(self).bytes(), old(self).position(), count as nat) {
                Some((entries, end)) => r matches Ok(map) && map_view(map@) == entries && final(
                    self).position() == end,
                None => r is Err && r->Err_0 is Format && final(self).position() == old(
                    self).position(),
            },
    {
        proof {
            use_type_invariant(&*self);
        }
        match read_file_map_at(self.data, self.pos, count) {
            None => Err(truncated()),
            Some((map, next)) => {
                self.pos = next;
                Ok(map)
            },
        }
    }

    /// Reads the four-byte header of the chunk table.
    pub fn read_chunk_settings(&mut self) -> (r: Result<ChunkTableHeader, DzipError>)
        ensures
            final(self).bytes() == old(self).bytes(),
            if old(self).position() + 4 <= old(self).bytes().len() {
                r == Ok::<ChunkTableHeader, DzipError>(
                    ChunkTableHeader::spec_at(old(self).bytes(), old(self).position()),
                ) && final(self).position() == old(self).position() + 4
            } else {
                r is Err && r->Err_0 is Format && final(self).position() == old(self).position()
            },
    {
        proof {
            use_type_invariant(&*self);
        }
        let data = self.data;
        let pos = self.pos;
        let len = data.len();
        match ChunkTableHeader::read_at(data, pos) {
            None => Err(truncated()),
            Some(header) => {
                self.pos = pos + 4;
                Ok(header)
            },
        }
    }

    /// Reads `count` records of the chunk table.
    ///
    /// Fails with `Format` where fewer than sixteen bytes a record are left.
    pub fn read_chunks(&mut self, count: usize) -> (r: Result<Vec<ChunkDiskEntry>, DzipError>)
        ensures
            final(self).bytes() == old(self).bytes(),
            match parse_chunks(old(self).bytes(), old(self).position(), count as nat) {
                Some(chunks) => r matches Ok(v) && v@ == chunks && final(self).position() == old(
                    self).position() + 16 * count,
                None => r is Err && r->Err_0 is Format && final(self).position() == old(
                    self).position(),
            },
    {
        proof {
            use_type_invariant(&*self);
        }
        let data = self.data;
        let pos = self.pos;
        let len = data.len();
        match read_chunks_at(data, pos, count) {
            None => Err(truncated()),
            Some(chunks) => {
                self.pos = pos + 16 * count;
                Ok(chunks)
            },
        }
    }

    /// Reads the ten bytes of the range-coder settings.
    pub fn read_global_settings(&mut self) -> (r: Result<RangeSettingsDisk, DzipError>)
        ensures
            final(self).bytes() == old(self).bytes(),
            if old(self).position() + 10 <= old(self).bytes().len() {
                r == Ok::<RangeSettingsDisk, DzipError>(
                    RangeSettingsDisk::spec_at(old(self).bytes(), old(self).position()),
                ) && final(self).position() == old(self).position() + 10
            } else {
                r is Err && r->Err_0 is Format && final(self).position() == old(self).position()
            },
    {
        proof {
            use_type_invariant(&*self);
        }
        let data = self.data;
        let pos = self.pos;
        let len = data.len();
        match RangeSettingsDisk::read_at(data, pos) {
            None => Err(truncated()),
            Some(settings) => {
                self.pos = pos + 10;
                Ok(settings)
            },
        }
    }
}

} // verus!
