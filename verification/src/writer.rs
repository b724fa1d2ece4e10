//! Sequential writer of the header blocks.

use crate::bytes::{append_bytes, put_u16, text_bytes};
use crate::error::DzipError;
use crate::format::{
    ArchiveHeader, ChunkDiskEntry, ChunkTableHeader, RangeSettingsDisk, CHUNK_LIST_TERMINATOR,
};
use crate::layout::{
    chunks_bytes, file_map_bytes, ids_bytes, lemma_chunks_bytes_push, lemma_file_map_bytes_push,
    lemma_ids_bytes_push, lemma_strings_bytes_push, map_entry_bytes, strings_bytes,
};
use vstd::prelude::*;

verus! {

/// The bytes each string of a list is written as.
pub open spec fn names_bytes(names: Seq<String>) -> Seq<Seq<u8>> {
    names.map_values(|s: String| text_bytes(s@))
}

/// The records of a file-to-chunk map as plain sequences.
pub open spec fn map_view(map: Seq<(u16, Vec<u16>)>) -> Seq<(u16, Seq<u16>)> {
    map.map_values(|e: (u16, Vec<u16>)| (e.0, e.1@))
}

/// Writes the blocks of an archive header one after the other into a byte buffer.
///
/// The caller decides the order of the blocks; each method appends the
/// stored form of one block and changes nothing that was written before.
pub struct DzipWriter {
    writer: Vec<u8>,
}

impl View for DzipWriter {
    type V = Seq<u8>;

    closed spec fn view(&self) -> Seq<u8> {
        self.writer@
    }
}

impl DzipWriter {
    /// A writer that appends to `writer`.
    pub fn new(writer: Vec<u8>) -> (w: Self)
        ensures
            w@ == writer@,
    {
        Self { writer }
    }

    /// The buffer with everything that was written.
    pub fn into_inner(self) -> (bytes: Vec<u8>)
        ensures
            bytes@ == self@,
    {
        self.writer
    }

    /// How many bytes the buffer holds.
    pub fn position(&self) -> (n: usize)
        ensures
            n == self@.len(),
    {
        self.writer.len()
    }

    /// Appends the nine-byte file header.
    pub fn write_archive_settings(&mut self, settings: &ArchiveHeader) -> (r: Result<(), DzipError>)
        ensures
            r is Ok,
            final(self)@ == old(self)@ + settings.spec_bytes(),
    {
        settings.write_to(&mut self.writer);
        Ok(())
    }

    /// Appends each string followed by a zero byte.
    pub fn write_strings(&mut self, strings: &[String]) -> (r: Result<(), DzipError>)
        ensures
            r is Ok,
            final(self)@ == old(self)@ + strings_bytes(names_bytes(strings@)),
    {
        let ghost names = names_bytes(strings@);
        let mut i: usize = 0;
        assert(names.take(0) =~= Seq::empty());
        assert(strings_bytes(Seq::empty()) =~= Seq::<u8>::empty());
        while i < strings.len()
            invariant
                i <= strings.len(),
                names == names_bytes(strings@),
                self.writer@ == old(self).writer@ + strings_bytes(names.take(i as int)),
            decreases strings.len() - i,
        {
            let bytes = strings[i].as_str().as_bytes();
            append_bytes(&mut self.writer, bytes);
            self.writer.push(0u8);
            proof {
                assert(names.take(i + 1) =~= names.take(i as int).push(names[i as int]));
                lemma_strings_bytes_push(names.take(i as int), names[i as int]);
                assert(bytes@ == names[i as int]);
                assert(self.writer@ =~= old(self).writer@ + strings_bytes(names.take(i + 1)));
            }
            i += 1;
        }
        assert(names.take(strings.len() as int) =~= names);
        Ok(())
    }

    /// Appends one record for each file: the directory index, the chunk
    /// ids in order, and the terminator.
    pub fn write_file_chunk_map(&mut self, map: &[(u16, Vec<u16>)]) -> (r: Result<(), DzipError>)
        ensures
            r is Ok,
            final(self)@ == old(self)@ + file_map_bytes(map_view(map@)),
    {
        let ghost entries = map_view(map@);
        let mut i: usize = 0;
        assert(entries.take(0) =~= Seq::empty());
        assert(file_map_bytes(Seq::empty()) =~= Seq::<u8>::empty());
        while i < map.len()
            invariant
                i <= map.len(),
                entries == map_view(map@),
                self.writer@ == old(self).writer@ + file_map_bytes(entries.take(i as int)),
            decreases map.len() - i,
        {
            let ghost before = self.writer@;
            let entry = &map[i];
            put_u16(&mut self.writer, entry.0);
            let ids = &entry.1;
            let mut k: usize = 0;
            assert(ids@.take(0) =~= Seq::empty());
            assert(ids_bytes(Seq::empty()) =~= Seq::<u8>::empty());
            while k < ids.len()
                invariant
                    k <= ids.len(),
                    self.writer@ == before + crate::bytes::u16_le(entry.0) + ids_bytes(
                        ids@.take(k as int),
                    ),
                decreases ids.len() - k,
            {
                put_u16(&mut self.writer, ids[k]);
                proof {
                    assert(ids@.take(k + 1) =~= ids@.take(k as int).push(ids@[k as int]));
                    lemma_ids_bytes_push(ids@.take(k as int), ids@[k as int]);
                    assert(self.writer@ =~= before + crate::bytes::u16_le(entry.0) + ids_bytes(
                        ids@.take(k + 1),
                    ));
                }
                k += 1;
            }
            put_u16(&mut self.writer, CHUNK_LIST_TERMINATOR);
            proof {
                assert(ids@.take(ids.len() as int) =~= ids@);
                assert(entries[i as int] == (entry.0, ids@));
                assert(self.writer@ =~= before + map_entry_bytes(entries[i as int]));
                assert(entries.take(i + 1) =~= entries.take(i as int).push(entries[i as int]));
                lemma_file_map_bytes_push(entries.take(i as int), entries[i as int]);
                assert(self.writer@ =~= old(self).writer@ + file_map_bytes(entries.take(i + 1)));
            }
            i += 1;
        }
        assert(entries.take(map.len() as int) =~= entries);
        Ok(())
    }

    /// Appends the four-byte header of the chunk table.
    pub fn write_chunk_settings(&mut self, settings: &ChunkTableHeader) -> (r: Result<
        (),
        DzipError,
    >)
        ensures
            r is Ok,
            final(self)@ == old(self)@ + settings.spec_bytes(),
    {
        settings.write_to(&mut self.writer);
        Ok(())
    }

    /// Appends the chunk table, sixteen bytes a record.
    pub fn write_chunks(&mut self, chunks: &[ChunkDiskEntry]) -> (r: Result<(), DzipError>)
        ensures
            r is Ok,
            final(self)@ == old(self)@ + chunks_bytes(chunks@),
    {
        let mut i: usize = 0;
        assert(chunks@.take(0) =~= Seq::empty());
        assert(chunks_bytes(Seq::empty()) =~= Seq::<u8>::empty());
        while i < chunks.len()
            invariant
                i <= chunks.len(),
                self.writer@ == old(self).writer@ + chunks_bytes(chunks@.take(i as int)),
            decreases chunks.len() - i,
        {
            chunks[i].write_to(&mut self.writer);
            proof {
                assert(chunks@.take(i + 1) =~= chunks@.take(i as int).push(chunks@[i as int]));
                lemma_chunks_bytes_push(chunks@.take(i as int), chunks@[i as int]);
                assert(self.writer@ =~= old(self).writer@ + chunks_bytes(chunks@.take(i + 1)));
            }
            i += 1;
        }
        assert(chunks@.take(chunks.len() as int) =~= chunks@);
        Ok(())
    }

    /// Leaves room for `count` bytes that are written later: appends
    /// `count` zero bytes.
    pub fn reserve(&mut self, count: usize) -> (r: Result<(), DzipError>)
        ensures
            r is Ok,
            final(self)@ == old(self)@ + zeros(count as nat),
    {
        let mut k: usize = 0;
        assert(self.writer@ =~= old(self).writer@ + zeros(0));
        while k < count
            invariant
                k <= count,
                self.writer@ == old(self).writer@ + zeros(k as nat),
            decreases count - k,
        {
            self.writer.push(0u8);
            assert(self.writer@ =~= old(self).writer@ + zeros((k + 1) as nat));
            k += 1;
        }
        Ok(())
    }

    /// Appends the ten bytes of the range-coder settings.
    pub fn write_global_settings(&mut self, settings: &RangeSettingsDisk) -> (r: Result<
        (),
        DzipError,
    >)
        ensures
            r is Ok,
            final(self)@ == old(self)@ + settings.spec_bytes(),
    {
        settings.write_to(&mut self.writer);
        Ok(())
    }
}

/// `count` zero bytes.
pub open spec fn zeros(count: nat) -> Seq<u8> {
    Seq::new(count, |i: int| 0u8)
}

/// `bytes` with `patch` written over what was there from index `at` on.
pub open spec fn patched(bytes: Seq<u8>, at: int, patch: Seq<u8>) -> Seq<u8> {
    bytes.subrange(0, at) + patch + bytes.subrange(at + patch.len(), bytes.len() as int)
}

/// Writes `patch` over what `bytes` holds from index `at` on.
pub fn patch_bytes(bytes: &mut Vec<u8>, at: usize, patch: &[u8])
    requires
        at + patch@.len() <= old(bytes)@.len(),
    ensures
        final(bytes)@ == patched(old(bytes)@, at as int, patch@),
{
    let size = bytes.len();
    let mut k: usize = 0;
    while k < patch.len()
        invariant
            k <= patch@.len(),
            at + patch@.len() <= size,
            bytes@.len() == size == old(bytes)@.len(),
            forall|i: int| 0 <= i < at ==> bytes@[i] == old(bytes)@[i],
            forall|i: int| 0 <= i < k ==> bytes@[at + i] == patch@[i],
            forall|i: int| at + k <= i < bytes@.len() ==> bytes@[i] == old(bytes)@[i],
        decreases patch@.len() - k,
    {
        bytes.set(at + k, patch[k]);
        k += 1;
    }
    assert(bytes@ =~= patched(old(bytes)@, at as int, patch@));
}

/// Goes back to the slot that was left for the chunk table at index `at`
/// and writes the table into it.
pub fn patch_chunk_table(bytes: &mut Vec<u8>, at: usize, chunks: &[ChunkDiskEntry])
    requires
        at + 16 * chunks@.len() <= old(bytes)@.len(),
    ensures
        final(bytes)@ == patched(old(bytes)@, at as int, chunks_bytes(chunks@)),
{
    let mut table = DzipWriter::new(Vec::new());
    let _ = table.write_chunks(chunks);
    let stored = table.into_inner();
    proof {
        crate::layout::lemma_chunks_bytes_layout(chunks@);
        assert(stored@ =~= chunks_bytes(chunks@));
    }
    patch_bytes(bytes, at, stored.as_slice());
}

} // verus!
