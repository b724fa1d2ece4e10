//! Packing: from a description and source files to the volumes of an archive.
//!
//! Packing runs in the order the format forces on it. The header comes
//! first, but the chunk table inside it holds offsets and lengths that are
//! known only when every chunk has been compressed. So the size of the
//! header is worked out beforehand, the chunks are laid out behind it in
//! the order of their ids, and the chunk table is written last.

use crate::bytes::text_bytes;
use crate::codec::{compress, compressed, CodecFault};
use crate::error::DzipError;
use crate::format::{
    any_range_chunk, has_flag, ArchiveHeader, ChunkDiskEntry, ChunkTableHeader, RangeSettingsDisk,
    CHUNK_DZ, MAGIC,
};
use crate::io::{PackSink, PackSource, ProgressEvent};
use crate::layout::chunks_bytes;
use crate::metadata::{
    file_map_size, header_size, layout_bytes, strings_size, table_prefix_bytes,
    table_suffix_bytes, ArchiveLayout,
};
use crate::model::{ChunkDef, Config, FileEntry};
use crate::paths::{to_native_path_with, with_separator};
use crate::utils::{bit_named, flag_for_name};
use crate::writer::{map_view, names_bytes, patch_chunk_table, patched, zeros, DzipWriter};
use vstd::prelude::*;

verus! {

/// The flag word of a chunk definition: the bit that its flag name stands
/// for, or 0 for a name that is not in the table.
pub open spec fn def_flags(def: ChunkDef) -> u16 {
    bit_named(def.flag@)
}

/// How many bytes of its source file a chunk takes: its decompressed size,
/// or, for a range-coded chunk, whose data is its payload, its stored size.
pub open spec fn def_read_len(def: ChunkDef) -> u32 {
    if has_flag(def_flags(def), CHUNK_DZ) {
        def.size_compressed
    } else {
        def.size_decompressed
    }
}

/// Whether one of the definitions has id `p`.
pub open spec fn has_id(defs: Seq<ChunkDef>, p: int) -> bool {
    exists|k: int| 0 <= k < defs.len() && (#[trigger] defs[k]).id == p
}

/// Whether the ids of the chunk definitions are exactly the positions of a
/// chunk table: there are at most 65535 definitions, every id is below
/// their number, no two definitions share an id, and every position below
/// their number is the id of one.
pub open spec fn ids_are_positions(defs: Seq<ChunkDef>) -> bool {
    &&& defs.len() <= u16::MAX
    &&& forall|k: int| 0 <= k < defs.len() ==> (#[trigger] defs[k]).id < defs.len()
    &&& forall|j: int, k: int|
        0 <= j < k < defs.len() ==> (#[trigger] defs[j]).id != (#[trigger] defs[k]).id
    &&& forall|p: int| 0 <= p < defs.len() ==> #[trigger] has_id(defs, p)
}

/// The definition of the chunk with id `p`.
pub open spec fn def_at(defs: Seq<ChunkDef>, p: int) -> ChunkDef {
    defs[choose|k: int| 0 <= k < defs.len() && (#[trigger] defs[k]).id == p]
}

/// Whether `by_id` says for every position which definition has it as its id.
pub open spec fn indexes(by_id: Seq<usize>, defs: Seq<ChunkDef>) -> bool {
    &&& by_id.len() == defs.len()
    &&& forall|p: int|
        0 <= p < by_id.len() ==> (#[trigger] by_id[p]) < defs.len() && defs[by_id[p] as int]
            == def_at(defs, p)
}

/// Finds for every position of the chunk table the definition that has it
/// as its id, or `None` where the ids are not exactly the positions.
pub fn index_chunks(defs: &Vec<ChunkDef>) -> (r: Option<Vec<usize>>)
    ensures
        r is Some <==> ids_are_positions(defs@),
        r matches Some(by_id) ==> indexes(by_id@, defs@),
{
    let n = defs.len();
    if n > 65535 {
        return None;
    }
    let mut by_id: Vec<usize> = Vec::new();
    let mut p: usize = 0;
    while p < n
        invariant
            p <= n,
            by_id@.len() == p,
            forall|q: int| 0 <= q < p ==> by_id@[q] == n,
        decreases n - p,
    {
        by_id.push(n);
        p += 1;
    }
    let mut k: usize = 0;
    while k < n
        invariant
            k <= n == defs@.len(),
            n <= u16::MAX,
            by_id@.len() == n,
            forall|j: int| 0 <= j < k ==> (#[trigger] defs@[j]).id < n,
            forall|q: int|
                0 <= q < n ==> (#[trigger] by_id@[q]) == n || (by_id@[q] < k
                    && defs@[by_id@[q] as int].id == q),
            forall|j: int| 0 <= j < k ==> by_id@[(#[trigger] defs@[j]).id as int] == j,
        decreases n - k,
    {
        let id = defs[k].id as usize;
        if id >= n {
            return None;
        }
        if by_id[id] != n {
            proof {
                let j = by_id@[id as int] as int;
                assert(defs@[j].id == defs@[k as int].id);
                assert(0 <= j < k);
            }
            return None;
        }
        by_id.set(id, k);
        k += 1;
    }
    let mut p: usize = 0;
    while p < n
        invariant
            p <= n == defs@.len(),
            n <= u16::MAX,
            by_id@.len() == n,
            forall|j: int| 0 <= j < n ==> (#[trigger] defs@[j]).id < n,
            forall|q: int|
                0 <= q < n ==> (#[trigger] by_id@[q]) == n || (by_id@[q] < n
                    && defs@[by_id@[q] as int].id == q),
            forall|j: int| 0 <= j < n ==> by_id@[(#[trigger] defs@[j]).id as int] == j,
            forall|q: int| 0 <= q < p ==> by_id@[q] != n,
        decreases n - p,
    {
        if by_id[p] == n {
            proof {
                if ids_are_positions(defs@) {
                    assert(has_id(defs@, p as int));
                    let w = choose|j: int| 0 <= j < defs@.len() && (#[trigger] defs@[j]).id == p;
                    assert(by_id@[defs@[w].id as int] != n);
                }
            }
            return None;
        }
        p += 1;
    }
    proof {
        assert forall|q: int| 0 <= q < n implies #[trigger] has_id(defs@, q) by {
            let j = by_id@[q] as int;
            assert(defs@[j].id == q);
        }
        assert forall|j: int, k: int| 0 <= j < k < defs@.len() implies (#[trigger] defs@[j]).id != (
        #[trigger] defs@[k]).id by {
            assert(by_id@[defs@[j].id as int] == j);
            assert(by_id@[defs@[k].id as int] == k);
        }
        assert forall|q: int| 0 <= q < by_id@.len() implies (#[trigger] by_id@[q]) < defs@.len()
            && defs@[by_id@[q] as int] == def_at(defs@, q) by {
            let j = by_id@[q] as int;
            assert(defs@[j].id == q);
            let w = choose|k: int| 0 <= k < defs@.len() && (#[trigger] defs@[k]).id == q;
            assert(by_id@[defs@[w].id as int] == w);
        }
    }
    Some(by_id)
}

/// The chunk definitions in the order of their ids.
pub open spec fn ordered_defs(defs: Seq<ChunkDef>) -> Seq<ChunkDef> {
    Seq::new(defs.len(), |p: int| def_at(defs, p))
}

/// The record that a chunk of definition `def` gets in the chunk table
/// when its payload of `c_len` bytes lies at `offset`.
pub open spec fn table_entry(def: ChunkDef, offset: u32, c_len: u32) -> ChunkDiskEntry {
    ChunkDiskEntry {
        offset,
        c_len,
        d_len: def.size_decompressed,
        flags: def_flags(def),
        file_idx: def.archive_file_index,
    }
}

/// The flag word of a chunk definition.
pub fn flags_of(def: &ChunkDef) -> (flags: u16)
    ensures
        flags == def_flags(*def),
{
    flag_for_name(def.flag.as_str())
}

/// How many bytes of its source file a chunk takes.
pub fn read_len_of(def: &ChunkDef) -> (len: u32)
    ensures
        len == def_read_len(*def),
{
    if crate::format::flag_set(flags_of(def), CHUNK_DZ) {
        def.size_compressed
    } else {
        def.size_decompressed
    }
}

/// The directory of a file as the archive stores it: with backslashes.
pub open spec fn dir_key(file: FileEntry) -> Seq<char> {
    with_separator(file.directory@, '\\')
}

/// Whether a stored directory is the root, which has index 0 and no string.
pub open spec fn is_root_key(key: Seq<char>) -> bool {
    key.len() == 0 || key == seq!['.']
}

/// The stored directories of the first `n` files, each once, in the order
/// in which the files first name them.
pub open spec fn dir_table(files: Seq<FileEntry>, n: nat) -> Seq<Seq<char>>
    decreases n,
{
    if n == 0 {
        Seq::empty()
    } else {
        let before = dir_table(files, (n - 1) as nat);
        let key = dir_key(files[n - 1]);
        if is_root_key(key) || before.contains(key) {
            before
        } else {
            before.push(key)
        }
    }
}

/// Whether `idx` is the directory index of a file with stored directory
/// `key`: 0 for the root, and otherwise one more than the place of the key
/// in `table`.
pub open spec fn is_dir_index(table: Seq<Seq<char>>, key: Seq<char>, idx: int) -> bool {
    if is_root_key(key) {
        idx == 0
    } else {
        0 < idx <= table.len() && table[idx - 1] == key
    }
}

/// The directory table grows only at its end.
pub proof fn lemma_dir_table_grows(files: Seq<FileEntry>, n: nat, m: nat)
    requires
        n <= m,
    ensures
        dir_table(files, n).len() <= dir_table(files, m).len(),
        forall|k: int|
            0 <= k < dir_table(files, n).len() ==> dir_table(files, m)[k] == dir_table(files, n)[k],
    decreases m,
{
    if n < m {
        lemma_dir_table_grows(files, n, (m - 1) as nat);
    }
}

/// The texts of a list of strings.
pub open spec fn string_texts(list: Seq<String>) -> Seq<Seq<char>> {
    list.map_values(|s: String| s@)
}

/// The first place at which `list` holds the text of `key`.
pub fn position_of(list: &Vec<String>, key: &String) -> (r: Option<usize>)
    ensures
        match r {
            Some(j) => j < list@.len() && list@[j as int]@ == key@,
            None => forall|k: int| 0 <= k < list@.len() ==> (#[trigger] list@[k])@ != key@,
        },
{
    let mut j: usize = 0;
    while j < list.len()
        invariant
            j <= list@.len(),
            forall|k: int| 0 <= k < j ==> (#[trigger] list@[k])@ != key@,
        decreases list@.len() - j,
    {
        if list[j] == *key {
            return Some(j);
        }
        j += 1;
    }
    None
}

/// The directory table of the files and the directory index of each file.
///
/// Gives `None` where there are more than 65534 directories besides the root.
pub fn directory_table(files: &Vec<FileEntry>) -> (r: Option<(Vec<String>, Vec<u16>)>)
    ensures
        match r {
            Some((dirs, indices)) => {
                &&& string_texts(dirs@) == dir_table(files@, files@.len())
                &&& dirs@.len() < u16::MAX
                &&& indices@.len() == files@.len()
                &&& forall|i: int|
                    0 <= i < files@.len() ==> is_dir_index(
                        dir_table(files@, files@.len()),
                        dir_key(files@[i]),
                        #[trigger] indices@[i] as int,
                    )
            },
            None => dir_table(files@, files@.len()).len() >= u16::MAX,
        },
{
    let mut dirs: Vec<String> = Vec::new();
    let mut indices: Vec<u16> = Vec::new();
    let mut i: usize = 0;
    proof {
        assert(string_texts(dirs@) =~= dir_table(files@, 0));
    }
    while i < files.len()
        invariant
            i <= files@.len(),
            string_texts(dirs@) == dir_table(files@, i as nat),
            dirs@.len() < u16::MAX,
            indices@.len() == i,
            forall|j: int|
                0 <= j < i ==> is_dir_index(
                    dir_table(files@, i as nat),
                    dir_key(files@[j]),
                    #[trigger] indices@[j] as int,
                ),
        decreases files@.len() - i,
    {
        let key = to_native_path_with(files[i].directory.as_str(), '\\');
        let ghost table = dir_table(files@, i as nat);
        let key_chars = crate::text::chars_of(key.as_str());
        let is_root = key_chars.len() == 0 || (key_chars.len() == 1 && key_chars[0] == '.');
        proof {
            if key_chars.len() == 1 && key_chars[0] == '.' {
                assert(key@ =~= seq!['.']);
            }
            if key@ == seq!['.'] {
                assert(key@[0] == '.');
            }
            lemma_dir_table_grows(files@, i as nat, (i + 1) as nat);
        }
        let found = if is_root {
            None
        } else {
            position_of(&dirs, &key)
        };
        let index: usize = if is_root {
            0
        } else {
            match found {
                Some(j) => {
                    assert(table[j as int] == dirs@[j as int]@);
                    assert(table.contains(key@));
                    j + 1
                },
                None => {
                    proof {
                        if table.contains(key@) {
                            let w = choose|w: int| 0 <= w < table.len() && table[w] == key@;
                            assert(table[w] == dirs@[w]@);
                        }
                    }
                    if dirs.len() >= 65534 {
                        proof {
                            lemma_dir_table_grows(files@, (i + 1) as nat, files@.len() as nat);
                        }
                        return None;
                    }
                    let ghost before = dirs@;
                    dirs.push(key);
                    proof {
                        assert(string_texts(dirs@) =~= string_texts(before).push(key@));
                    }
                    dirs.len()
                },
            }
        };
        proof {
            let after = dir_table(files@, (i + 1) as nat);
            assert forall|j: int| 0 <= j < i implies is_dir_index(
                after,
                dir_key(files@[j]),
                #[trigger] indices@[j] as int,
            ) by {
                assert(is_dir_index(table, dir_key(files@[j]), indices@[j] as int));
            }
        }
        indices.push(index as u16);
        i += 1;
    }
    Some((dirs, indices))
}

/// The part of a source file that a chunk is made from.
pub struct SourceRange {
    /// Index of the file in the file list.
    pub file: int,
    /// Where the part starts in the file.
    pub start: int,
    /// How many bytes the part has, unless the file ends before.
    pub len: int,
}

/// `len` bytes of `bytes` from `start` on, or as many as there are.
pub open spec fn clipped(bytes: Seq<u8>, start: int, len: int) -> Seq<u8> {
    let from = if start <= bytes.len() {
        start
    } else {
        bytes.len() as int
    };
    let to = if start + len <= bytes.len() {
        start + len
    } else {
        bytes.len() as int
    };
    bytes.subrange(from, to)
}

/// `len` bytes of `bytes` from `start` on, or as many as there are.
pub fn clip(bytes: &[u8], start: u64, len: u32) -> (part: &[u8])
    ensures
        part@ == clipped(bytes@, start as int, len as int),
{
    let size = bytes.len();
    let from: usize = if start <= size as u64 {
        start as usize
    } else {
        size
    };
    let to: usize = if start <= size as u64 && len as u64 <= size as u64 - start {
        (start + len as u64) as usize
    } else {
        size
    };
    vstd::slice::slice_subrange(bytes, from, to)
}

/// The chunk lists of the files.
pub open spec fn file_ids(files: Seq<FileEntry>) -> Seq<Seq<u16>> {
    files.map_values(|f: FileEntry| f.chunks@)
}

/// Where the chunk at place `k` of a chunk list starts in its file: behind
/// the chunks before it, each as long as `lens` says.
pub open spec fn ids_offset(ids: Seq<u16>, lens: Seq<u32>, k: nat) -> int
    decreases k,
{
    if k == 0 {
        0
    } else {
        ids_offset(ids, lens, (k - 1) as nat) + lens[ids[k - 1] as int]
    }
}

/// The source of every chunk after the first `k` chunks of file `f` have
/// been laid out, where `before` holds what the files before gave. A chunk
/// that is listed again gets the source that was found last.
pub open spec fn sources_in_file(
    before: Seq<Option<SourceRange>>,
    f: int,
    ids: Seq<u16>,
    lens: Seq<u32>,
    k: nat,
) -> Seq<Option<SourceRange>>
    decreases k,
{
    if k == 0 {
        before
    } else {
        sources_in_file(before, f, ids, lens, (k - 1) as nat).update(
            ids[k - 1] as int,
            Some(
                SourceRange {
                    file: f,
                    start: ids_offset(ids, lens, (k - 1) as nat),
                    len: lens[ids[k - 1] as int] as int,
                },
            ),
        )
    }
}

/// The source of every chunk after the first `n` files have been laid out.
pub open spec fn sources_of(files: Seq<Seq<u16>>, lens: Seq<u32>, n: nat) -> Seq<
    Option<SourceRange>,
>
    decreases n,
{
    if n == 0 {
        Seq::new(lens.len(), |p: int| None)
    } else {
        sources_in_file(
            sources_of(files, lens, (n - 1) as nat),
            n - 1,
            files[n - 1],
            lens,
            files[n - 1].len(),
        )
    }
}

/// The first chunk id in the first `k` places of a list that is not below
/// `count`, or `None` where every id is below it.
pub open spec fn first_missing_in(ids: Seq<u16>, count: int, k: nat) -> Option<u16>
    decreases k,
{
    if k == 0 {
        None
    } else if first_missing_in(ids, count, (k - 1) as nat) is Some {
        first_missing_in(ids, count, (k - 1) as nat)
    } else if ids[k - 1] >= count {
        Some(ids[k - 1])
    } else {
        None
    }
}

/// The first chunk id in the first `n` files that no definition has, or
/// `None` where every listed chunk is defined.
pub open spec fn first_missing(files: Seq<Seq<u16>>, count: int, n: nat) -> Option<u16>
    decreases n,
{
    if n == 0 {
        None
    } else if first_missing(files, count, (n - 1) as nat) is Some {
        first_missing(files, count, (n - 1) as nat)
    } else {
        first_missing_in(files[n - 1], count, files[n - 1].len())
    }
}

/// Once an undefined chunk has been found, looking further changes nothing.
pub proof fn lemma_first_missing_in_stays(ids: Seq<u16>, count: int, k: nat, m: nat)
    requires
        k <= m,
        first_missing_in(ids, count, k) is Some,
    ensures
        first_missing_in(ids, count, m) == first_missing_in(ids, count, k),
    decreases m,
{
    if k < m {
        lemma_first_missing_in_stays(ids, count, k, (m - 1) as nat);
    }
}

/// Once an undefined chunk has been found, looking at more files changes nothing.
pub proof fn lemma_first_missing_stays(files: Seq<Seq<u16>>, count: int, n: nat, m: nat)
    requires
        n <= m,
        first_missing(files, count, n) is Some,
    ensures
        first_missing(files, count, m) == first_missing(files, count, n),
    decreases m,
{
    if n < m {
        lemma_first_missing_stays(files, count, n, (m - 1) as nat);
    }
}

/// Where every id is defined, none is missing among the first `k`.
pub proof fn lemma_none_missing_in(ids: Seq<u16>, count: int, k: nat)
    requires
        k <= ids.len(),
        first_missing_in(ids, count, ids.len()) is None,
    ensures
        first_missing_in(ids, count, k) is None,
        forall|j: int| 0 <= j < ids.len() ==> ids[j] < count,
    decreases ids.len() - k,
{
    if first_missing_in(ids, count, k) is Some {
        lemma_first_missing_in_stays(ids, count, k, ids.len());
    }
    assert forall|j: int| 0 <= j < ids.len() implies ids[j] < count by {
        if ids[j] >= count {
            if first_missing_in(ids, count, j as nat) is Some {
                lemma_first_missing_in_stays(ids, count, j as nat, ids.len());
            } else {
                assert(first_missing_in(ids, count, (j + 1) as nat) is Some);
                lemma_first_missing_in_stays(ids, count, (j + 1) as nat, ids.len());
            }
        }
    }
}

/// Whether every source names one of the first `n` files and starts at a
/// place that is not negative.
pub open spec fn sources_in_range(sources: Seq<Option<SourceRange>>, n: int) -> bool {
    forall|p: int|
        0 <= p < sources.len() && (#[trigger] sources[p]) is Some ==> 0 <= sources[p]->0.file < n
            && 0 <= sources[p]->0.start
}

/// Whether `held` stands for the sources `exact`: the same file and
/// length for every chunk, and the same start, except that a start beyond
/// what 64 bits can say is held as the largest 64-bit number.
pub open spec fn holds_sources(
    held: Seq<Option<(usize, u64, u32)>>,
    exact: Seq<Option<SourceRange>>,
) -> bool {
    &&& held.len() == exact.len()
    &&& forall|p: int|
        0 <= p < held.len() ==> match (#[trigger] held[p], exact[p]) {
            (None, None) => true,
            (Some((file, start, len)), Some(src)) => file == src.file && len == src.len && start
                == capped(src.start),
            _ => false,
        }
}

/// `x`, or the largest 64-bit number where `x` is larger.
pub open spec fn capped(x: int) -> int {
    if x <= u64::MAX {
        x
    } else {
        u64::MAX as int
    }
}

/// A start that was capped clips the same bytes.
pub proof fn lemma_capped_clips_same(bytes: Seq<u8>, start: int, len: int)
    requires
        bytes.len() <= usize::MAX,
        0 <= start,
        0 <= len,
    ensures
        clipped(bytes, capped(start), len) == clipped(bytes, start, len),
{
}

/// Finds for every chunk the part of a source file that it is made from.
///
/// `lens[p]` is the number of bytes that the chunk with id `p` takes. The
/// chunks of a file lie one behind the other in it, in the order of its
/// chunk list. Fails with `ChunkDefinitionMissing` for the first listed id
/// that has no definition.
pub fn source_ranges(files: &Vec<FileEntry>, lens: &Vec<u32>) -> (r: Result<
    Vec<Option<(usize, u64, u32)>>,
    DzipError,
>)
    ensures
        match first_missing(file_ids(files@), lens@.len() as int, files@.len()) {
            Some(id) => r == Err::<Vec<Option<(usize, u64, u32)>>, DzipError>(
                DzipError::ChunkDefinitionMissing(id),
            ),
            None => r is Ok && holds_sources(
                r->Ok_0@,
                sources_of(file_ids(files@), lens@, files@.len()),
            ) && r->Ok_0@.len() == lens@.len() && sources_in_range(
                sources_of(file_ids(files@), lens@, files@.len()),
                files@.len() as int,
            ),
        },
{
    let count = lens.len();
    let mut held: Vec<Option<(usize, u64, u32)>> = Vec::new();
    let mut p: usize = 0;
    while p < count
        invariant
            p <= count,
            held@.len() == p,
            forall|q: int| 0 <= q < p ==> held@[q] is None,
        decreases count - p,
    {
        held.push(None);
        p += 1;
    }
    let ghost all = file_ids(files@);
    let mut f: usize = 0;
    proof {
        assert(holds_sources(held@, sources_of(all, lens@, 0)));
    }
    while f < files.len()
        invariant
            f <= files@.len(),
            count == lens@.len(),
            all == file_ids(files@),
            first_missing(all, count as int, f as nat) is None,
            held@.len() == count,
            holds_sources(held@, sources_of(all, lens@, f as nat)),
            sources_in_range(sources_of(all, lens@, f as nat), f as int),
        decreases files@.len() - f,
    {
        let ids = &files[f].chunks;
        let ghost before = sources_of(all, lens@, f as nat);
        assert(all[f as int] == ids@);
        let mut offset: u64 = 0;
        let mut k: usize = 0;
        while k < ids.len()
            invariant
                k <= ids@.len(),
                count == lens@.len(),
                f < files@.len(),
                all == file_ids(files@),
                all[f as int] == ids@,
                before == sources_of(all, lens@, f as nat),
                first_missing(all, count as int, f as nat) is None,
                first_missing_in(ids@, count as int, k as nat) is None,
                offset == capped(ids_offset(ids@, lens@, k as nat)),
                0 <= ids_offset(ids@, lens@, k as nat),
                held@.len() == count,
                holds_sources(held@, sources_in_file(before, f as int, ids@, lens@, k as nat)),
                sources_in_range(
                    sources_in_file(before, f as int, ids@, lens@, k as nat),
                    f + 1,
                ),
            decreases ids@.len() - k,
        {
            let id = ids[k];
            if id as usize >= count {
                proof {
                    assert(first_missing_in(ids@, count as int, (k + 1) as nat) == Some(id));
                    lemma_first_missing_in_stays(ids@, count as int, (k + 1) as nat, ids@.len());
                    assert(first_missing(all, count as int, (f + 1) as nat) == Some(id));
                    lemma_first_missing_stays(all, count as int, (f + 1) as nat, files@.len());
                }
                return Err(DzipError::ChunkDefinitionMissing(id));
            }
            let len = lens[id as usize];
            let ghost held_before = held@;
            let ghost exact_before = sources_in_file(before, f as int, ids@, lens@, k as nat);
            held.set(id as usize, Some((f, offset, len)));
            proof {
                let exact_after = sources_in_file(before, f as int, ids@, lens@, (k + 1) as nat);
                assert(exact_after == exact_before.update(
                    id as int,
                    Some(
                        SourceRange {
                            file: f as int,
                            start: ids_offset(ids@, lens@, k as nat),
                            len: len as int,
                        },
                    ),
                ));
                assert forall|q: int|
                    0 <= q < exact_after.len() && (#[trigger] exact_after[q]) is Some implies 0
                    <= exact_after[q]->0.file < f + 1 && 0 <= exact_after[q]->0.start by {
                    if q != id {
                        assert(exact_after[q] == exact_before[q]);
                    }
                }
                assert forall|q: int| 0 <= q < held@.len() implies match (
                    #[trigger] held@[q],
                    exact_after[q],
                ) {
                    (None, None) => true,
                    (Some((file, start, len)), Some(src)) => file == src.file && len == src.len
                        && start == capped(src.start),
                    _ => false,
                } by {
                    if q != id {
                        assert(held@[q] == held_before[q]);
                    }
                }
            }
            offset = offset.saturating_add(len as u64);
            k += 1;
        }
        f += 1;
    }
    Ok(held)
}

/// The bytes that each chunk is made from: its part of its source file.
/// A chunk that no file lists has no data.
pub open spec fn chunk_data(contents: Seq<Seq<u8>>, source: Option<SourceRange>) -> Option<
    Seq<u8>,
> {
    match source {
        Some(src) => Some(clipped(contents[src.file], src.start, src.len)),
        None => None,
    }
}

/// The bytes of volume `v` behind its header once the first `n` chunks
/// have been written: the payloads of the chunks that lie in the volume,
/// in the order of their ids.
pub open spec fn volume_fill(vols: Seq<u16>, payloads: Seq<Seq<u8>>, v: int, n: nat) -> Seq<u8>
    decreases n,
{
    if n == 0 {
        Seq::empty()
    } else if vols[n - 1] == v {
        volume_fill(vols, payloads, v, (n - 1) as nat) + payloads[n - 1]
    } else {
        volume_fill(vols, payloads, v, (n - 1) as nat)
    }
}

/// Where the payload of chunk `p` starts in its volume: behind the header
/// in the main volume, and behind every chunk of the same volume that has
/// a smaller id.
pub open spec fn placed_offset(
    header_len: int,
    vols: Seq<u16>,
    payloads: Seq<Seq<u8>>,
    p: int,
) -> int {
    (if vols[p] == 0 {
        header_len
    } else {
        0
    }) + volume_fill(vols, payloads, vols[p] as int, p as nat).len()
}

/// The directory table never names a directory twice, and never the root.
pub proof fn lemma_dir_table_distinct(files: Seq<FileEntry>, n: nat)
    ensures
        dir_table(files, n).no_duplicates(),
        forall|k: int| 0 <= k < dir_table(files, n).len() ==> !is_root_key(dir_table(files, n)[k]),
    decreases n,
{
    if n > 0 {
        lemma_dir_table_distinct(files, (n - 1) as nat);
    }
}

/// The directory index of a file with stored directory `key`.
pub open spec fn dir_index_of(table: Seq<Seq<char>>, key: Seq<char>) -> int {
    if is_root_key(key) {
        0
    } else {
        1 + choose|k: int| 0 <= k < table.len() && table[k] == key
    }
}

/// There is only one directory index for a key.
pub proof fn lemma_dir_index_unique(files: Seq<FileEntry>, n: nat, key: Seq<char>, idx: int)
    requires
        is_dir_index(dir_table(files, n), key, idx),
    ensures
        idx == dir_index_of(dir_table(files, n), key),
{
    lemma_dir_table_distinct(files, n);
    let table = dir_table(files, n);
    if !is_root_key(key) {
        assert(table[idx - 1] == key);
        let w = choose|k: int| 0 <= k < table.len() && table[k] == key;
        assert(table[w] == key);
    }
}

/// The header region of the archive that packing makes of `config` with
/// chunk table `table`: version 0; the file names; the directories in the
/// order in which the files first name them; for each file its directory
/// index and chunk list; one volume more than there are split names; and
/// range settings, zero where the description has none, exactly where a
/// chunk is range-coded.
pub open spec fn packed_layout(config: Config, table: Seq<ChunkDiskEntry>) -> ArchiveLayout {
    let dirs = dir_table(config.files@, config.files@.len());
    ArchiveLayout {
        version: 0,
        file_names: config.files@.map_values(|f: FileEntry| text_bytes(f.filename@)),
        dir_names: dirs.map_values(|d: Seq<char>| text_bytes(d)),
        file_map: config.files@.map_values(
            |f: FileEntry| (dir_index_of(dirs, dir_key(f)) as u16, f.chunks@),
        ),
        num_arch_files: (config.archive_files@.len() + 1) as u16,
        chunks: table,
        split_names: names_bytes(config.archive_files@),
        range: if any_range_chunk(table) {
            Some(
                match config.range_settings {
                    Some(settings) => settings,
                    None => RangeSettingsDisk::spec_zeroed(),
                },
            )
        } else {
            None
        },
    }
}

/// The contents of byte vectors.
pub open spec fn contents_view(contents: Seq<Vec<u8>>) -> Seq<Seq<u8>> {
    contents.map_values(|c: Vec<u8>| c@)
}

/// How many bytes of its source each chunk takes, by id.
pub open spec fn read_lens(defs: Seq<ChunkDef>) -> Seq<u32> {
    ordered_defs(defs).map_values(|d: ChunkDef| def_read_len(d))
}

/// The volume of each chunk, by id.
pub open spec fn chunk_volumes(defs: Seq<ChunkDef>) -> Seq<u16> {
    ordered_defs(defs).map_values(|d: ChunkDef| d.archive_file_index)
}

/// The source of each chunk of a description, by id.
pub open spec fn chunk_sources(config: Config) -> Seq<Option<SourceRange>> {
    sources_of(file_ids(config.files@), read_lens(config.chunks@), config.files@.len())
}

/// What the codec makes of the data of chunk `p`.
pub open spec fn payload_result(config: Config, contents: Seq<Seq<u8>>, p: int) -> Result<
    Seq<u8>,
    CodecFault,
> {
    compressed(
        chunk_data(contents, chunk_sources(config)[p])->0,
        def_flags(def_at(config.chunks@, p)),
    )
}

/// The payload of every chunk, by id.
pub open spec fn payloads_of(config: Config, contents: Seq<Seq<u8>>) -> Seq<Seq<u8>> {
    Seq::new(config.chunks@.len(), |p: int| payload_result(config, contents, p)->Ok_0)
}

/// Why a description cannot be packed.
pub enum PackFault {
    /// The description contradicts itself or is too large for the format.
    Invalid,
    /// A file lists a chunk that has no definition.
    MissingChunk(u16),
    /// The codec of a chunk with the given flag word failed.
    Codec(u16, CodecFault),
}

/// Whether the description is well-formed as far as can be told without
/// looking at the files: no more than 65535 files and 65534 split volumes,
/// chunk ids that are the positions of a table, and every chunk in a
/// volume that exists.
pub open spec fn well_counted(config: Config) -> bool {
    &&& config.files@.len() <= u16::MAX
    &&& config.archive_files@.len() < u16::MAX
    &&& ids_are_positions(config.chunks@)
    &&& forall|p: int|
        0 <= p < config.chunks@.len() ==> (#[trigger] chunk_volumes(config.chunks@)[p])
            <= config.archive_files@.len()
}

/// Whether every chunk is listed by a file, there are no more than 65534
/// directories besides the root, and the header region is no longer than a
/// 32-bit offset can say.
pub open spec fn well_laid_out(config: Config) -> bool {
    &&& forall|p: int| 0 <= p < config.chunks@.len() ==> (#[trigger] chunk_sources(config)[p]) is Some
    &&& dir_table(config.files@, config.files@.len()).len() < u16::MAX
    &&& packed_header_size(config) <= u32::MAX
}

/// The first chunk among `0..n` whose codec fails, with its flag word
/// and the fault, or `None` where every codec succeeds.
pub open spec fn first_codec_fault(config: Config, contents: Seq<Seq<u8>>, n: nat) -> Option<
    PackFault,
>
    decreases n,
{
    if n == 0 {
        None
    } else if first_codec_fault(config, contents, (n - 1) as nat) is Some {
        first_codec_fault(config, contents, (n - 1) as nat)
    } else {
        match payload_result(config, contents, n - 1) {
            Err(fault) => Some(PackFault::Codec(def_flags(def_at(config.chunks@, n - 1)), fault)),
            Ok(_) => None,
        }
    }
}

/// Whether one of the chunks `0..n` would end behind what a 32-bit offset
/// can say when the payloads are laid out behind a header of `header_len`
/// bytes.
pub open spec fn passes_limit(
    header_len: int,
    vols: Seq<u16>,
    payloads: Seq<Seq<u8>>,
    n: int,
) -> bool {
    exists|p: int|
        0 <= p < n && #[trigger] placed_offset(header_len, vols, payloads, p) + payloads[p].len()
            > u32::MAX
}

/// Why `config` cannot be packed with files of the given contents, or
/// `None` where it can.
pub open spec fn pack_fault(config: Config, contents: Seq<Seq<u8>>) -> Option<PackFault> {
    if !well_counted(config) {
        Some(PackFault::Invalid)
    } else if first_missing(
        file_ids(config.files@),
        config.chunks@.len() as int,
        config.files@.len(),
    ) is Some {
        Some(
            PackFault::MissingChunk(
                first_missing(
                    file_ids(config.files@),
                    config.chunks@.len() as int,
                    config.files@.len(),
                )->0,
            ),
        )
    } else if !well_laid_out(config) {
        Some(PackFault::Invalid)
    } else if first_codec_fault(config, contents, config.chunks@.len()) is Some {
        first_codec_fault(config, contents, config.chunks@.len())
    } else if passes_limit(
        packed_header_size(config),
        chunk_volumes(config.chunks@),
        payloads_of(config, contents),
        config.chunks@.len() as int,
    ) {
        Some(PackFault::Invalid)
    } else {
        None
    }
}

/// How long the header region of the packed archive is. It does not
/// depend on what the chunk table will hold.
pub open spec fn packed_header_size(config: Config) -> int {
    header_size(packed_layout(config, static_table(config)))
}

/// The chunk table before the chunks are placed: every record with its
/// decompressed length, flag word and volume, and zero for what is not
/// known yet.
pub open spec fn static_table(config: Config) -> Seq<ChunkDiskEntry> {
    Seq::new(config.chunks@.len(), |p: int| table_entry(def_at(config.chunks@, p), 0, 0))
}

/// The chunk table of an archive whose chunks have the given payloads.
pub open spec fn table_for(config: Config, payloads: Seq<Seq<u8>>) -> Seq<ChunkDiskEntry> {
    Seq::new(
        config.chunks@.len(),
        |p: int|
            table_entry(
                def_at(config.chunks@, p),
                placed_offset(
                    packed_header_size(config),
                    chunk_volumes(config.chunks@),
                    payloads,
                    p,
                ) as u32,
                payloads[p].len() as u32,
            ),
    )
}

/// The chunk table of the packed archive.
pub open spec fn packed_table(config: Config, contents: Seq<Seq<u8>>) -> Seq<ChunkDiskEntry> {
    table_for(config, payloads_of(config, contents))
}

/// The bytes of volume `v` of the packed archive: in the main volume the
/// header region, and in every volume the payloads of its chunks in the
/// order of their ids.
pub open spec fn packed_volume(config: Config, contents: Seq<Seq<u8>>, v: int) -> Seq<u8> {
    let fill = volume_fill(
        chunk_volumes(config.chunks@),
        payloads_of(config, contents),
        v,
        config.chunks@.len(),
    );
    if v == 0 {
        layout_bytes(packed_layout(config, packed_table(config, contents))) + fill
    } else {
        fill
    }
}

/// An archive as packing leaves it.
pub struct PackedArchive {
    /// The bytes of each volume; index 0 is the main volume.
    pub volumes: Vec<Vec<u8>>,
    /// The chunk table as it was written into the header.
    pub chunks: Vec<ChunkDiskEntry>,
    /// Where the payload of the main volume starts.
    pub header_size: u32,
}

impl PackedArchive {
    /// Whether this is the archive that packing makes of `config` with
    /// files of the given contents.
    pub open spec fn is_packed(&self, config: Config, contents: Seq<Seq<u8>>) -> bool {
        &&& self.volumes@.len() == config.archive_files@.len() + 1
        &&& forall|v: int|
            0 <= v < self.volumes@.len() ==> (#[trigger] self.volumes@[v])@ == packed_volume(
                config,
                contents,
                v,
            )
        &&& self.chunks@ == packed_table(config, contents)
        &&& self.header_size == packed_header_size(config)
        &&& self.header_size == layout_bytes(
            packed_layout(config, packed_table(config, contents)),
        ).len()
    }
}

/// Whether error `e` reports fault `f`.
pub open spec fn reports_pack_fault(e: DzipError, f: PackFault) -> bool {
    match f {
        PackFault::Invalid => e is Config,
        PackFault::MissingChunk(id) => e == DzipError::ChunkDefinitionMissing(id),
        PackFault::Codec(flags, CodecFault::Unsupported) => e == DzipError::UnsupportedCompression(
            flags,
        ),
        PackFault::Codec(flags, CodecFault::Failed) => e is Compression,
    }
}

/// What packing needs to know of every chunk, by id.
pub struct ChunkFacts {
    /// How many bytes of its source the chunk takes.
    pub lens: Vec<u32>,
    /// The flag word of the chunk.
    pub flags: Vec<u16>,
    /// The volume of the chunk.
    pub volumes: Vec<u16>,
    /// The decompressed length that the description claims.
    pub d_lens: Vec<u32>,
    /// Whether a chunk is range-coded.
    pub has_range: bool,
}

impl ChunkFacts {
    /// Whether these are the facts of the chunk definitions `defs`.
    pub open spec fn describes(&self, defs: Seq<ChunkDef>) -> bool {
        &&& self.lens@ == read_lens(defs)
        &&& self.volumes@ == chunk_volumes(defs)
        &&& self.flags@.len() == defs.len()
        &&& self.d_lens@.len() == defs.len()
        &&& forall|p: int|
            0 <= p < defs.len() ==> (#[trigger] self.flags@[p]) == def_flags(def_at(defs, p))
        &&& forall|p: int|
            0 <= p < defs.len() ==> (#[trigger] self.d_lens@[p]) == def_at(defs, p).size_decompressed
        &&& self.has_range == exists|p: int|
            0 <= p < defs.len() && has_flag(#[trigger] def_flags(def_at(defs, p)), CHUNK_DZ)
    }
}

/// Collects what packing needs to know of every chunk.
pub fn chunk_facts(defs: &Vec<ChunkDef>, by_id: &Vec<usize>) -> (facts: ChunkFacts)
    requires
        indexes(by_id@, defs@),
    ensures
        facts.describes(defs@),
{
    let n = by_id.len();
    let mut lens: Vec<u32> = Vec::new();
    let mut flags: Vec<u16> = Vec::new();
    let mut volumes: Vec<u16> = Vec::new();
    let mut d_lens: Vec<u32> = Vec::new();
    let mut has_range = false;
    let mut p: usize = 0;
    while p < n
        invariant
            p <= n == by_id@.len(),
            indexes(by_id@, defs@),
            lens@.len() == p,
            flags@.len() == p,
            volumes@.len() == p,
            d_lens@.len() == p,
            forall|q: int| 0 <= q < p ==> (#[trigger] lens@[q]) == def_read_len(def_at(defs@, q)),
            forall|q: int| 0 <= q < p ==> (#[trigger] flags@[q]) == def_flags(def_at(defs@, q)),
            forall|q: int|
                0 <= q < p ==> (#[trigger] volumes@[q]) == def_at(defs@, q).archive_file_index,
            forall|q: int|
                0 <= q < p ==> (#[trigger] d_lens@[q]) == def_at(defs@, q).size_decompressed,
            has_range == exists|q: int|
                0 <= q < p && has_flag(#[trigger] def_flags(def_at(defs@, q)), CHUNK_DZ),
        decreases n - p,
    {
        let def = &defs[by_id[p]];
        let word = flags_of(def);
        lens.push(read_len_of(def));
        flags.push(word);
        volumes.push(def.archive_file_index);
        d_lens.push(def.size_decompressed);
        if crate::format::flag_set(word, CHUNK_DZ) {
            has_range = true;
        }
        p += 1;
    }
    proof {
        assert(lens@ =~= read_lens(defs@));
        assert(volumes@ =~= chunk_volumes(defs@));
    }
    ChunkFacts { lens, flags, volumes, d_lens, has_range }
}

/// `x` as a 64-bit number, or `None` where it does not fit.
pub open spec fn fits(x: int) -> Option<u64> {
    if 0 <= x <= u64::MAX {
        Some(x as u64)
    } else {
        None
    }
}

/// The size of a string table: the lengths of the strings and one byte for
/// each terminator, or `None` where that does not fit 64 bits.
pub fn strings_total(list: &Vec<String>) -> (r: Option<u64>)
    ensures
        r == fits(strings_size(names_bytes(list@))),
{
    let ghost names = names_bytes(list@);
    let mut total: u64 = 0;
    let mut i: usize = 0;
    proof {
        assert(names.take(0) =~= Seq::empty());
    }
    while i < list.len()
        invariant
            i <= list@.len(),
            names == names_bytes(list@),
            total == strings_size(names.take(i as int)),
        decreases list@.len() - i,
    {
        let len = list[i].as_str().as_bytes().len();
        proof {
            assert(names.take(i + 1).drop_last() =~= names.take(i as int));
            assert(names.take(i + 1).last() == names[i as int]);
            assert(names[i as int] == text_bytes(list@[i as int]@));
            lemma_strings_size_grows(names, (i + 1) as int, list@.len() as int);
            assert(names.take(list@.len() as int) =~= names);
            assert(strings_size(names.take(i + 1)) == total + len + 1);
        }
        total = match total.checked_add(len as u64) {
            None => {
                return None;
            },
            Some(t) => match t.checked_add(1) {
                None => {
                    return None;
                },
                Some(t) => t,
            },
        };
        i += 1;
    }
    proof {
        assert(names.take(list@.len() as int) =~= names);
    }
    Some(total)
}

/// A string table is at least as large as any part of it from its start.
pub proof fn lemma_strings_size_grows(names: Seq<Seq<u8>>, n: int, m: int)
    requires
        0 <= n <= m <= names.len(),
    ensures
        0 <= strings_size(names.take(n)) <= strings_size(names.take(m)),
    decreases m - n,
{
    if n < m {
        assert(names.take(m).drop_last() =~= names.take(m - 1));
        lemma_strings_size_grows(names, n, m - 1);
    } else {
        lemma_strings_size_nonnegative(names.take(n));
    }
}

/// The size of a string table is not negative.
pub proof fn lemma_strings_size_nonnegative(names: Seq<Seq<u8>>)
    ensures
        0 <= strings_size(names),
    decreases names.len(),
{
    if names.len() > 0 {
        lemma_strings_size_nonnegative(names.drop_last());
    }
}

/// The file-to-chunk map of a description without directory indices.
pub open spec fn ids_map(files: Seq<FileEntry>) -> Seq<(u16, Seq<u16>)> {
    files.map_values(|f: FileEntry| (0u16, f.chunks@))
}

/// The size of a file-to-chunk map depends only on the chunk lists.
pub proof fn lemma_file_map_size_of_lists(a: Seq<(u16, Seq<u16>)>, b: Seq<(u16, Seq<u16>)>)
    requires
        a.len() == b.len(),
        forall|i: int| 0 <= i < a.len() ==> a[i].1 == b[i].1,
    ensures
        file_map_size(a) == file_map_size(b),
        0 <= file_map_size(a),
    decreases a.len(),
{
    if a.len() > 0 {
        lemma_file_map_size_of_lists(a.drop_last(), b.drop_last());
    }
}

/// A file-to-chunk map is at least as large as any part of it from its start.
pub proof fn lemma_file_map_size_grows(entries: Seq<(u16, Seq<u16>)>, n: int, m: int)
    requires
        0 <= n <= m <= entries.len(),
    ensures
        0 <= file_map_size(entries.take(n)) <= file_map_size(entries.take(m)),
    decreases m - n,
{
    if n < m {
        assert(entries.take(m).drop_last() =~= entries.take(m - 1));
        lemma_file_map_size_grows(entries, n, m - 1);
    } else {
        lemma_file_map_size_of_lists(entries.take(n), entries.take(n));
    }
}

/// The size of the file-to-chunk map of the files: six bytes for each
/// file and two for each chunk it lists, or `None` where that does not fit
/// 64 bits.
pub fn file_map_total(files: &Vec<FileEntry>) -> (r: Option<u64>)
    ensures
        r == fits(file_map_size(ids_map(files@))),
{
    let ghost entries = ids_map(files@);
    let mut total: u64 = 0;
    let mut i: usize = 0;
    proof {
        assert(entries.take(0) =~= Seq::empty());
    }
    while i < files.len()
        invariant
            i <= files@.len(),
            entries == ids_map(files@),
            total == file_map_size(entries.take(i as int)),
        decreases files@.len() - i,
    {
        let count = files[i].chunks.len();
        proof {
            assert(entries.take(i + 1).drop_last() =~= entries.take(i as int));
            assert(entries.take(i + 1).last() == entries[i as int]);
            lemma_file_map_size_grows(entries, (i + 1) as int, files@.len() as int);
            assert(entries.take(files@.len() as int) =~= entries);
            assert(file_map_size(entries.take(i + 1)) == total + 4 + 2 * count);
        }
        if count as u64 > (u64::MAX - 4) / 2 {
            return None;
        }
        total = match total.checked_add(4 + 2 * (count as u64)) {
            None => {
                return None;
            },
            Some(t) => t,
        };
        i += 1;
    }
    proof {
        assert(entries.take(files@.len() as int) =~= entries);
    }
    Some(total)
}

/// `x` as a 32-bit number, or `None` where it does not fit.
pub open spec fn fits32(x: int) -> Option<u32> {
    if 0 <= x <= u32::MAX {
        Some(x as u32)
    } else {
        None
    }
}

/// Works out how long the header region of an archive will be, before any
/// of it is written: nine bytes of file header, the file names, the stored
/// directories, the file-to-chunk map, four bytes of chunk table header,
/// sixteen bytes for each chunk, the split names, and ten bytes of range
/// settings where a chunk is range-coded.
///
/// Gives `None` where the region would be longer than a 32-bit offset can say.
pub fn predict_header_size(
    file_names: &Vec<String>,
    dirs: &Vec<String>,
    files: &Vec<FileEntry>,
    chunks: usize,
    splits: &Vec<String>,
    has_range: bool,
) -> (r: Option<u32>)
    ensures
        r == fits32(
            9 + strings_size(names_bytes(file_names@)) + strings_size(names_bytes(dirs@))
                + file_map_size(ids_map(files@)) + 4 + 16 * chunks + strings_size(
                names_bytes(splits@),
            ) + if has_range {
                10int
            } else {
                0int
            },
        ),
{
    proof {
        lemma_strings_size_nonnegative(names_bytes(file_names@));
        lemma_strings_size_nonnegative(names_bytes(dirs@));
        lemma_strings_size_nonnegative(names_bytes(splits@));
        lemma_file_map_size_of_lists(ids_map(files@), ids_map(files@));
    }
    let limit: u64 = 0xFFFF_FFFF;
    let a = match strings_total(file_names) {
        Some(v) if v <= limit => v,
        _ => {
            return None;
        },
    };
    let b = match strings_total(dirs) {
        Some(v) if v <= limit => v,
        _ => {
            return None;
        },
    };
    let c = match file_map_total(files) {
        Some(v) if v <= limit => v,
        _ => {
            return None;
        },
    };
    let d = match strings_total(splits) {
        Some(v) if v <= limit => v,
        _ => {
            return None;
        },
    };
    if chunks as u64 > limit {
        return None;
    }
    let e: u64 = if has_range {
        10
    } else {
        0
    };
    let total: u64 = 9 + a + b + c + 4 + 16 * (chunks as u64) + d + e;
    if total <= limit {
        Some(total as u32)
    } else {
        None
    }
}

/// What packing works out of a description before it reads a file.
pub struct PackPlan {
    /// What is known of each chunk, by id.
    pub facts: ChunkFacts,
    /// The part of a source file that each chunk is made from, by id.
    pub sources: Vec<Option<(usize, u64, u32)>>,
    /// The base names of the files.
    pub file_names: Vec<String>,
    /// The stored directories.
    pub dirs: Vec<String>,
    /// The file-to-chunk map.
    pub map: Vec<(u16, Vec<u16>)>,
    /// How long the header region will be.
    pub header_size: u32,
}

/// The file-to-chunk map of the packed archive.
pub open spec fn packed_map(config: Config) -> Seq<(u16, Seq<u16>)> {
    let dirs = dir_table(config.files@, config.files@.len());
    config.files@.map_values(|f: FileEntry| (dir_index_of(dirs, dir_key(f)) as u16, f.chunks@))
}

impl PackPlan {
    /// Whether this is the plan for packing `config`.
    pub open spec fn plans(&self, config: Config) -> bool {
        &&& self.facts.describes(config.chunks@)
        &&& holds_sources(self.sources@, chunk_sources(config))
        &&& self.sources@.len() == config.chunks@.len()
        &&& sources_in_range(chunk_sources(config), config.files@.len() as int)
        &&& forall|p: int| 0 <= p < self.sources@.len() ==> (#[trigger] self.sources@[p]) is Some
        &&& names_bytes(self.file_names@) == config.files@.map_values(
            |f: FileEntry| text_bytes(f.filename@),
        )
        &&& string_texts(self.dirs@) == dir_table(config.files@, config.files@.len())
        &&& map_view(self.map@) == packed_map(config)
        &&& self.header_size == packed_header_size(config)
        &&& plan_fault(config) is None
    }
}

/// Why the header pre-pass refuses a description, or `None` where it does not.
pub open spec fn plan_fault(config: Config) -> Option<PackFault> {
    if !well_counted(config) {
        Some(PackFault::Invalid)
    } else if first_missing(
        file_ids(config.files@),
        config.chunks@.len() as int,
        config.files@.len(),
    ) is Some {
        Some(
            PackFault::MissingChunk(
                first_missing(
                    file_ids(config.files@),
                    config.chunks@.len() as int,
                    config.files@.len(),
                )->0,
            ),
        )
    } else if !well_laid_out(config) {
        Some(PackFault::Invalid)
    } else {
        None
    }
}

/// An error for a description that contradicts itself.
pub fn invalid(message: &str) -> (e: DzipError)
    ensures
        e is Config,
{
    DzipError::Config(String::from_str(message))
}

/// The base names of the files.
pub fn file_names_of(files: &Vec<FileEntry>) -> (names: Vec<String>)
    ensures
        names_bytes(names@) == files@.map_values(|f: FileEntry| text_bytes(f.filename@)),
{
    let mut names: Vec<String> = Vec::new();
    let mut i: usize = 0;
    while i < files.len()
        invariant
            i <= files@.len(),
            names@.len() == i,
            forall|j: int| 0 <= j < i ==> (#[trigger] names@[j])@ == files@[j].filename@,
        decreases files@.len() - i,
    {
        names.push(files[i].filename.clone());
        i += 1;
    }
    proof {
        assert(names_bytes(names@) =~= files@.map_values(|f: FileEntry| text_bytes(f.filename@)));
    }
    names
}

/// The file-to-chunk map of files with the given directory indices.
pub fn chunk_map_of(files: &Vec<FileEntry>, indices: &Vec<u16>) -> (map: Vec<(u16, Vec<u16>)>)
    requires
        indices@.len() == files@.len(),
    ensures
        map@.len() == files@.len(),
        forall|i: int|
            0 <= i < files@.len() ==> (#[trigger] map_view(map@)[i]) == (
                indices@[i],
                files@[i].chunks@,
            ),
{
    let mut map: Vec<(u16, Vec<u16>)> = Vec::new();
    let mut i: usize = 0;
    while i < files.len()
        invariant
            i <= files@.len() == indices@.len(),
            map@.len() == i,
            forall|j: int|
                0 <= j < i ==> (#[trigger] map@[j]).0 == indices@[j] && map@[j].1@
                    == files@[j].chunks@,
        decreases files@.len() - i,
    {
        let ids = files[i].chunks.clone();
        assert(ids@ =~= files@[i as int].chunks@);
        map.push((indices[i], ids));
        i += 1;
    }
    map
}

/// A chunk of the table is range-coded exactly where a definition is.
pub proof fn lemma_range_chunks(config: Config, table: Seq<ChunkDiskEntry>)
    requires
        table.len() == config.chunks@.len(),
        forall|p: int|
            0 <= p < table.len() ==> (#[trigger] table[p]).flags == def_flags(
                def_at(config.chunks@, p),
            ),
    ensures
        any_range_chunk(table) == exists|p: int|
            0 <= p < config.chunks@.len() && has_flag(
                #[trigger] def_flags(def_at(config.chunks@, p)),
                CHUNK_DZ,
            ),
{
    if any_range_chunk(table) {
        let w = choose|i: int| 0 <= i < table.len() && has_flag(#[trigger] table[i].flags, CHUNK_DZ);
        assert(has_flag(def_flags(def_at(config.chunks@, w)), CHUNK_DZ));
    }
    if exists|p: int|
        0 <= p < config.chunks@.len() && has_flag(
            #[trigger] def_flags(def_at(config.chunks@, p)),
            CHUNK_DZ,
        ) {
        let w = choose|p: int|
            0 <= p < config.chunks@.len() && has_flag(
                #[trigger] def_flags(def_at(config.chunks@, p)),
                CHUNK_DZ,
            );
        assert(has_flag(table[w].flags, CHUNK_DZ));
    }
}

/// The length of the header region does not depend on where the chunks
/// lie, only on their number and on whether one of them is range-coded.
pub proof fn lemma_header_size_of_table(config: Config, table: Seq<ChunkDiskEntry>)
    requires
        table.len() == config.chunks@.len(),
        forall|p: int|
            0 <= p < table.len() ==> (#[trigger] table[p]).flags == def_flags(
                def_at(config.chunks@, p),
            ),
    ensures
        header_size(packed_layout(config, table)) == packed_header_size(config),
{
    lemma_range_chunks(config, table);
    lemma_range_chunks(config, static_table(config));
}

/// The header pre-pass: checks a description and works out everything
/// that packing needs before it reads a file, above all how long the
/// header region will be.
///
/// Fails with `Config` where the description has more than 65535 files or
/// 65534 split volumes, where the ids of its chunks are not exactly the
/// positions `0..n`, where a chunk lies in a volume that is not in the
/// split list, where no file lists a chunk, where there are more than
/// 65534 directories, or where the header region would pass 4 GiB; and
/// with `ChunkDefinitionMissing` for the first chunk that a file lists and
/// no definition has.
pub fn plan_pack(config: &Config) -> (r: Result<PackPlan, DzipError>)
    ensures
        match plan_fault(*config) {
            Some(fault) => r is Err && reports_pack_fault(r->Err_0, fault),
            None => r is Ok && r->Ok_0.plans(*config),
        },
{
    if config.files.len() > 65535 {
        return Err(invalid("too many files"));
    }
    if config.archive_files.len() >= 65535 {
        return Err(invalid("too many split volumes"));
    }
    let by_id = match index_chunks(&config.chunks) {
        None => {
            return Err(invalid("chunk ids are not the positions of a chunk table"));
        },
        Some(by_id) => by_id,
    };
    let facts = chunk_facts(&config.chunks, &by_id);
    let n = config.chunks.len();
    let mut p: usize = 0;
    while p < n
        invariant
            p <= n == config.chunks@.len(),
            facts.describes(config.chunks@),
            forall|q: int|
                0 <= q < p ==> (#[trigger] chunk_volumes(config.chunks@)[q])
                    <= config.archive_files@.len(),
        decreases n - p,
    {
        if facts.volumes[p] as usize > config.archive_files.len() {
            return Err(invalid("chunk lies in a volume that is not in the split list"));
        }
        p += 1;
    }
    assert(well_counted(*config));
    let sources = match source_ranges(&config.files, &facts.lens) {
        Err(e) => {
            return Err(e);
        },
        Ok(sources) => sources,
    };
    let mut p: usize = 0;
    while p < n
        invariant
            p <= n == config.chunks@.len(),
            sources@.len() == n,
            well_counted(*config),
            first_missing(
                file_ids(config.files@),
                config.chunks@.len() as int,
                config.files@.len(),
            ) is None,
            holds_sources(sources@, chunk_sources(*config)),
            forall|q: int| 0 <= q < p ==> (#[trigger] sources@[q]) is Some,
        decreases n - p,
    {
        if sources[p].is_none() {
            assert(chunk_sources(*config)[p as int] is None);
            return Err(invalid("chunk is not part of any file"));
        }
        p += 1;
    }
    assert forall|q: int| 0 <= q < config.chunks@.len() implies (#[trigger] chunk_sources(
        *config,
    )[q]) is Some by {
        assert(sources@[q] is Some);
    }
    let (dirs, indices) = match directory_table(&config.files) {
        None => {
            return Err(invalid("too many directories"));
        },
        Some(found) => found,
    };
    let file_names = file_names_of(&config.files);
    let map = chunk_map_of(&config.files, &indices);
    let ghost table = static_table(*config);
    let ghost layout = packed_layout(*config, table);
    proof {
        lemma_range_chunks(*config, table);
        assert(layout.dir_names =~= names_bytes(dirs@)) by {
            assert forall|k: int| 0 <= k < dirs@.len() implies layout.dir_names[k] == names_bytes(
                dirs@,
            )[k] by {
                assert(string_texts(dirs@)[k] == dirs@[k]@);
            }
        }
        lemma_file_map_size_of_lists(layout.file_map, ids_map(config.files@));
        lemma_strings_size_nonnegative(names_bytes(file_names@));
        lemma_strings_size_nonnegative(names_bytes(dirs@));
        lemma_strings_size_nonnegative(names_bytes(config.archive_files@));
        assert(layout.file_names == names_bytes(file_names@));
        assert(layout.split_names == names_bytes(config.archive_files@));
        assert(layout.chunks.len() == n);
        assert((layout.range is Some) == facts.has_range);
        assert(packed_header_size(*config) == 9 + strings_size(names_bytes(file_names@))
            + strings_size(names_bytes(dirs@)) + file_map_size(ids_map(config.files@)) + 4 + 16
            * n + strings_size(names_bytes(config.archive_files@)) + if facts.has_range {
            10int
        } else {
            0int
        });
    }
    let header_size = match predict_header_size(
        &file_names,
        &dirs,
        &config.files,
        n,
        &config.archive_files,
        facts.has_range,
    ) {
        None => {
            return Err(invalid("header is too large"));
        },
        Some(size) => size,
    };
    proof {
        let dir_names = dir_table(config.files@, config.files@.len());
        assert forall|i: int| 0 <= i < config.files@.len() implies map_view(map@)[i] == packed_map(
            *config,
        )[i] by {
            lemma_dir_index_unique(
                config.files@,
                config.files@.len(),
                dir_key(config.files@[i]),
                indices@[i] as int,
            );
        }
        assert(map_view(map@) =~= packed_map(*config));
    }
    Ok(PackPlan { facts, sources, file_names, dirs, map, header_size })
}

/// Once a codec has failed, the chunks behind it change nothing.
pub proof fn lemma_first_codec_fault_stays(config: Config, contents: Seq<Seq<u8>>, n: nat, m: nat)
    requires
        n <= m,
        first_codec_fault(config, contents, n) is Some,
    ensures
        first_codec_fault(config, contents, m) == first_codec_fault(config, contents, n),
    decreases m,
{
    if n < m {
        lemma_first_codec_fault_stays(config, contents, n, (m - 1) as nat);
    }
}

/// Compresses the chunk with id `p`: takes its part of its source file
/// and runs the codec of its flag word on it.
pub fn compress_chunk(config: &Config, plan: &PackPlan, contents: &Vec<Vec<u8>>, p: usize) -> (r:
    Result<Vec<u8>, DzipError>)
    requires
        plan.plans(*config),
        contents@.len() == config.files@.len(),
        p < config.chunks@.len(),
    ensures
        crate::codec::is_outcome(
            r,
            payload_result(*config, contents_view(contents@), p as int),
            def_flags(def_at(config.chunks@, p as int)),
            false,
        ),
{
    let ghost cv = contents_view(contents@);
    let (file, start, len) = match plan.sources[p] {
        Some(source) => source,
        None => (0, 0, 0),
    };
    proof {
        assert(plan.sources@[p as int] is Some);
        assert(chunk_sources(*config)[p as int] is Some);
        let src = chunk_sources(*config)[p as int]->0;
        assert(0 <= src.file < config.files@.len());
    }
    let source = contents[file].as_slice();
    proof {
        let src = chunk_sources(*config)[p as int]->0;
        assert(cv[src.file] == source@);
        vstd::slice::axiom_spec_len(source);
        lemma_capped_clips_same(cv[src.file], src.start, src.len);
    }
    let data = clip(source, start, len);
    let flags = plan.facts.flags[p];
    assert(data@ == chunk_data(cv, chunk_sources(*config)[p as int])->0);
    assert(flags == def_flags(def_at(config.chunks@, p as int)));
    compress(data, flags)
}

/// Compresses every chunk, in the order of the chunk ids.
///
/// Each chunk is made from its part of its source file and compressed
/// with the codec of its flag word. Fails with the error of the first
/// codec that fails.
pub fn compress_chunks(config: &Config, plan: &PackPlan, contents: &Vec<Vec<u8>>) -> (r: Result<
    Vec<Vec<u8>>,
    DzipError,
>)
    requires
        plan.plans(*config),
        contents@.len() == config.files@.len(),
    ensures
        match first_codec_fault(*config, contents_view(contents@), config.chunks@.len()) {
            Some(fault) => r is Err && reports_pack_fault(r->Err_0, fault),
            None => r is Ok && r->Ok_0@.len() == config.chunks@.len() && contents_view(r->Ok_0@)
                == payloads_of(*config, contents_view(contents@)),
        },
{
    let n = config.chunks.len();
    let ghost cv = contents_view(contents@);
    let mut payloads: Vec<Vec<u8>> = Vec::new();
    let mut p: usize = 0;
    while p < n
        invariant
            p <= n == config.chunks@.len(),
            plan.plans(*config),
            contents@.len() == config.files@.len(),
            cv == contents_view(contents@),
            payloads@.len() == p,
            first_codec_fault(*config, cv, p as nat) is None,
            forall|q: int|
                0 <= q < p ==> (#[trigger] payloads@[q])@ == payloads_of(*config, cv)[q],
        decreases n - p,
    {
        match compress_chunk(config, plan, contents, p) {
            Err(e) => {
                proof {
                    lemma_first_codec_fault_stays(*config, cv, (p + 1) as nat, n as nat);
                }
                return Err(e);
            },
            Ok(bytes) => {
                payloads.push(bytes);
            },
        }
        p += 1;
    }
    proof {
        assert(contents_view(payloads@) =~= payloads_of(*config, cv));
    }
    Ok(payloads)
}

/// The payloads of the chunks of each volume, and the chunk table.
pub struct PlacedChunks {
    /// For each volume the payloads of its chunks, one behind the other.
    pub bodies: Vec<Vec<u8>>,
    /// The chunk table with the offset and stored length of every chunk.
    pub table: Vec<ChunkDiskEntry>,
}

impl PlacedChunks {
    /// Whether these are the chunks of `config` with the given payloads as
    /// packing places them.
    pub open spec fn places(&self, config: Config, payloads: Seq<Seq<u8>>) -> bool {
        &&& self.bodies@.len() == config.archive_files@.len() + 1
        &&& forall|v: int|
            0 <= v < self.bodies@.len() ==> (#[trigger] self.bodies@[v])@ == volume_fill(
                chunk_volumes(config.chunks@),
                payloads,
                v,
                config.chunks@.len(),
            )
        &&& self.table@ == table_for(config, payloads)
    }
}

/// Lays the payloads of the chunks out in their volumes.
///
/// `payloads[p]` is the payload of the chunk with id `p`. The chunks are
/// taken in the order of their ids, whatever the order in which they were
/// compressed. A payload goes behind what its volume holds already; in
/// the main volume the first payload goes behind the header region. Where
/// the payload starts and how long it is becomes the record of the chunk.
///
/// Fails with `Config` where a payload would end behind 4 GiB.
pub fn place_payloads(config: &Config, plan: &PackPlan, payloads: &Vec<Vec<u8>>) -> (r: Result<
    PlacedChunks,
    DzipError,
>)
    requires
        plan.plans(*config),
        payloads@.len() == config.chunks@.len(),
    ensures
        if passes_limit(
            packed_header_size(*config),
            chunk_volumes(config.chunks@),
            contents_view(payloads@),
            config.chunks@.len() as int,
        ) {
            r is Err && r->Err_0 is Config
        } else {
            r is Ok && r->Ok_0.places(*config, contents_view(payloads@))
        },
{
    let n = config.chunks.len();
    let volumes = config.archive_files.len() + 1;
    let ghost vols = chunk_volumes(config.chunks@);
    let ghost pv = contents_view(payloads@);
    let ghost h = packed_header_size(*config);
    let mut bodies: Vec<Vec<u8>> = Vec::new();
    let mut cursors: Vec<u64> = Vec::new();
    let mut v: usize = 0;
    while v < volumes
        invariant
            v <= volumes,
            bodies@.len() == v,
            cursors@.len() == v,
            plan.header_size == h,
            forall|w: int| 0 <= w < v ==> (#[trigger] bodies@[w])@ == Seq::<u8>::empty(),
            forall|w: int|
                0 <= w < v ==> (#[trigger] cursors@[w]) == if w == 0 {
                    h
                } else {
                    0
                },
        decreases volumes - v,
    {
        bodies.push(Vec::new());
        cursors.push(
            if v == 0 {
                plan.header_size as u64
            } else {
                0
            },
        );
        v += 1;
    }
    let mut table: Vec<ChunkDiskEntry> = Vec::new();
    let mut p: usize = 0;
    while p < n
        invariant
            p <= n == config.chunks@.len(),
            payloads@.len() == n,
            volumes == config.archive_files@.len() + 1,
            plan.plans(*config),
            vols == chunk_volumes(config.chunks@),
            pv == contents_view(payloads@),
            h == packed_header_size(*config),
            bodies@.len() == volumes,
            cursors@.len() == volumes,
            table@.len() == p,
            !passes_limit(h, vols, pv, p as int),
            forall|w: int|
                0 <= w < volumes ==> (#[trigger] bodies@[w])@ == volume_fill(vols, pv, w, p as nat),
            forall|w: int|
                0 <= w < volumes ==> (#[trigger] cursors@[w]) == (if w == 0 {
                    h
                } else {
                    0
                }) + volume_fill(vols, pv, w, p as nat).len(),
            forall|q: int| 0 <= q < p ==> (#[trigger] table@[q]) == table_for(*config, pv)[q],
        decreases n - p,
    {
        let payload = &payloads[p];
        assert(payload@ == pv[p as int]);
        let volume = plan.facts.volumes[p] as usize;
        assert(volume == vols[p as int]);
        assert(vols[p as int] <= config.archive_files@.len());
        let offset = cursors[volume];
        assert(offset == placed_offset(h, vols, pv, p as int));
        if payload.len() as u64 > 0xFFFF_FFFF || offset > 0xFFFF_FFFF - payload.len() as u64 {
            assert(passes_limit(h, vols, pv, n as int));
            return Err(invalid("volume is too large"));
        }
        table.push(
            ChunkDiskEntry {
                offset: offset as u32,
                c_len: payload.len() as u32,
                d_len: plan.facts.d_lens[p],
                flags: plan.facts.flags[p],
                file_idx: plan.facts.volumes[p],
            },
        );
        cursors.set(volume, offset + payload.len() as u64);
        let ghost bodies_before = bodies@;
        crate::bytes::append_bytes(&mut bodies[volume], payload.as_slice());
        proof {
            assert forall|w: int| 0 <= w < volumes implies (#[trigger] bodies@[w])@ == volume_fill(
                vols,
                pv,
                w,
                (p + 1) as nat,
            ) by {
                if w != volume {
                    assert(bodies@[w] == bodies_before[w]);
                }
            }
            if passes_limit(h, vols, pv, p + 1) {
                let w = choose|w: int|
                    0 <= w < p + 1 && #[trigger] placed_offset(h, vols, pv, w) + pv[w].len()
                        > u32::MAX;
                if w < p {
                    assert(passes_limit(h, vols, pv, p as int));
                }
            }
        }
        p += 1;
    }
    proof {
        assert(table@ =~= table_for(*config, pv));
    }
    Ok(PlacedChunks { bodies, table })
}

/// Compresses every chunk and lays the payloads out in their volumes.
///
/// Fails as [`compress_chunks`] and [`place_payloads`] do, in that order.
pub fn place_chunks(config: &Config, plan: &PackPlan, contents: &Vec<Vec<u8>>) -> (r: Result<
    PlacedChunks,
    DzipError,
>)
    requires
        plan.plans(*config),
        contents@.len() == config.files@.len(),
    ensures
        match pack_fault(*config, contents_view(contents@)) {
            Some(fault) => r is Err && reports_pack_fault(r->Err_0, fault),
            None => r is Ok && r->Ok_0.places(
                *config,
                payloads_of(*config, contents_view(contents@)),
            ),
        },
{
    let payloads = match compress_chunks(config, plan, contents) {
        Err(e) => {
            return Err(e);
        },
        Ok(payloads) => payloads,
    };
    place_payloads(config, plan, &payloads)
}

/// Writes the header region of the archive with room for the chunk
/// table, which is not known before the chunks are placed. Gives the
/// bytes and the index at which the chunk table goes.
///
/// The region comes out exactly as long as the pre-pass said it would.
pub fn reserve_header(config: &Config, plan: &PackPlan) -> (r: (Vec<u8>, usize))
    requires
        plan.plans(*config),
    ensures
        r.0@ == header_with_slot(packed_layout(*config, static_table(*config))),
        r.1 == table_prefix_bytes(packed_layout(*config, static_table(*config))).len(),
        r.0@.len() == plan.header_size,
{
    let ghost layout = packed_layout(*config, static_table(*config));
    let n = config.chunks.len();
    proof {
        lemma_range_chunks(*config, static_table(*config));
        crate::metadata::lemma_header_size(layout);
        assert(layout.dir_names =~= names_bytes(plan.dirs@)) by {
            assert forall|k: int| 0 <= k < plan.dirs@.len() implies layout.dir_names[k]
                == names_bytes(plan.dirs@)[k] by {
                assert(string_texts(plan.dirs@)[k] == plan.dirs@[k]@);
            }
        }
        assert(string_texts(plan.dirs@).len() == plan.dirs@.len());
    }
    let mut writer = DzipWriter::new(Vec::new());
    let _ = writer.write_archive_settings(
        &ArchiveHeader {
            magic: MAGIC,
            num_files: config.files.len() as u16,
            num_dirs: (plan.dirs.len() + 1) as u16,
            version: 0,
        },
    );
    let _ = writer.write_strings(plan.file_names.as_slice());
    let _ = writer.write_strings(plan.dirs.as_slice());
    let _ = writer.write_file_chunk_map(plan.map.as_slice());
    let _ = writer.write_chunk_settings(
        &ChunkTableHeader {
            num_arch_files: (config.archive_files.len() + 1) as u16,
            num_chunks: n as u16,
        },
    );
    assert(writer@ =~= table_prefix_bytes(layout));
    let slot = writer.position();
    let _ = writer.reserve(16 * n);
    let _ = writer.write_strings(config.archive_files.as_slice());
    if plan.facts.has_range {
        let settings = match config.range_settings {
            Some(settings) => settings,
            None => RangeSettingsDisk::zeroed(),
        };
        let _ = writer.write_global_settings(&settings);
    }
    assert(writer@ =~= header_with_slot(layout));
    (writer.into_inner(), slot)
}

/// The header region with zero bytes where the chunk table goes.
pub open spec fn header_with_slot(layout: ArchiveLayout) -> Seq<u8> {
    table_prefix_bytes(layout) + zeros((16 * layout.chunks.len()) as nat) + table_suffix_bytes(
        layout,
    )
}

/// Writing the chunk table into its slot completes the header region, and
/// leaves what lies behind the region as it is.
pub proof fn lemma_patched_header(config: Config, table: Seq<ChunkDiskEntry>, body: Seq<u8>)
    requires
        table.len() == config.chunks@.len(),
        forall|p: int|
            0 <= p < table.len() ==> (#[trigger] table[p]).flags == def_flags(
                def_at(config.chunks@, p),
            ),
    ensures
        patched(
            header_with_slot(packed_layout(config, static_table(config))) + body,
            table_prefix_bytes(packed_layout(config, static_table(config))).len() as int,
            chunks_bytes(table),
        ) == layout_bytes(packed_layout(config, table)) + body,
{
    let reserved = packed_layout(config, static_table(config));
    let done = packed_layout(config, table);
    lemma_range_chunks(config, table);
    lemma_range_chunks(config, static_table(config));
    crate::layout::lemma_chunks_bytes_layout(table);
    assert(table_prefix_bytes(reserved) == table_prefix_bytes(done));
    assert(table_suffix_bytes(reserved) == table_suffix_bytes(done));
    let pre = table_prefix_bytes(done);
    let suf = table_suffix_bytes(done);
    let cb = chunks_bytes(table);
    let before = header_with_slot(reserved) + body;
    assert(before.subrange(0, pre.len() as int) =~= pre);
    assert(before.subrange((pre.len() + cb.len()) as int, before.len() as int) =~= suf + body);
    assert(pre + cb + (suf + body) =~= (pre + cb + suf) + body);
}

/// Packs an archive in memory.
///
/// `contents[i]` holds the bytes of the source file of `config.files[i]`.
/// The result holds the bytes of every volume: the main volume with the
/// header region and the payloads of its chunks behind it, and each split
/// volume with the payloads of its chunks; in every volume the payloads
/// lie in the order of the chunk ids. The chunk table records where each
/// payload starts and how long it is.
///
/// Fails as [`plan_pack`] and [`place_chunks`] do, in that order.
pub fn pack_archive(config: &Config, contents: &Vec<Vec<u8>>) -> (r: Result<
    PackedArchive,
    DzipError,
>)
    requires
        contents@.len() == config.files@.len(),
    ensures
        match pack_fault(*config, contents_view(contents@)) {
            Some(fault) => r is Err && reports_pack_fault(r->Err_0, fault),
            None => r is Ok && r->Ok_0.is_packed(*config, contents_view(contents@)),
        },
{
    let plan = match plan_pack(config) {
        Err(e) => {
            return Err(e);
        },
        Ok(plan) => plan,
    };
    let placed = match place_chunks(config, &plan, contents) {
        Err(e) => {
            return Err(e);
        },
        Ok(placed) => placed,
    };
    Ok(assemble_archive(config, &plan, placed))
}



/// Puts the archive together: writes the header region with room for the
/// chunk table, puts the payloads of the main volume behind it, and goes
/// back to write the chunk table that placing the chunks gave.
pub fn assemble_archive(config: &Config, plan: &PackPlan, placed: PlacedChunks) -> (archive:
    PackedArchive)
    requires
        plan.plans(*config),
        placed.bodies@.len() == config.archive_files@.len() + 1,
        placed.table@.len() == config.chunks@.len(),
        forall|p: int|
            0 <= p < placed.table@.len() ==> (#[trigger] placed.table@[p]).flags == def_flags(
                def_at(config.chunks@, p),
            ),
    ensures
        archive.volumes@.len() == placed.bodies@.len(),
        archive.volumes@[0]@ == layout_bytes(packed_layout(*config, placed.table@))
            + placed.bodies@[0]@,
        forall|v: int|
            1 <= v < archive.volumes@.len() ==> (#[trigger] archive.volumes@[v])@
                == placed.bodies@[v]@,
        archive.chunks@ == placed.table@,
        archive.header_size == packed_header_size(*config),
        archive.header_size == layout_bytes(packed_layout(*config, placed.table@)).len(),
{
    let (mut main, slot) = reserve_header(config, plan);
    let ghost fills = placed.bodies@;
    let PlacedChunks { bodies, table } = placed;
    let mut bodies = bodies;
    let count = bodies.len();
    let mut volumes: Vec<Vec<u8>> = Vec::new();
    crate::bytes::append_bytes(&mut main, bodies[0].as_slice());
    proof {
        lemma_patched_header(*config, table@, fills[0]@);
        lemma_header_size_of_table(*config, table@);
        crate::metadata::lemma_header_size(packed_layout(*config, table@));
        crate::metadata::lemma_header_size(packed_layout(*config, static_table(*config)));
    }
    patch_chunk_table(&mut main, slot, table.as_slice());
    volumes.push(main);
    let mut v: usize = 1;
    while v < count
        invariant
            1 <= v <= count == bodies@.len(),
            fills.len() == count,
            volumes@.len() == v,
            forall|w: int| 1 <= w < v ==> (#[trigger] volumes@[w])@ == fills[w]@,
            volumes@[0]@ == layout_bytes(packed_layout(*config, table@)) + fills[0]@,
            forall|w: int| v <= w < count ==> (#[trigger] bodies@[w]) == fills[w],
        decreases count - v,
    {
        let mut body: Vec<u8> = Vec::new();
        core::mem::swap(&mut bodies[v], &mut body);
        volumes.push(body);
        v += 1;
    }
    PackedArchive { volumes, chunks: table, header_size: plan.header_size }
}

/// Packs an archive: checks the description, reads every source file
/// from `source`, compresses and lays out the chunks, and hands the
/// volumes to `sink`.
///
/// A description that the header pre-pass refuses fails before anything is
/// read, with the error of the pre-pass. A source file that is not there
/// fails with `Config`. Errors of the source, of a codec and of the sink
/// are passed on. Nothing is handed to the sink unless every chunk was
/// compressed.
///
/// `on_progress` is told the number of files, then of each file that was
/// read, then of the end.
pub fn do_pack<S: PackSource, K: PackSink, F: Fn(ProgressEvent)>(
    config: &Config,
    source: &S,
    sink: &mut K,
    on_progress: F,
) -> (r: Result<(), DzipError>)
    requires
        forall|event: ProgressEvent| on_progress.requires((event,)),
    ensures
        plan_fault(*config) matches Some(fault) ==> r is Err && reports_pack_fault(r->Err_0, fault),
{
    let plan = match plan_pack(config) {
        Err(e) => {
            return Err(e);
        },
        Ok(plan) => plan,
    };
    let n = config.files.len();
    on_progress(ProgressEvent::Start(n));
    let sep = crate::paths::native_separator();
    let mut contents: Vec<Vec<u8>> = Vec::new();
    let mut i: usize = 0;
    while i < n
        invariant
            i <= n == config.files@.len(),
            contents@.len() == i,
            plan_fault(*config) is None,
            forall|event: ProgressEvent| on_progress.requires((event,)),
        decreases n - i,
    {
        let path = crate::paths::source_relative_path(config.files[i].path.as_str(), sep);
        if !source.file_exists(path.as_str()) {
            return Err(invalid("source file not found"));
        }
        match source.open_file(path.as_str()) {
            Err(e) => {
                return Err(e);
            },
            Ok(bytes) => {
                contents.push(bytes);
            },
        }
        on_progress(ProgressEvent::Inc(1));
        i += 1;
    }
    let placed = match place_chunks(config, &plan, &contents) {
        Err(e) => {
            return Err(e);
        },
        Ok(placed) => placed,
    };
    let archive = assemble_archive(config, &plan, placed);
    match sink.create_main(archive.volumes[0].as_slice()) {
        Err(e) => {
            return Err(e);
        },
        Ok(()) => {},
    }
    let mut v: usize = 1;
    while v < archive.volumes.len()
        invariant
            1 <= v,
            archive.volumes@.len() == config.archive_files@.len() + 1,
            config.archive_files@.len() < u16::MAX,
            plan_fault(*config) is None,
        decreases archive.volumes@.len() - v,
    {
        match sink.create_split((v - 1) as u16, archive.volumes[v].as_slice()) {
            Err(e) => {
                return Err(e);
            },
            Ok(()) => {},
        }
        v += 1;
    }
    on_progress(ProgressEvent::Finish);
    Ok(())
}

} // verus!
