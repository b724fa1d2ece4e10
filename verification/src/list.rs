//! Listing and checking: what an archive holds, and whether it is intact,
//! without writing a file.

use crate::codec::{method_of_flags, CompressionMethod};
use crate::error::DzipError;
use crate::extract::VolumeCache;
use crate::io::UnpackSource;
use crate::metadata::{ArchiveMetadata, RawChunk};
use crate::unpack::{plan_held_archive, UnpackPlan};
use crate::paths::{native_separator, to_native_path_with, with_separator};
use vstd::prelude::*;

verus! {

/// One line of a listing.
#[derive(Debug, Clone, PartialEq, Eq)]
pub struct ListEntry {
    /// Directory and name, with the separator of the host.
    pub path: String,
    /// How many bytes the file has once extracted.
    pub original_size: u64,
    /// How many chunks the file is made of.
    pub chunk_count: usize,
}

/// The decompressed lengths of the chunks of a file, added up. Ids that
/// the chunk table does not have count nothing.
pub open spec fn total_size(ids: Seq<u16>, chunks: Seq<RawChunk>) -> int
    decreases ids.len(),
{
    if ids.len() == 0 {
        0
    } else if ids.last() >= chunks.len() {
        total_size(ids.drop_last(), chunks)
    } else {
        total_size(ids.drop_last(), chunks) + chunks[ids.last() as int].d_len
    }
}

/// The sum of lengths is never negative.
pub proof fn lemma_total_size_nonnegative(ids: Seq<u16>, chunks: Seq<RawChunk>)
    ensures
        0 <= total_size(ids, chunks),
    decreases ids.len(),
{
    if ids.len() > 0 {
        lemma_total_size_nonnegative(ids.drop_last(), chunks);
    }
}

/// Whether `entry` is the line for file `i` of `meta`.
pub open spec fn lists_file(meta: &ArchiveMetadata, entry: ListEntry, i: int, sep: char) -> bool {
    let ids = meta.map_entries@[i].chunk_ids@;
    let total = total_size(ids, meta.raw_chunks@);
    &&& entry.path@ == with_separator(meta.file_path(i), sep)
    &&& entry.original_size == if total <= u64::MAX {
        total
    } else {
        u64::MAX as int
    }
    &&& entry.chunk_count == ids.len()
}

/// Whether `entries` is the listing of `meta`: one line for each file, in
/// file order.
pub open spec fn is_listing(meta: &ArchiveMetadata, entries: Seq<ListEntry>, sep: char) -> bool {
    &&& entries.len() == meta.map_entries@.len()
    &&& forall|i: int| 0 <= i < entries.len() ==> lists_file(meta, #[trigger] entries[i], i, sep)
}

/// The size of a file once extracted; `u64::MAX` where the sum is larger.
pub fn file_size(ids: &Vec<u16>, chunks: &Vec<RawChunk>) -> (size: u64)
    ensures
        size == if total_size(ids@, chunks@) <= u64::MAX {
            total_size(ids@, chunks@)
        } else {
            u64::MAX as int
        },
{
    let mut size: u64 = 0;
    let mut k: usize = 0;
    proof {
        assert(ids@.take(0) =~= Seq::empty());
    }
    while k < ids.len()
        invariant
            k <= ids@.len(),
            size == if total_size(ids@.take(k as int), chunks@) <= u64::MAX {
                total_size(ids@.take(k as int), chunks@)
            } else {
                u64::MAX as int
            },
        decreases ids@.len() - k,
    {
        let id = ids[k] as usize;
        proof {
            assert(ids@.take(k + 1).drop_last() =~= ids@.take(k as int));
            assert(ids@.take(k + 1).last() == ids@[k as int]);
            lemma_total_size_nonnegative(ids@.take(k as int), chunks@);
        }
        if id < chunks.len() {
            size = size.saturating_add(chunks[id].d_len as u64);
        }
        k += 1;
    }
    proof {
        assert(ids@.take(ids@.len() as int) =~= ids@);
    }
    size
}

/// The listing of an archive: one line for each file, in file order, with
/// `sep` as the separator of paths.
pub fn list_entries(meta: &ArchiveMetadata, sep: char) -> (entries: Vec<ListEntry>)
    requires
        meta.wf(),
    ensures
        is_listing(meta, entries@, sep),
{
    let n = meta.map_entries.len();
    let mut entries: Vec<ListEntry> = Vec::new();
    let mut i: usize = 0;
    while i < n
        invariant
            i <= n == meta.map_entries@.len(),
            meta.wf(),
            entries@.len() == i,
            forall|j: int| 0 <= j < i ==> lists_file(meta, #[trigger] entries@[j], j, sep),
        decreases n - i,
    {
        let raw = meta.raw_file_path(i);
        let ids = &meta.map_entries[i].chunk_ids;
        entries.push(
            ListEntry {
                path: to_native_path_with(raw.as_str(), sep),
                original_size: file_size(ids, &meta.raw_chunks),
                chunk_count: ids.len(),
            },
        );
        i += 1;
    }
    entries
}

/// Lists the archive whose main volume `source` gives.
///
/// An error of the source or of the header is passed on. Otherwise the
/// result is the listing of what the header says, with paths in the form
/// of the host.
pub fn do_list<S: UnpackSource>(source: &S) -> (r: Result<Vec<ListEntry>, DzipError>)
    ensures
        r matches Ok(entries) ==> exists|meta: ArchiveMetadata, bytes: Seq<u8>|
            #![auto]
            meta.wf() && crate::metadata::parse_layout(bytes) is Ok && meta.describes(
                crate::metadata::parse_layout(bytes)->Ok_0.0,
                bytes.len() as int,
            ) && (is_listing(&meta, entries@, '/') || is_listing(&meta, entries@, '\\')),
{
    let meta = match ArchiveMetadata::load(source) {
        Err(e) => {
            return Err(e);
        },
        Ok(meta) => meta,
    };
    let entries = list_entries(&meta, native_separator());
    Ok(entries)
}

/// The stored lengths of the chunks of a file as the reconciler found
/// them, added up. Ids that the chunk table does not have count nothing.
pub open spec fn total_packed(ids: Seq<u16>, chunks: Seq<RawChunk>) -> int
    decreases ids.len(),
{
    if ids.len() == 0 {
        0
    } else if ids.last() >= chunks.len() {
        total_packed(ids.drop_last(), chunks)
    } else {
        total_packed(ids.drop_last(), chunks) + chunks[ids.last() as int].real_c_len
    }
}

/// The sum of stored lengths is never negative.
pub proof fn lemma_total_packed_nonnegative(ids: Seq<u16>, chunks: Seq<RawChunk>)
    ensures
        0 <= total_packed(ids, chunks),
    decreases ids.len(),
{
    if ids.len() > 0 {
        lemma_total_packed_nonnegative(ids.drop_last(), chunks);
    }
}

/// How many bytes a file takes in the archive; `u64::MAX` where the sum
/// is larger.
pub fn packed_size(ids: &Vec<u16>, chunks: &Vec<RawChunk>) -> (size: u64)
    ensures
        size == if total_packed(ids@, chunks@) <= u64::MAX {
            total_packed(ids@, chunks@)
        } else {
            u64::MAX as int
        },
{
    let mut size: u64 = 0;
    let mut k: usize = 0;
    proof {
        assert(ids@.take(0) =~= Seq::empty());
    }
    while k < ids.len()
        invariant
            k <= ids@.len(),
            size == if total_packed(ids@.take(k as int), chunks@) <= u64::MAX {
                total_packed(ids@.take(k as int), chunks@)
            } else {
                u64::MAX as int
            },
        decreases ids@.len() - k,
    {
        let id = ids[k] as usize;
        proof {
            assert(ids@.take(k + 1).drop_last() =~= ids@.take(k as int));
            assert(ids@.take(k + 1).last() == ids@[k as int]);
            lemma_total_packed_nonnegative(ids@.take(k as int), chunks@);
        }
        if id < chunks.len() {
            size = size.saturating_add(chunks[id].real_c_len as u64);
        }
        k += 1;
    }
    proof {
        assert(ids@.take(ids@.len() as int) =~= ids@);
    }
    size
}

/// Whether the chunk table has every chunk of a chunk list.
pub open spec fn all_known(ids: Seq<u16>, count: int) -> bool {
    forall|k: int| 0 <= k < ids.len() ==> ids[k] < count
}

/// Whether the chunk table has every chunk of a chunk list.
pub fn knows_all(ids: &Vec<u16>, count: usize) -> (b: bool)
    ensures
        b == all_known(ids@, count as int),
{
    let mut k: usize = 0;
    while k < ids.len()
        invariant
            k <= ids@.len(),
            forall|j: int| 0 <= j < k ==> ids@[j] < count,
        decreases ids@.len() - k,
    {
        if ids[k] as usize >= count {
            return false;
        }
        k += 1;
    }
    true
}

/// What checking one file of an archive found.
#[derive(Debug, Clone, Copy, PartialEq, Eq)]
pub struct FileReport {
    /// Whether every chunk of the file is in the chunk table and decodes.
    pub intact: bool,
    /// How many bytes the file has once extracted, as its chunks claim.
    pub size: u64,
    /// How many bytes the file takes in the archive.
    pub packed: u64,
    /// How the first chunk of the file is stored, if the file has a chunk
    /// that the chunk table knows at its first place.
    pub method: Option<CompressionMethod>,
}

/// The way the first chunk of a file is stored, if the chunk table has it.
pub open spec fn first_method(ids: Seq<u16>, chunks: Seq<RawChunk>) -> Option<CompressionMethod> {
    if ids.len() > 0 && ids[0] < chunks.len() {
        Some(method_of_flags(chunks[ids[0] as int].flags))
    } else {
        None
    }
}

/// Whether `report` says of file `i` what is so, given whether its chunks
/// could be decoded.
pub open spec fn reports_file(plan: &UnpackPlan, report: FileReport, i: int, decoded: bool) -> bool {
    let ids = plan.metadata.map_entries@[i].chunk_ids@;
    let chunks = plan.processed_chunks@;
    &&& report.size == if total_size(ids, chunks) <= u64::MAX {
        total_size(ids, chunks)
    } else {
        u64::MAX as int
    }
    &&& report.packed == if total_packed(ids, chunks) <= u64::MAX {
        total_packed(ids, chunks)
    } else {
        u64::MAX as int
    }
    &&& report.method == first_method(ids, chunks)
    &&& report.intact == (all_known(ids, chunks.len() as int) && decoded)
}

impl UnpackPlan {
    /// The report for file `i`, given whether its chunks could be decoded.
    pub fn report_file(&self, i: usize, decoded: bool) -> (report: FileReport)
        requires
            i < self.metadata.map_entries@.len(),
        ensures
            reports_file(self, report, i as int, decoded),
    {
        let ids = &self.metadata.map_entries[i].chunk_ids;
        let method = if ids.len() > 0 && (ids[0] as usize) < self.processed_chunks.len() {
            Some(CompressionMethod::from_flags(self.processed_chunks[ids[0] as usize].flags))
        } else {
            None
        };
        let size = file_size(ids, &self.processed_chunks);
        let packed = packed_size(ids, &self.processed_chunks);
        let known = knows_all(ids, self.processed_chunks.len());
        FileReport { intact: known && decoded, size, packed, method }
    }

    /// Checks file `i`: decodes every chunk of it, without keeping raw
    /// data, and says whether that went well, how large the file is and
    /// how it is stored.
    ///
    /// Volumes are fetched from `source` when the file needs them; a
    /// volume that cannot be fetched makes the file not intact.
    pub fn verify_file<S: UnpackSource>(&self, i: usize, cache: &mut VolumeCache, source: &S) -> (report:
        FileReport)
        requires
            self.wf(),
            i < self.metadata.map_entries@.len(),
            old(cache)@.len() == self.metadata.split_file_names@.len() + 1,
        ensures
            crate::extract::extends(old(cache)@, final(cache)@),
            exists|decoded: bool| reports_file(self, report, i as int, decoded),
            crate::extract::volumes_loaded(
                self.metadata.map_entries@[i as int].chunk_ids@,
                self.processed_chunks@,
                old(cache)@,
            ) ==> reports_file(
                self,
                report,
                i as int,
                crate::extract::file_output(
                    self.metadata.map_entries@[i as int].chunk_ids@,
                    self.processed_chunks@,
                    old(cache)@,
                    false,
                ) is Ok,
            ),
    {
        let decoded = self.extract_file(i, cache, source, false);
        let report = self.report_file(i, decoded.is_ok());
        assert(reports_file(self, report, i as int, decoded is Ok));
        report
    }
}

/// Whether `reports` say of every file of the archive what is so.
pub open spec fn is_verification(
    plan: &UnpackPlan,
    reports: Seq<FileReport>,
    volumes: Seq<Option<Seq<u8>>>,
) -> bool {
    &&& reports.len() == plan.metadata.map_entries@.len()
    &&& forall|i: int|
        0 <= i < reports.len() ==> reports_file(
            plan,
            #[trigger] reports[i],
            i,
            crate::extract::file_output(
                plan.metadata.map_entries@[i].chunk_ids@,
                plan.processed_chunks@,
                volumes,
                false,
            ) is Ok,
        )
}

/// Checks an archive whose volumes are held in memory: decodes every
/// file, without keeping raw data, and reports on each in file order.
///
/// Fails where [`plan_held_archive`] fails. A file that cannot be decoded
/// is no failure: its report says that it is not intact.
pub fn verify_archive(volumes: &Vec<Vec<u8>>) -> (r: Result<Vec<FileReport>, DzipError>)
    requires
        volumes@.len() >= 1,
    ensures
        match crate::metadata::parse_layout(volumes@[0]@) {
            Err(fault) => r is Err && crate::metadata::reports(r->Err_0, fault),
            Ok((layout, _)) => if volumes@.len() < layout.split_names.len() + 1 {
                r is Err && r->Err_0 is SplitFileMissing
            } else if volumes@.len() > layout.split_names.len() + 1 {
                r is Err && r->Err_0 is Format
            } else if !crate::unpack::layout_volumes_known(layout, volumes@.len() as int) {
                r is Err && r->Err_0 is Format
            } else {
                r is Ok && exists|plan: UnpackPlan|
                    #![auto]
                    plan.wf() && plan.metadata.describes(layout, volumes@[0]@.len() as int)
                        && plan.processed_chunks@ == crate::reconcile::reconciled(
                        plan.metadata.raw_chunks@,
                        crate::unpack::held_lengths(volumes@),
                    ) && is_verification(&plan, r->Ok_0@, crate::unpack::held_volumes(volumes@))
            },
        },
{
    let plan = match plan_held_archive(volumes) {
        Err(e) => {
            return Err(e);
        },
        Ok(plan) => plan,
    };
    let cache = VolumeCache::holding(volumes);
    let n = plan.metadata.map_entries.len();
    let mut reports: Vec<FileReport> = Vec::new();
    let mut i: usize = 0;
    while i < n
        invariant
            i <= n == plan.metadata.map_entries@.len(),
            plan.wf(),
            cache@ == crate::unpack::held_volumes(volumes@),
            volumes@.len() == plan.metadata.split_file_names@.len() + 1,
            reports@.len() == i,
            forall|j: int|
                0 <= j < i ==> reports_file(
                    &plan,
                    #[trigger] reports@[j],
                    j,
                    crate::extract::file_output(
                        plan.metadata.map_entries@[j].chunk_ids@,
                        plan.processed_chunks@,
                        cache@,
                        false,
                    ) is Ok,
                ),
        decreases n - i,
    {
        let decoded = plan.held_file(i, &cache, false);
        reports.push(plan.report_file(i, decoded.is_ok()));
        i += 1;
    }
    assert(is_verification(&plan, reports@, crate::unpack::held_volumes(volumes@)));
    Ok(reports)
}

} // verus!
