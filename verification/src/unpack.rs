//! Unpacking: from the volumes of an archive to files and a description.

use crate::error::DzipError;
use crate::extract::{assemble_file, file_output, is_file_outcome, VolumeCache};
use crate::io::{ProgressEvent, UnpackSink, UnpackSource};
use crate::metadata::{root_dir, ArchiveMetadata, RawChunk};
use crate::model::{ArchiveMeta, ChunkDef, Config, FileEntry};
use crate::paths::{
    clean_path, clean_relative_path, fault_text, is_sep, native_separator, path_fault,
    to_native_path_with, with_separator, PathFault,
};
use crate::reconcile::{calculate_chunk_sizes, reconciled, volumes_known};
use crate::text::{chars_of, string_of};
use crate::utils::{decode_flags, flag_names};
use vstd::prelude::*;

verus! {

/// The path of a file as the archive gives it: the name alone for a file
/// in the root, and directory, slash and name otherwise.
pub open spec fn raw_path(dir: Seq<char>, name: Seq<char>) -> Seq<char> {
    if dir == root_dir() || dir.len() == 0 {
        name
    } else {
        dir + seq!['/'] + name
    }
}

/// The path of a file as the archive gives it.
pub fn join_raw_path(dir: &str, name: &str) -> (path: String)
    ensures
        path@ == raw_path(dir@, name@),
{
    let d = chars_of(dir);
    let n = chars_of(name);
    if d.len() == 0 || (d.len() == 1 && d[0] == '.') {
        proof {
            if d.len() == 1 {
                assert(d@ =~= root_dir());
            }
        }
        return string_of(n.as_slice());
    }
    let mut out = d;
    out.push('/');
    let ghost prefix = out@;
    let mut k: usize = 0;
    while k < n.len()
        invariant
            k <= n@.len(),
            out@ == prefix + n@.take(k as int),
        decreases n@.len() - k,
    {
        out.push(n[k]);
        assert(out@ =~= prefix + n@.take(k + 1));
        k += 1;
    }
    proof {
        assert(n@.take(n@.len() as int) =~= n@);
        assert(dir@ != root_dir()) by {
            if dir@.len() == 1 {
                assert(dir@[0] != '.');
                assert(root_dir()[0] == '.');
            }
        }
        assert(out@ =~= dir@ + seq!['/'] + name@);
    }
    string_of(out.as_slice())
}

/// A copy of a list of strings.
pub fn clone_strings(list: &Vec<String>) -> (copy: Vec<String>)
    ensures
        copy@ == list@,
{
    let mut copy: Vec<String> = Vec::new();
    let mut k: usize = 0;
    while k < list.len()
        invariant
            k <= list@.len(),
            copy@ == list@.take(k as int),
        decreases list@.len() - k,
    {
        copy.push(list[k].clone());
        assert(copy@ =~= list@.take(k + 1));
        k += 1;
    }
    assert(list@.take(list@.len() as int) =~= list@);
    copy
}

impl ArchiveMetadata {
    /// Whether this structure is well-formed.
    pub fn is_well_formed(&self) -> (b: bool)
        ensures
            b == self.wf(),
    {
        if self.user_files.len() != self.map_entries.len() || self.user_files.len() > 65535
            || self.directories.len() < 1 || self.directories.len() > 65535
            || self.raw_chunks.len() > 65535 || self.split_file_names.len() >= 65535 {
            return false;
        }
        let root = chars_of(self.directories[0].as_str());
        if !(root.len() == 1 && root[0] == '.') {
            proof {
                if self.directories@[0]@ == root_dir() {
                    assert(root_dir()[0] == '.');
                }
            }
            return false;
        }
        assert(self.directories@[0]@ =~= root_dir());
        let mut i: usize = 0;
        while i < self.raw_chunks.len()
            invariant
                i <= self.raw_chunks@.len() <= u16::MAX,
                forall|k: int| 0 <= k < i ==> (#[trigger] self.raw_chunks@[k]).id == k,
            decreases self.raw_chunks@.len() - i,
        {
            if self.raw_chunks[i].id as usize != i {
                return false;
            }
            i += 1;
        }
        true
    }

    /// The directory of file `i`: the one its map record names, or the
    /// root where the record names none that exists.
    pub open spec fn dir_of(&self, i: int) -> Seq<char> {
        let d = self.map_entries@[i].dir_idx as int;
        if d < self.directories@.len() {
            self.directories@[d]@
        } else {
            root_dir()
        }
    }

    /// The path of file `i` as the archive gives it.
    pub open spec fn file_path(&self, i: int) -> Seq<char> {
        raw_path(self.dir_of(i), self.user_files@[i]@)
    }

    /// Why the first path among files `0..n` that is refused is refused,
    /// or `None` where every such path is safe.
    pub open spec fn first_refused(&self, n: nat) -> Option<PathFault>
        decreases n,
    {
        if n == 0 {
            None
        } else if self.first_refused((n - 1) as nat) is Some {
            self.first_refused((n - 1) as nat)
        } else {
            path_fault(self.file_path(n - 1))
        }
    }

    /// The directory of file `i`.
    pub fn directory_of(&self, i: usize) -> (dir: &str)
        requires
            self.wf(),
            i < self.map_entries@.len(),
        ensures
            dir@ == self.dir_of(i as int),
    {
        let d = self.map_entries[i].dir_idx as usize;
        if d < self.directories.len() {
            self.directories[d].as_str()
        } else {
            self.directories[0].as_str()
        }
    }

    /// The path of file `i` as the archive gives it.
    pub fn raw_file_path(&self, i: usize) -> (path: String)
        requires
            self.wf(),
            i < self.map_entries@.len(),
        ensures
            path@ == self.file_path(i as int),
    {
        join_raw_path(self.directory_of(i), self.user_files[i].as_str())
    }
}

/// An archive that is ready to be extracted: its structure and its chunk
/// table after reconciliation.
pub struct UnpackPlan {
    pub metadata: ArchiveMetadata,
    pub processed_chunks: Vec<RawChunk>,
}

/// The directory part of a relative path: what stands before its last
/// separator, or `None` where it has no separator.
pub open spec fn parent_of(path: Seq<char>) -> Option<Seq<char>>
    decreases path.len(),
{
    if path.len() == 0 {
        None
    } else if is_sep(path.last()) {
        Some(path.drop_last())
    } else {
        parent_of(path.drop_last())
    }
}

/// The directory part of a relative path.
pub fn parent_dir(path: &str) -> (r: Option<String>)
    ensures
        match parent_of(path@) {
            Some(dir) => r is Some && r->0@ == dir,
            None => r is None,
        },
{
    let chars = chars_of(path);
    let mut n: usize = chars.len();
    proof {
        assert(chars@.take(n as int) =~= chars@);
    }
    while n > 0
        invariant
            n <= chars@.len(),
            chars@ == path@,
            parent_of(chars@) == parent_of(chars@.take(n as int)),
        decreases n,
    {
        proof {
            assert(chars@.take(n as int).drop_last() =~= chars@.take(n - 1));
            assert(chars@.take(n as int).last() == chars@[n - 1]);
        }
        if crate::paths::is_separator(chars[n - 1]) {
            let dir = vstd::slice::slice_subrange(chars.as_slice(), 0, n - 1);
            assert(dir@ =~= chars@.take(n - 1));
            return Some(string_of(dir));
        }
        n -= 1;
    }
    None
}

impl UnpackPlan {
    /// What holds of every plan: the structure is well-formed, the chunk
    /// table is the reconciled one, and every chunk lies in a volume that
    /// the archive has.
    pub open spec fn wf(&self) -> bool {
        &&& self.metadata.wf()
        &&& self.processed_chunks@.len() == self.metadata.raw_chunks@.len()
        &&& forall|i: int|
            0 <= i < self.processed_chunks@.len() ==> (#[trigger] self.processed_chunks@[i]).id == i
                && self.processed_chunks@[i].file_idx <= self.metadata.split_file_names@.len()
    }

    /// Whether this plan is well-formed.
    pub fn is_well_formed(&self) -> (b: bool)
        ensures
            b == self.wf(),
    {
        if !self.metadata.is_well_formed() || self.processed_chunks.len()
            != self.metadata.raw_chunks.len() {
            return false;
        }
        let mut i: usize = 0;
        while i < self.processed_chunks.len()
            invariant
                i <= self.processed_chunks@.len() <= u16::MAX,
                forall|k: int|
                    0 <= k < i ==> (#[trigger] self.processed_chunks@[k]).id == k
                        && self.processed_chunks@[k].file_idx
                        <= self.metadata.split_file_names@.len(),
            decreases self.processed_chunks@.len() - i,
        {
            let chunk = &self.processed_chunks[i];
            if chunk.id as usize != i || chunk.file_idx as usize
                > self.metadata.split_file_names.len() {
                return false;
            }
            i += 1;
        }
        true
    }

    /// The plan for an archive whose volumes have the given lengths:
    /// `lens[0]` for the main volume, `lens[k]` for the split with index
    /// `k - 1` in the split list.
    ///
    /// Fails with `Format` exactly where a chunk names a volume that the
    /// archive does not have.
    pub fn from_volume_lengths(metadata: ArchiveMetadata, lens: &Vec<u64>) -> (r: Result<
        UnpackPlan,
        DzipError,
    >)
        requires
            metadata.wf(),
            lens@.len() == metadata.split_file_names@.len() + 1,
        ensures
            volumes_known(metadata.raw_chunks@, lens@) ==> (r matches Ok(plan) && plan.metadata
                == metadata && plan.processed_chunks@ == reconciled(metadata.raw_chunks@, lens@)
                && plan.wf()),
            !volumes_known(metadata.raw_chunks@, lens@) ==> r is Err && r->Err_0 is Format,
    {
        match calculate_chunk_sizes(&metadata.raw_chunks, lens) {
            Err(e) => Err(e),
            Ok(processed_chunks) => {
                let plan = UnpackPlan { metadata, processed_chunks };
                proof {
                    assert forall|i: int| 0 <= i < plan.processed_chunks@.len() implies (
                    #[trigger] plan.processed_chunks@[i]).id == i && plan.processed_chunks@[i].file_idx
                        <= plan.metadata.split_file_names@.len() by {
                        assert(plan.metadata.raw_chunks@[i].id == i);
                        assert(plan.metadata.raw_chunks@[i].file_idx < lens@.len());
                    }
                }
                Ok(plan)
            },
        }
    }

    /// Makes the plan for an archive: asks `source` for the length of
    /// every split volume that holds a chunk, and reconciles the chunk table.
    ///
    /// An archive whose chunks all lie in the main volume needs nothing of
    /// the source and always gets its plan. A chunk that names a volume
    /// which the archive does not have fails with `Format` before the
    /// source is asked anything. An error of the source is passed on.
    pub fn build<S: UnpackSource>(metadata: ArchiveMetadata, source: &S) -> (r: Result<
        UnpackPlan,
        DzipError,
    >)
        requires
            metadata.wf(),
        ensures
            r matches Ok(plan) ==> plan.wf() && plan.metadata == metadata && exists|lens: Seq<u64>|
                #![auto]
                lens.len() == metadata.split_file_names@.len() + 1 && lens[0]
                    == metadata.main_file_len && plan.processed_chunks@ == reconciled(
                    metadata.raw_chunks@,
                    lens,
                ),
            (exists|i: int|
                0 <= i < metadata.raw_chunks@.len() && (#[trigger] metadata.raw_chunks@[i]).file_idx
                    > metadata.split_file_names@.len()) ==> r is Err && r->Err_0 is Format,
            (forall|i: int|
                0 <= i < metadata.raw_chunks@.len() ==> (#[trigger] metadata.raw_chunks@[i]).file_idx
                    == 0) ==> r is Ok,
    {
        let volumes = metadata.split_file_names.len() + 1;
        let mut lens: Vec<u64> = Vec::new();
        let mut known: Vec<bool> = Vec::new();
        lens.push(metadata.main_file_len);
        known.push(true);
        let mut v: usize = 1;
        while v < volumes
            invariant
                1 <= v <= volumes,
                lens@.len() == v,
                known@.len() == v,
                lens@[0] == metadata.main_file_len,
                known@[0],
                forall|k: int| 1 <= k < v ==> !known@[k],
            decreases volumes - v,
        {
            lens.push(0);
            known.push(false);
            v += 1;
        }
        let mut i: usize = 0;
        while i < metadata.raw_chunks.len()
            invariant
                i <= metadata.raw_chunks@.len(),
                volumes == metadata.split_file_names@.len() + 1,
                forall|k: int|
                    0 <= k < i ==> (#[trigger] metadata.raw_chunks@[k]).file_idx < volumes,
            decreases metadata.raw_chunks@.len() - i,
        {
            if metadata.raw_chunks[i].file_idx as usize >= volumes {
                return Err(
                    DzipError::Format(String::from_str("chunk names a volume that does not exist")),
                );
            }
            i += 1;
        }
        let mut i: usize = 0;
        while i < metadata.raw_chunks.len()
            invariant
                i <= metadata.raw_chunks@.len(),
                volumes == metadata.split_file_names@.len() + 1,
                lens@.len() == volumes,
                known@.len() == volumes,
                lens@[0] == metadata.main_file_len,
                known@[0],
                forall|k: int|
                    0 <= k < metadata.raw_chunks@.len() ==> (
                    #[trigger] metadata.raw_chunks@[k]).file_idx < volumes,
            decreases metadata.raw_chunks@.len() - i,
        {
            let volume = metadata.raw_chunks[i].file_idx as usize;
            if !known[volume] {
                match source.get_split_len(metadata.split_file_names[volume - 1].as_str()) {
                    Err(e) => {
                        return Err(e);
                    },
                    Ok(len) => {
                        lens.set(volume, len);
                        known.set(volume, true);
                    },
                }
            }
            i += 1;
        }
        assert(volumes_known(metadata.raw_chunks@, lens@));
        Self::from_volume_lengths(metadata, &lens)
    }

    /// Whether `paths` are the safe relative paths of files `0..n`.
    pub open spec fn safe_paths(&self, paths: Seq<String>, n: int, sep: char) -> bool {
        &&& paths.len() == n
        &&& forall|i: int|
            0 <= i < n ==> clean_path(self.metadata.file_path(i), sep) == Ok::<Seq<char>, PathFault>(
                (#[trigger] paths[i])@,
            )
    }

    /// The safe relative path of every file, joined with `sep`.
    ///
    /// Fails with `Security` for the first file whose path is refused.
    pub fn output_paths(&self, sep: char) -> (r: Result<Vec<String>, DzipError>)
        requires
            self.wf(),
        ensures
            match self.metadata.first_refused(self.metadata.map_entries@.len()) {
                Some(fault) => r is Err && r->Err_0 is Security && r->Err_0->Security_0@
                    == fault_text(fault),
                None => r is Ok && self.safe_paths(
                    r->Ok_0@,
                    self.metadata.map_entries@.len() as int,
                    sep,
                ),
            },
    {
        let n = self.metadata.map_entries.len();
        let mut paths: Vec<String> = Vec::new();
        let mut i: usize = 0;
        while i < n
            invariant
                i <= n == self.metadata.map_entries@.len(),
                self.wf(),
                self.metadata.first_refused(i as nat) is None,
                self.safe_paths(paths@, i as int, sep),
            decreases n - i,
        {
            let raw = self.metadata.raw_file_path(i);
            match clean_relative_path(raw.as_str(), sep) {
                Err(e) => {
                    proof {
                        assert(self.metadata.first_refused((i + 1) as nat) == path_fault(
                            self.metadata.file_path(i as int),
                        ));
                        lemma_first_refused_stays(&self.metadata, (i + 1) as nat, n as nat);
                    }
                    return Err(e);
                },
                Ok(path) => {
                    paths.push(path);
                },
            }
            i += 1;
        }
        Ok(paths)
    }

    /// Extracts every file of the archive into `sink`.
    ///
    /// All paths are made safe before anything is created: an archive
    /// with a path that leads out of the extraction root fails with
    /// `Security` and leaves the sink untouched. Then each file is put
    /// together from its chunks and handed to the sink, after the directory
    /// it lies in. Volumes are fetched from `source` when a chunk first
    /// needs them. A chunk that cannot be decoded fails the extraction,
    /// unless `keep_raw` is set: then its stored bytes are written in its
    /// place. Errors of the source and of the sink are passed on.
    ///
    /// `on_progress` is told the number of files, then of each file that is
    /// done, then of the end.
    pub fn extract<K: UnpackSink, S: UnpackSource, F: Fn(ProgressEvent)>(
        &self,
        sink: &K,
        keep_raw: bool,
        source: &S,
        on_progress: F,
    ) -> (r: Result<(), DzipError>)
        requires
            self.wf(),
            forall|event: ProgressEvent| on_progress.requires((event,)),
        ensures
            self.metadata.first_refused(self.metadata.map_entries@.len()) matches Some(fault) ==> r
                is Err && r->Err_0 is Security && r->Err_0->Security_0@ == fault_text(fault),
            self.metadata.map_entries@.len() == 0 ==> r is Ok,
    {
        let n = self.metadata.map_entries.len();
        on_progress(ProgressEvent::Start(n));
        let paths = match self.output_paths(native_separator()) {
            Err(e) => {
                return Err(e);
            },
            Ok(paths) => paths,
        };
        let mut cache = VolumeCache::new(self.metadata.split_file_names.len() + 1);
        let mut i: usize = 0;
        while i < n
            invariant
                i <= n == self.metadata.map_entries@.len(),
                paths@.len() == n,
                self.wf(),
                cache@.len() == self.metadata.split_file_names@.len() + 1,
                self.metadata.first_refused(n as nat) is None,
                forall|event: ProgressEvent| on_progress.requires((event,)),
            decreases n - i,
        {
            let path = paths[i].as_str();
            match parent_dir(path) {
                None => {},
                Some(dir) => {
                    match sink.create_dir_all(dir.as_str()) {
                        Err(e) => {
                            return Err(e);
                        },
                        Ok(()) => {},
                    }
                },
            }
            let contents = match self.extract_file(i, &mut cache, source, keep_raw) {
                Err(e) => {
                    return Err(e);
                },
                Ok(bytes) => bytes,
            };
            match sink.create_file(path, contents.as_slice()) {
                Err(e) => {
                    return Err(e);
                },
                Ok(()) => {},
            }
            on_progress(ProgressEvent::Inc(1));
            i += 1;
        }
        on_progress(ProgressEvent::Finish);
        Ok(())
    }

    /// The bytes of file `i`.
    ///
    /// Fetches the volumes that the chunks of the file lie in, unless
    /// `cache` holds them, and puts the file together. On success the
    /// result is what [`file_output`] says for the volumes that the cache
    /// then holds. Where the source fails, its error is the result; where
    /// a chunk cannot be decoded and `keep_raw` is not set, the error of
    /// that chunk.
    pub fn extract_file<S: UnpackSource>(
        &self,
        i: usize,
        cache: &mut VolumeCache,
        source: &S,
        keep_raw: bool,
    ) -> (r: Result<Vec<u8>, DzipError>)
        requires
            self.wf(),
            i < self.metadata.map_entries@.len(),
            old(cache)@.len() == self.metadata.split_file_names@.len() + 1,
        ensures
            crate::extract::extends(old(cache)@, final(cache)@),
            r matches Ok(bytes) ==> file_output(
                self.metadata.map_entries@[i as int].chunk_ids@,
                self.processed_chunks@,
                final(cache)@,
                keep_raw,
            ) == Ok::<Seq<u8>, crate::extract::ChunkFault>(bytes@),
            crate::extract::volumes_loaded(
                self.metadata.map_entries@[i as int].chunk_ids@,
                self.processed_chunks@,
                old(cache)@,
            ) ==> is_file_outcome(
                r,
                file_output(
                    self.metadata.map_entries@[i as int].chunk_ids@,
                    self.processed_chunks@,
                    old(cache)@,
                    keep_raw,
                ),
            ) && final(cache)@ == old(cache)@,
    {
        let ids = &self.metadata.map_entries[i].chunk_ids;
        let mut k: usize = 0;
        while k < ids.len()
            invariant
                k <= ids@.len(),
                self.wf(),
                i < self.metadata.map_entries@.len(),
                ids@ == self.metadata.map_entries@[i as int].chunk_ids@,
                cache@.len() == self.metadata.split_file_names@.len() + 1,
                crate::extract::extends(old(cache)@, cache@),
                crate::extract::volumes_loaded(ids@, self.processed_chunks@, old(cache)@) ==> cache@
                    == old(cache)@,
                forall|j: int|
                    0 <= j < k && (#[trigger] ids@[j]) < self.processed_chunks@.len() ==> cache@[self.processed_chunks@[ids@[j] as int].file_idx as int] is Some,
            decreases ids@.len() - k,
        {
            let id = ids[k] as usize;
            if id < self.processed_chunks.len() {
                let volume = self.processed_chunks[id].file_idx as usize;
                proof {
                    if crate::extract::volumes_loaded(ids@, self.processed_chunks@, old(cache)@) {
                        assert(ids@[k as int] < self.processed_chunks@.len());
                        assert(cache@[volume as int] is Some);
                    }
                }
                match cache.ensure_loaded(volume, &self.metadata.split_file_names, source) {
                    Err(e) => {
                        return Err(e);
                    },
                    Ok(()) => {},
                }
            }
            k += 1;
        }
        assemble_file(ids, &self.processed_chunks, cache, keep_raw)
    }
}

/// The name of a flag word in a description: the first of its flag names.
pub open spec fn first_flag_name(flags: u16) -> Seq<char> {
    if flag_names(flags).len() > 0 {
        flag_names(flags)[0]
    } else {
        Seq::empty()
    }
}

impl UnpackPlan {
    /// Whether `entry` describes file `i`, with `sep` as the separator of paths.
    pub open spec fn describes_file(&self, entry: FileEntry, i: int, sep: char) -> bool {
        let ids = self.metadata.map_entries@[i].chunk_ids@;
        &&& entry.path@ == with_separator(self.metadata.file_path(i), sep)
        &&& entry.directory@ == with_separator(self.metadata.dir_of(i), sep)
        &&& entry.filename@ == self.metadata.user_files@[i]@
        &&& entry.chunk == if ids.len() > 0 {
            ids[0]
        } else {
            0
        }
        &&& entry.chunks@ == ids
    }

    /// Whether `def` describes chunk `k` of the reconciled table.
    pub open spec fn describes_chunk(&self, def: ChunkDef, k: int) -> bool {
        let chunk = self.processed_chunks@[k];
        &&& def.id == chunk.id
        &&& def.offset == chunk.offset
        &&& def.size_compressed == chunk.real_c_len
        &&& def.size_decompressed == chunk.d_len
        &&& def.flag@ == first_flag_name(chunk.flags)
        &&& def.archive_file_index == chunk.file_idx
    }

    /// Whether `config` describes this archive, with `sep` as the
    /// separator of paths: the counts, the split list and the range
    /// settings as the structure has them, one entry for each file in file
    /// order, and one for each chunk in table order.
    pub open spec fn describes(&self, config: Config, sep: char) -> bool {
        &&& config.archive.version == self.metadata.version
        &&& config.archive.total_files == self.metadata.map_entries@.len()
        &&& config.archive.total_directories == self.metadata.directories@.len()
        &&& config.archive.total_chunks == self.processed_chunks@.len()
        &&& config.archive_files@ == self.metadata.split_file_names@
        &&& config.range_settings == self.metadata.range_settings
        &&& config.files@.len() == self.metadata.map_entries@.len()
        &&& forall|i: int|
            0 <= i < config.files@.len() ==> self.describes_file(#[trigger] config.files@[i], i, sep)
        &&& config.chunks@.len() == self.processed_chunks@.len()
        &&& forall|k: int|
            0 <= k < config.chunks@.len() ==> self.describes_chunk(#[trigger] config.chunks@[k], k)
    }

    /// The description of the archive, with `sep` as the separator of paths.
    pub fn generate_config_struct_with(&self, sep: char) -> (config: Config)
        requires
            self.wf(),
        ensures
            self.describes(config, sep),
    {
        let n = self.metadata.map_entries.len();
        let mut files: Vec<FileEntry> = Vec::new();
        let mut i: usize = 0;
        while i < n
            invariant
                i <= n == self.metadata.map_entries@.len(),
                self.wf(),
                files@.len() == i,
                forall|j: int| 0 <= j < i ==> self.describes_file(#[trigger] files@[j], j, sep),
            decreases n - i,
        {
            let raw = self.metadata.raw_file_path(i);
            let ids = &self.metadata.map_entries[i].chunk_ids;
            let first: u16 = if ids.len() > 0 {
                ids[0]
            } else {
                0
            };
            let chunks = ids.clone();
            assert(chunks@ =~= ids@);
            files.push(
                FileEntry {
                    path: to_native_path_with(raw.as_str(), sep),
                    directory: to_native_path_with(self.metadata.directory_of(i), sep),
                    filename: self.metadata.user_files[i].clone(),
                    chunk: first,
                    chunks,
                },
            );
            i += 1;
        }
        let m = self.processed_chunks.len();
        let mut chunks: Vec<ChunkDef> = Vec::new();
        let mut k: usize = 0;
        while k < m
            invariant
                k <= m == self.processed_chunks@.len(),
                chunks@.len() == k,
                forall|j: int| 0 <= j < k ==> self.describes_chunk(#[trigger] chunks@[j], j),
            decreases m - k,
        {
            let chunk = &self.processed_chunks[k];
            let names = decode_flags(chunk.flags);
            let flag = if names.len() > 0 {
                names[0].clone()
            } else {
                String::new()
            };
            proof {
                assert(crate::utils::texts(names@).len() == names@.len());
                if names@.len() > 0 {
                    assert(crate::utils::texts(names@)[0] == names@[0]@);
                }
            }
            chunks.push(
                ChunkDef {
                    id: chunk.id,
                    offset: chunk.offset,
                    size_compressed: chunk.real_c_len,
                    size_decompressed: chunk.d_len,
                    flag,
                    archive_file_index: chunk.file_idx,
                },
            );
            k += 1;
        }
        Config {
            archive: ArchiveMeta {
                version: self.metadata.version,
                total_files: n as u16,
                total_directories: self.metadata.directories.len() as u16,
                total_chunks: m as u16,
            },
            archive_files: clone_strings(&self.metadata.split_file_names),
            range_settings: self.metadata.range_settings,
            files,
            chunks,
        }
    }

    /// The description of the archive, with paths in the form of the host.
    pub fn generate_config_struct(&self) -> (r: Result<Config, DzipError>)
        requires
            self.wf(),
        ensures
            r is Ok,
            self.describes(r->Ok_0, '/') || self.describes(r->Ok_0, '\\'),
    {
        Ok(self.generate_config_struct_with(native_separator()))
    }
}

impl ArchiveMetadata {
    /// Reads the structure of an archive from the main volume that
    /// `source` gives.
    ///
    /// An error of the source is passed on. Otherwise the result is what
    /// [`ArchiveMetadata::parse`] makes of the bytes of the main volume.
    pub fn load<S: UnpackSource>(source: &S) -> (r: Result<ArchiveMetadata, DzipError>)
        ensures
            r matches Ok(meta) ==> meta.wf() && exists|bytes: Seq<u8>|
                #![auto]
                crate::metadata::parse_layout(bytes) is Ok && meta.describes(
                    crate::metadata::parse_layout(bytes)->Ok_0.0,
                    bytes.len() as int,
                ),
    {
        match source.open_main() {
            Err(e) => Err(e),
            Ok(bytes) => ArchiveMetadata::parse(bytes.as_slice()),
        }
    }
}

/// Unpacks an archive: reads its structure, reconciles its chunk table,
/// extracts every file into `sink`, and describes what it found.
///
/// The description that comes back is that of the plan made from the
/// header that was read and the chunk table reconciled with the lengths
/// of the volumes; no path of that archive is refused. Every error of a
/// step ends the operation and is the result; files that were written
/// before stay where they are.
pub fn do_unpack<S: UnpackSource, K: UnpackSink, F: Fn(ProgressEvent)>(
    source: &S,
    sink: &K,
    keep_raw: bool,
    on_progress: F,
) -> (r: Result<Config, DzipError>)
    requires
        forall|event: ProgressEvent| on_progress.requires((event,)),
    ensures
        r matches Ok(config) ==> exists|plan: UnpackPlan, bytes: Seq<u8>, lens: Seq<u64>|
            #![auto]
            plan.wf() && crate::metadata::parse_layout(bytes) is Ok && plan.metadata.describes(
                crate::metadata::parse_layout(bytes)->Ok_0.0,
                bytes.len() as int,
            ) && lens.len() == plan.metadata.split_file_names@.len() + 1 && lens[0]
                == plan.metadata.main_file_len && plan.processed_chunks@ == reconciled(
                plan.metadata.raw_chunks@,
                lens,
            ) && plan.metadata.first_refused(plan.metadata.map_entries@.len()) is None && (
            plan.describes(config, '/') || plan.describes(config, '\\')),
{
    let meta = match ArchiveMetadata::load(source) {
        Err(e) => {
            return Err(e);
        },
        Ok(meta) => meta,
    };
    let plan = match UnpackPlan::build(meta, source) {
        Err(e) => {
            return Err(e);
        },
        Ok(plan) => plan,
    };
    match plan.extract(sink, keep_raw, source, on_progress) {
        Err(e) => {
            return Err(e);
        },
        Ok(()) => {},
    }
    plan.generate_config_struct()
}

/// A file as it comes out of an archive.
#[derive(Debug, Clone, PartialEq, Eq)]
pub struct ExtractedFile {
    /// The safe relative path of the file.
    pub path: String,
    /// The bytes of the file.
    pub contents: Vec<u8>,
}

/// Whether error `e` reports that extraction stopped at `stop`.
pub open spec fn reports_chunk_fault(e: DzipError, stop: crate::extract::ChunkFault) -> bool {
    match stop.fault {
        crate::codec::CodecFault::Unsupported => e == DzipError::UnsupportedCompression(stop.flags),
        crate::codec::CodecFault::Failed => e is Decompression,
    }
}

/// The volumes of an archive that is held in memory, all fetched.
pub open spec fn held_volumes(volumes: Seq<Vec<u8>>) -> Seq<Option<Seq<u8>>> {
    volumes.map_values(|v: Vec<u8>| Some(v@))
}

/// The lengths of the volumes of an archive that is held in memory.
pub open spec fn held_lengths(volumes: Seq<Vec<u8>>) -> Seq<u64> {
    volumes.map_values(|v: Vec<u8>| v@.len() as u64)
}

impl UnpackPlan {
    /// The first reason among files `0..n` for which extraction stops, or
    /// `None` where every such file can be put together.
    pub open spec fn first_chunk_fault(
        &self,
        volumes: Seq<Option<Seq<u8>>>,
        keep_raw: bool,
        n: nat,
    ) -> Option<crate::extract::ChunkFault>
        decreases n,
    {
        if n == 0 {
            None
        } else if self.first_chunk_fault(volumes, keep_raw, (n - 1) as nat) is Some {
            self.first_chunk_fault(volumes, keep_raw, (n - 1) as nat)
        } else {
            match file_output(
                self.metadata.map_entries@[n - 1].chunk_ids@,
                self.processed_chunks@,
                volumes,
                keep_raw,
            ) {
                Err(fault) => Some(fault),
                Ok(_) => None,
            }
        }
    }

    /// Whether `files` are the files `0..n` of the archive as they come
    /// out of the given volumes: each with its safe path and its bytes.
    pub open spec fn extracted(
        &self,
        files: Seq<ExtractedFile>,
        volumes: Seq<Option<Seq<u8>>>,
        keep_raw: bool,
        sep: char,
        n: int,
    ) -> bool {
        &&& files.len() == n
        &&& forall|i: int|
            0 <= i < n ==> clean_path(self.metadata.file_path(i), sep) == Ok::<
                Seq<char>,
                PathFault,
            >((#[trigger] files[i]).path@) && file_output(
                self.metadata.map_entries@[i].chunk_ids@,
                self.processed_chunks@,
                volumes,
                keep_raw,
            ) == Ok::<Seq<u8>, crate::extract::ChunkFault>(files[i].contents@)
    }

    /// Extracts every file of an archive whose volumes are held in memory.
    ///
    /// `volumes[0]` holds the main volume and `volumes[k]` the split with
    /// index `k - 1` in the split list. Fails with `Security` for the
    /// first file whose path is refused; otherwise with the error of the
    /// first chunk, in file order, that cannot be decoded, unless
    /// `keep_raw` is set. Succeeds in every other case, with the files in
    /// file order.
    pub fn extract_all(&self, volumes: &Vec<Vec<u8>>, keep_raw: bool, sep: char) -> (r: Result<
        Vec<ExtractedFile>,
        DzipError,
    >)
        requires
            self.wf(),
            volumes@.len() == self.metadata.split_file_names@.len() + 1,
        ensures
            match self.metadata.first_refused(self.metadata.map_entries@.len()) {
                Some(fault) => r is Err && r->Err_0 is Security && r->Err_0->Security_0@
                    == fault_text(fault),
                None => match self.first_chunk_fault(
                    held_volumes(volumes@),
                    keep_raw,
                    self.metadata.map_entries@.len(),
                ) {
                    Some(stop) => r is Err && reports_chunk_fault(r->Err_0, stop),
                    None => r is Ok && self.extracted(
                        r->Ok_0@,
                        held_volumes(volumes@),
                        keep_raw,
                        sep,
                        self.metadata.map_entries@.len() as int,
                    ),
                },
            },
    {
        let n = self.metadata.map_entries.len();
        let paths = match self.output_paths(sep) {
            Err(e) => {
                return Err(e);
            },
            Ok(paths) => paths,
        };
        let cache = VolumeCache::holding(volumes);
        let mut files: Vec<ExtractedFile> = Vec::new();
        let mut i: usize = 0;
        while i < n
            invariant
                i <= n == self.metadata.map_entries@.len(),
                paths@.len() == n,
                self.wf(),
                cache@ == held_volumes(volumes@),
                volumes@.len() == self.metadata.split_file_names@.len() + 1,
                self.metadata.first_refused(n as nat) is None,
                self.first_chunk_fault(cache@, keep_raw, i as nat) is None,
                files@.len() == i,
                forall|j: int|
                    0 <= j < i ==> (#[trigger] files@[j]).path@ == paths@[j]@ && file_output(
                        self.metadata.map_entries@[j].chunk_ids@,
                        self.processed_chunks@,
                        cache@,
                        keep_raw,
                    ) == Ok::<Seq<u8>, crate::extract::ChunkFault>(files@[j].contents@),
            decreases n - i,
        {
            let contents = match self.held_file(i, &cache, keep_raw) {
                Err(e) => {
                    proof {
                        lemma_first_chunk_fault_stays(self, cache@, keep_raw, (i + 1) as nat, n as nat);
                    }
                    return Err(e);
                },
                Ok(bytes) => bytes,
            };
            files.push(ExtractedFile { path: paths[i].clone(), contents });
            i += 1;
        }
        Ok(files)
    }

    /// The bytes of file `i` of an archive whose volumes are all held.
    pub fn held_file(&self, i: usize, cache: &VolumeCache, keep_raw: bool) -> (r: Result<
        Vec<u8>,
        DzipError,
    >)
        requires
            self.wf(),
            i < self.metadata.map_entries@.len(),
            cache@.len() == self.metadata.split_file_names@.len() + 1,
            forall|w: int| 0 <= w < cache@.len() ==> (#[trigger] cache@[w]) is Some,
        ensures
            match file_output(
                self.metadata.map_entries@[i as int].chunk_ids@,
                self.processed_chunks@,
                cache@,
                keep_raw,
            ) {
                Ok(bytes) => r is Ok && r->Ok_0@ == bytes,
                Err(stop) => r is Err && reports_chunk_fault(r->Err_0, stop),
            },
    {
        let ids = &self.metadata.map_entries[i].chunk_ids;
        proof {
            assert forall|k: int|
                0 <= k < ids@.len() && (#[trigger] ids@[k]) < self.processed_chunks@.len() implies {
                let w = self.processed_chunks@[ids@[k] as int].file_idx as int;
                w < cache@.len() && cache@[w] is Some
            } by {
                let w = self.processed_chunks@[ids@[k] as int].file_idx as int;
                assert(w <= self.metadata.split_file_names@.len());
            }
        }
        assemble_file(ids, &self.processed_chunks, cache, keep_raw)
    }
}

/// What unpacking an archive in memory gives: the files and the description.
#[derive(Debug, Clone, PartialEq, Eq)]
pub struct Unpacked {
    /// The files of the archive, in file order.
    pub files: Vec<ExtractedFile>,
    /// The description of the archive.
    pub config: Config,
}

/// Whether `r` is what unpacking the volumes gives, where `plan` holds
/// the structure that the header of the main volume describes.
///
/// There must be a volume for the main file and for every name of the
/// split list: with fewer, unpacking fails with `SplitFileMissing`, and
/// with more, with `Format`. It fails with `Format` where a chunk names a
/// volume that the archive does not have, with `Security` for the first
/// file whose path is refused, and with the error of the first chunk, in
/// file order, that cannot be decoded, unless `keep_raw` is set. In every
/// other case it succeeds, with the chunk table reconciled against the
/// lengths of the volumes, the files as they come out of the volumes, and
/// the description of the plan.
pub open spec fn unpacks_as(
    plan: UnpackPlan,
    volumes: Seq<Vec<u8>>,
    keep_raw: bool,
    sep: char,
    r: Result<Unpacked, DzipError>,
) -> bool {
    let n = plan.metadata.map_entries@.len();
    if volumes.len() < plan.metadata.split_file_names@.len() + 1 {
        r is Err && r->Err_0 is SplitFileMissing
    } else if volumes.len() > plan.metadata.split_file_names@.len() + 1 {
        r is Err && r->Err_0 is Format
    } else if !volumes_known(plan.metadata.raw_chunks@, held_lengths(volumes)) {
        r is Err && r->Err_0 is Format
    } else {
        &&& plan.wf()
        &&& plan.processed_chunks@ == reconciled(plan.metadata.raw_chunks@, held_lengths(volumes))
        &&& match plan.metadata.first_refused(n) {
            Some(fault) => r is Err && r->Err_0 is Security && r->Err_0->Security_0@
                == fault_text(fault),
            None => match plan.first_chunk_fault(held_volumes(volumes), keep_raw, n) {
                Some(stop) => r is Err && reports_chunk_fault(r->Err_0, stop),
                None => r is Ok && plan.extracted(
                    r->Ok_0.files@,
                    held_volumes(volumes),
                    keep_raw,
                    sep,
                    n as int,
                ) && plan.describes(r->Ok_0.config, sep),
            },
        }
    }
}

/// Unpacks an archive whose volumes are held in memory.
///
/// `volumes[0]` holds the main volume and `volumes[k]` the split with
/// index `k - 1` in the split list; `sep` is the separator that the paths
/// of the files get. Fails as [`ArchiveMetadata::parse`] does on the main
/// volume, and then as [`unpacks_as`] says.
pub fn unpack_archive(volumes: &Vec<Vec<u8>>, keep_raw: bool, sep: char) -> (r: Result<
    Unpacked,
    DzipError,
>)
    requires
        volumes@.len() >= 1,
    ensures
        match crate::metadata::parse_layout(volumes@[0]@) {
            Err(fault) => r is Err && crate::metadata::reports(r->Err_0, fault),
            Ok((layout, _)) => exists|plan: UnpackPlan|
                #![auto]
                plan.metadata.wf() && plan.metadata.describes(layout, volumes@[0]@.len() as int)
                    && unpacks_as(plan, volumes@, keep_raw, sep, r),
        },
{
    let plan = match plan_held_archive(volumes) {
        Err(e) => {
            let r = Err(e);
            proof {
                let layout = crate::metadata::parse_layout(volumes@[0]@);
                if layout is Ok {
                    let meta = choose|meta: ArchiveMetadata|
                        meta.wf() && meta.describes(layout->Ok_0.0, volumes@[0]@.len() as int);
                    let plan = UnpackPlan { metadata: meta, processed_chunks: meta.raw_chunks };
                    lemma_same_layout_same_chunks(meta, layout->Ok_0.0, volumes@[0]@.len() as int);
                    assert(unpacks_as(plan, volumes@, keep_raw, sep, r));
                }
            }
            return r;
        },
        Ok(plan) => plan,
    };
    let r = match plan.extract_all(volumes, keep_raw, sep) {
        Err(e) => Err(e),
        Ok(files) => Ok(Unpacked { files, config: plan.generate_config_struct_with(sep) }),
    };
    proof {
        let layout = crate::metadata::parse_layout(volumes@[0]@)->Ok_0.0;
        lemma_same_layout_same_chunks(plan.metadata, layout, volumes@[0]@.len() as int);
        assert(unpacks_as(plan, volumes@, keep_raw, sep, r));
    }
    r
}

/// Whether every chunk of a layout names a volume that `count` volumes have.
pub open spec fn layout_volumes_known(layout: crate::metadata::ArchiveLayout, count: int) -> bool {
    forall|i: int| 0 <= i < layout.chunks.len() ==> (#[trigger] layout.chunks[i]).file_idx < count
}

/// A structure that describes a layout has the split names and the
/// chunks of the layout.
pub proof fn lemma_same_layout_same_chunks(
    meta: ArchiveMetadata,
    layout: crate::metadata::ArchiveLayout,
    len: int,
)
    requires
        meta.describes(layout, len),
    ensures
        meta.split_file_names@.len() == layout.split_names.len(),
        meta.raw_chunks@.len() == layout.chunks.len(),
        forall|lens: Seq<u64>|
            #![auto]
            volumes_known(meta.raw_chunks@, lens) == layout_volumes_known(layout, lens.len() as int),
{
    assert forall|lens: Seq<u64>| #![auto] volumes_known(meta.raw_chunks@, lens)
        == layout_volumes_known(layout, lens.len() as int) by {
        if volumes_known(meta.raw_chunks@, lens) {
            assert forall|i: int| 0 <= i < layout.chunks.len() implies (
            #[trigger] layout.chunks[i]).file_idx < lens.len() by {
                assert(meta.raw_chunks@[i].file_idx < lens.len());
            }
        }
        if layout_volumes_known(layout, lens.len() as int) {
            assert forall|i: int| 0 <= i < meta.raw_chunks@.len() implies (
            #[trigger] meta.raw_chunks@[i]).file_idx < lens.len() by {
                assert(layout.chunks[i].file_idx < lens.len());
            }
        }
    }
}

/// Makes the plan for an archive whose volumes are held in memory: reads
/// the header of the main volume and reconciles the chunk table against
/// the lengths of the volumes.
///
/// Fails as [`ArchiveMetadata::parse`] does on the main volume. There
/// must be a volume for the main file and for every name of the split
/// list: with fewer, the plan fails with `SplitFileMissing`, and with
/// more, with `Format`. It also fails with `Format` where a chunk names a
/// volume that the archive does not have.
pub fn plan_held_archive(volumes: &Vec<Vec<u8>>) -> (r: Result<UnpackPlan, DzipError>)
    requires
        volumes@.len() >= 1,
    ensures
        match crate::metadata::parse_layout(volumes@[0]@) {
            Err(fault) => r is Err && crate::metadata::reports(r->Err_0, fault),
            Ok((layout, _)) => {
                &&& exists|meta: ArchiveMetadata|
                    #![auto]
                    meta.wf() && meta.describes(layout, volumes@[0]@.len() as int)
                &&& if volumes@.len() < layout.split_names.len() + 1 {
                    r is Err && r->Err_0 is SplitFileMissing
                } else if volumes@.len() > layout.split_names.len() + 1 {
                    r is Err && r->Err_0 is Format
                } else if !layout_volumes_known(layout, volumes@.len() as int) {
                    r is Err && r->Err_0 is Format
                } else {
                    &&& r is Ok
                    &&& r->Ok_0.wf()
                    &&& r->Ok_0.metadata.describes(layout, volumes@[0]@.len() as int)
                    &&& r->Ok_0.processed_chunks@ == reconciled(
                        r->Ok_0.metadata.raw_chunks@,
                        held_lengths(volumes@),
                    )
                }
            },
        },
{
    let meta = match ArchiveMetadata::parse(volumes[0].as_slice()) {
        Err(e) => {
            return Err(e);
        },
        Ok(meta) => meta,
    };
    proof {
        let layout = crate::metadata::parse_layout(volumes@[0]@)->Ok_0.0;
        lemma_same_layout_same_chunks(meta, layout, volumes@[0]@.len() as int);
    }
    let needed = meta.split_file_names.len() + 1;
    if volumes.len() < needed {
        return Err(DzipError::SplitFileMissing(meta.split_file_names[volumes.len() - 1].clone()));
    }
    if volumes.len() > needed {
        return Err(DzipError::Format(String::from_str("more volumes than the header names")));
    }
    let mut lens: Vec<u64> = Vec::new();
    let mut v: usize = 0;
    while v < volumes.len()
        invariant
            v <= volumes@.len(),
            lens@.len() == v,
            forall|w: int| 0 <= w < v ==> (#[trigger] lens@[w]) == volumes@[w]@.len(),
        decreases volumes@.len() - v,
    {
        lens.push(volumes[v].len() as u64);
        v += 1;
    }
    assert(lens@ =~= held_lengths(volumes@));
    UnpackPlan::from_volume_lengths(meta, &lens)
}

/// Once a file could not be put together, the files behind it change nothing.
pub proof fn lemma_first_chunk_fault_stays(
    plan: &UnpackPlan,
    volumes: Seq<Option<Seq<u8>>>,
    keep_raw: bool,
    n: nat,
    m: nat,
)
    requires
        n <= m,
        plan.first_chunk_fault(volumes, keep_raw, n) is Some,
    ensures
        plan.first_chunk_fault(volumes, keep_raw, m) == plan.first_chunk_fault(volumes, keep_raw, n),
    decreases m,
{
    if n < m {
        lemma_first_chunk_fault_stays(plan, volumes, keep_raw, n, (m - 1) as nat);
    }
}

/// Once a path has been refused, looking at more files changes nothing.
pub proof fn lemma_first_refused_stays(meta: &ArchiveMetadata, n: nat, m: nat)
    requires
        n <= m,
        meta.first_refused(n) is Some,
    ensures
        meta.first_refused(m) == meta.first_refused(n),
    decreases m,
{
    if n < m {
        lemma_first_refused_stays(meta, n, (m - 1) as nat);
    }
}

} // verus!
