//! From chunks to file contents.
//!
//! The bytes of a file are the decompressed payloads of its chunks, one
//! behind the other. This module says what they are for given volumes, and
//! computes them for volumes that are fetched only when a chunk asks.

use crate::codec::{decompress, decompressed, is_outcome, CodecFault};
use crate::error::DzipError;
use crate::format::CHUNK_DZ;
use crate::io::UnpackSource;
use crate::metadata::RawChunk;
use vstd::prelude::*;
use vstd::slice::slice_subrange;

verus! {

/// The stored bytes of a chunk: what lies in its volume from its offset
/// on, as many bytes as the reconciler found, cut off at the end of the
/// volume.
pub open spec fn payload_of(volume: Seq<u8>, chunk: RawChunk) -> Seq<u8> {
    let start = if chunk.offset <= volume.len() {
        chunk.offset as int
    } else {
        volume.len() as int
    };
    let end = if chunk.offset + chunk.real_c_len <= volume.len() {
        chunk.offset + chunk.real_c_len
    } else {
        volume.len() as int
    };
    volume.subrange(start, end)
}

/// What a chunk contributes to its file: the decompressed payload; or,
/// where the codec fails or is not supported and raw data is to be kept,
/// the payload as it is stored.
pub open spec fn recovered(
    payload: Seq<u8>,
    decoded: Result<Seq<u8>, CodecFault>,
    keep_raw: bool,
) -> Result<Seq<u8>, CodecFault> {
    match decoded {
        Ok(bytes) => Ok(bytes),
        Err(fault) => if keep_raw {
            Ok(payload)
        } else {
            Err(fault)
        },
    }
}

/// What a chunk contributes to its file, given the volume it lies in.
pub open spec fn chunk_output(volume: Seq<u8>, chunk: RawChunk, keep_raw: bool) -> Result<
    Seq<u8>,
    CodecFault,
> {
    recovered(payload_of(volume, chunk), decompressed(payload_of(volume, chunk), chunk.flags), keep_raw)
}

/// The stored bytes of a chunk.
pub fn read_payload<'a>(volume: &'a [u8], chunk: &RawChunk) -> (payload: &'a [u8])
    ensures
        payload@ == payload_of(volume@, *chunk),
{
    let len = volume.len();
    let offset = chunk.offset as u64;
    let start: usize = if offset <= len as u64 {
        offset as usize
    } else {
        len
    };
    let stop = offset + chunk.real_c_len as u64;
    let end: usize = if stop <= len as u64 {
        stop as usize
    } else {
        len
    };
    slice_subrange(volume, start, end)
}

/// Decides what becomes of a chunk once its codec has run.
///
/// A decoded chunk is passed on. For a chunk that could not be decoded,
/// the stored bytes take its place where `keep_raw` is set; otherwise the
/// error of the codec is the result.
pub fn recover_chunk(payload: &[u8], decoded: Result<Vec<u8>, DzipError>, keep_raw: bool) -> (r:
    Result<Vec<u8>, DzipError>)
    ensures
        decoded is Ok ==> r == decoded,
        decoded is Err && keep_raw ==> r is Ok && r->Ok_0@ == payload@,
        decoded is Err && !keep_raw ==> r == decoded,
{
    match decoded {
        Ok(bytes) => Ok(bytes),
        Err(error) => if keep_raw {
            Ok(vstd::slice::slice_to_vec(payload))
        } else {
            Err(error)
        },
    }
}

/// What a chunk contributes to its file, given the volume it lies in.
pub fn extract_chunk(volume: &[u8], chunk: &RawChunk, keep_raw: bool) -> (r: Result<
    Vec<u8>,
    DzipError,
>)
    ensures
        is_outcome(r, chunk_output(volume@, *chunk, keep_raw), chunk.flags, true),
{
    let payload = read_payload(volume, chunk);
    let decoded = decompress(payload, chunk.flags, chunk.d_len);
    recover_chunk(payload, decoded, keep_raw)
}

/// A range-coded chunk cannot be decoded; with `keep_raw` it contributes
/// its stored bytes, and without it the file cannot be extracted.
pub proof fn lemma_range_chunk_output(volume: Seq<u8>, chunk: RawChunk, keep_raw: bool)
    requires
        chunk.flags & crate::format::CHUNK_CODEC_MASK == CHUNK_DZ,
    ensures
        keep_raw ==> chunk_output(volume, chunk, keep_raw) == Ok::<Seq<u8>, CodecFault>(
            payload_of(volume, chunk),
        ),
        !keep_raw ==> chunk_output(volume, chunk, keep_raw) == Err::<Seq<u8>, CodecFault>(
            CodecFault::Unsupported,
        ),
{
}

/// The volumes that one worker has fetched so far, by volume index.
///
/// A cache starts empty and is filled when a chunk first asks for a
/// volume; what it holds is never replaced.
pub struct VolumeCache {
    volumes: Vec<Option<Vec<u8>>>,
}

impl View for VolumeCache {
    type V = Seq<Option<Seq<u8>>>;

    closed spec fn view(&self) -> Seq<Option<Seq<u8>>> {
        self.volumes@.map_values(|v: Option<Vec<u8>>| crate::codec::bytes_of(v))
    }
}

/// Whether `after` holds everything that `before` holds.
pub open spec fn extends(before: Seq<Option<Seq<u8>>>, after: Seq<Option<Seq<u8>>>) -> bool {
    &&& after.len() == before.len()
    &&& forall|v: int| 0 <= v < before.len() && before[v] is Some ==> after[v] == before[v]
}

/// The bytes of volume `v`; a volume that was not fetched reads as empty.
pub open spec fn volume_at(volumes: Seq<Option<Seq<u8>>>, v: int) -> Seq<u8> {
    if 0 <= v < volumes.len() && volumes[v] is Some {
        volumes[v]->0
    } else {
        Seq::empty()
    }
}

impl VolumeCache {
    /// An empty cache for an archive of `count` volumes.
    pub fn new(count: usize) -> (cache: Self)
        ensures
            cache@.len() == count,
            forall|v: int| 0 <= v < count ==> cache@[v] is None,
    {
        let mut volumes: Vec<Option<Vec<u8>>> = Vec::new();
        let mut k: usize = 0;
        while k < count
            invariant
                k <= count,
                volumes@.len() == k,
                forall|v: int| 0 <= v < k ==> volumes@[v] is None,
            decreases count - k,
        {
            volumes.push(None);
            k += 1;
        }
        Self { volumes }
    }

    /// A cache that holds all the volumes of an archive.
    pub fn holding(volumes: &Vec<Vec<u8>>) -> (cache: Self)
        ensures
            cache@ == volumes@.map_values(|v: Vec<u8>| Some(v@)),
    {
        let mut cache = Self::new(volumes.len());
        let mut v: usize = 0;
        while v < volumes.len()
            invariant
                v <= volumes@.len(),
                cache@.len() == volumes@.len(),
                forall|w: int| 0 <= w < v ==> (#[trigger] cache@[w]) == Some(volumes@[w]@),
                forall|w: int| v <= w < volumes@.len() ==> (#[trigger] cache@[w]) is None,
            decreases volumes@.len() - v,
        {
            cache.store(v, volumes[v].clone());
            v += 1;
        }
        assert(cache@ =~= volumes@.map_values(|v: Vec<u8>| Some(v@)));
        cache
    }

    /// How many volumes the archive has.
    pub fn len(&self) -> (n: usize)
        ensures
            n == self@.len(),
    {
        self.volumes.len()
    }

    /// Whether volume `v` has been fetched.
    pub fn has(&self, v: usize) -> (b: bool)
        ensures
            b == (v < self@.len() && self@[v as int] is Some),
    {
        v < self.volumes.len() && self.volumes[v].is_some()
    }

    /// The bytes of volume `v`.
    pub fn get(&self, v: usize) -> (bytes: &[u8])
        requires
            v < self@.len(),
            self@[v as int] is Some,
        ensures
            bytes@ == self@[v as int]->0,
    {
        match &self.volumes[v] {
            Some(bytes) => bytes.as_slice(),
            None => {
                let empty: &[u8] = &[];
                empty
            },
        }
    }

    /// Puts the bytes of volume `v` into the cache, unless the cache holds
    /// that volume already.
    pub fn store(&mut self, v: usize, bytes: Vec<u8>)
        requires
            v < old(self)@.len(),
        ensures
            extends(old(self)@, final(self)@),
            final(self)@[v as int] is Some,
            old(self)@[v as int] is None ==> final(self)@ == old(self)@.update(
                v as int,
                Some(bytes@),
            ),
    {
        if self.volumes[v].is_none() {
            self.volumes.set(v, Some(bytes));
            assert(self@ =~= old(self)@.update(v as int, Some(bytes@)));
        }
    }

    /// Makes sure that volume `v` is in the cache, fetching it from
    /// `source` where it is not: volume 0 is the main volume, volume `k`
    /// the split that `split_names` lists at `k - 1`.
    ///
    /// Fails with whatever the source reports. Nothing is fetched for a
    /// volume that the cache holds.
    pub fn ensure_loaded<S: UnpackSource>(
        &mut self,
        v: usize,
        split_names: &Vec<String>,
        source: &S,
    ) -> (r: Result<(), DzipError>)
        requires
            v < old(self)@.len(),
            old(self)@.len() == split_names@.len() + 1,
        ensures
            extends(old(self)@, final(self)@),
            r is Ok ==> final(self)@[v as int] is Some,
            old(self)@[v as int] is Some ==> r is Ok && final(self)@ == old(self)@,
    {
        if self.has(v) {
            return Ok(());
        }
        let fetched = if v == 0 {
            source.open_main()
        } else {
            source.open_split(split_names[v - 1].as_str())
        };
        match fetched {
            Err(e) => Err(e),
            Ok(bytes) => {
                self.store(v, bytes);
                Ok(())
            },
        }
    }
}

/// Where the extraction of a file stopped: the flag word of the chunk
/// that could not be decoded, and why.
pub struct ChunkFault {
    pub flags: u16,
    pub fault: CodecFault,
}

/// The bytes of a file: what its chunks contribute, in the order of its
/// chunk list. Ids that the chunk table does not have are passed over. The
/// first chunk that cannot be decoded ends the extraction.
pub open spec fn file_output(
    ids: Seq<u16>,
    chunks: Seq<RawChunk>,
    volumes: Seq<Option<Seq<u8>>>,
    keep_raw: bool,
) -> Result<Seq<u8>, ChunkFault>
    decreases ids.len(),
{
    if ids.len() == 0 {
        Ok(Seq::empty())
    } else {
        match file_output(ids.drop_last(), chunks, volumes, keep_raw) {
            Err(fault) => Err(fault),
            Ok(before) => {
                let id = ids.last() as int;
                if id >= chunks.len() {
                    Ok(before)
                } else {
                    let chunk = chunks[id];
                    match chunk_output(
                        volume_at(volumes, chunk.file_idx as int),
                        chunk,
                        keep_raw,
                    ) {
                        Ok(bytes) => Ok(before + bytes),
                        Err(fault) => Err(ChunkFault { flags: chunk.flags, fault }),
                    }
                }
            },
        }
    }
}

/// Whether every chunk of a file lies in a volume that has been fetched.
pub open spec fn volumes_loaded(
    ids: Seq<u16>,
    chunks: Seq<RawChunk>,
    volumes: Seq<Option<Seq<u8>>>,
) -> bool {
    forall|k: int|
        0 <= k < ids.len() && (#[trigger] ids[k]) < chunks.len() ==> {
            let v = chunks[ids[k] as int].file_idx as int;
            v < volumes.len() && volumes[v] is Some
        }
}

/// Whether `r` is outcome `expected` of a file extraction.
pub open spec fn is_file_outcome(
    r: Result<Vec<u8>, DzipError>,
    expected: Result<Seq<u8>, ChunkFault>,
) -> bool {
    match expected {
        Ok(bytes) => r is Ok && r->Ok_0@ == bytes,
        Err(stop) => is_outcome(r, Err(stop.fault), stop.flags, true),
    }
}

/// A file without chunks is empty.
pub proof fn lemma_file_without_chunks(
    chunks: Seq<RawChunk>,
    volumes: Seq<Option<Seq<u8>>>,
    keep_raw: bool,
)
    ensures
        file_output(Seq::empty(), chunks, volumes, keep_raw) == Ok::<Seq<u8>, ChunkFault>(
            Seq::empty(),
        ),
{
}

/// The stored bytes of the chunks of a file, one behind the other.
pub open spec fn raw_payloads(
    ids: Seq<u16>,
    chunks: Seq<RawChunk>,
    volumes: Seq<Option<Seq<u8>>>,
) -> Seq<u8>
    decreases ids.len(),
{
    if ids.len() == 0 {
        Seq::empty()
    } else if ids.last() >= chunks.len() {
        raw_payloads(ids.drop_last(), chunks, volumes)
    } else {
        raw_payloads(ids.drop_last(), chunks, volumes) + payload_of(
            volume_at(volumes, chunks[ids.last() as int].file_idx as int),
            chunks[ids.last() as int],
        )
    }
}

/// A file whose chunks are all range-coded is extracted, with raw data
/// kept, as the stored bytes of its chunks.
pub proof fn lemma_range_file_keeps_raw(
    ids: Seq<u16>,
    chunks: Seq<RawChunk>,
    volumes: Seq<Option<Seq<u8>>>,
)
    requires
        forall|k: int|
            0 <= k < ids.len() && (#[trigger] ids[k]) < chunks.len() ==> chunks[ids[k] as int].flags
                & crate::format::CHUNK_CODEC_MASK == CHUNK_DZ,
    ensures
        file_output(ids, chunks, volumes, true) == Ok::<Seq<u8>, ChunkFault>(
            raw_payloads(ids, chunks, volumes),
        ),
    decreases ids.len(),
{
    if ids.len() > 0 {
        let init = ids.drop_last();
        assert forall|k: int| 0 <= k < init.len() && (#[trigger] init[k]) < chunks.len() implies
            chunks[init[k] as int].flags & crate::format::CHUNK_CODEC_MASK == CHUNK_DZ by {
            assert(init[k] == ids[k]);
        }
        lemma_range_file_keeps_raw(init, chunks, volumes);
        if ids.last() < chunks.len() {
            let chunk = chunks[ids.last() as int];
            assert(ids[ids.len() - 1] == ids.last());
            lemma_range_chunk_output(volume_at(volumes, chunk.file_idx as int), chunk, true);
        }
    }
}

/// Puts the bytes of a file together from volumes that have been fetched.
///
/// `ids` is the chunk list of the file and `chunks` the reconciled chunk
/// table. Fails with the error of the first chunk that cannot be decoded,
/// unless `keep_raw` is set.
pub fn assemble_file(ids: &Vec<u16>, chunks: &Vec<RawChunk>, cache: &VolumeCache, keep_raw: bool) -> (r:
    Result<Vec<u8>, DzipError>)
    requires
        volumes_loaded(ids@, chunks@, cache@),
    ensures
        is_file_outcome(r, file_output(ids@, chunks@, cache@, keep_raw)),
{
    let mut out: Vec<u8> = Vec::new();
    let mut k: usize = 0;
    proof {
        assert(ids@.take(0) =~= Seq::empty());
    }
    while k < ids.len()
        invariant
            k <= ids@.len(),
            volumes_loaded(ids@, chunks@, cache@),
            file_output(ids@.take(k as int), chunks@, cache@, keep_raw) == Ok::<
                Seq<u8>,
                ChunkFault,
            >(out@),
        decreases ids@.len() - k,
    {
        let id = ids[k] as usize;
        proof {
            assert(ids@.take(k + 1).drop_last() =~= ids@.take(k as int));
            assert(ids@.take(k + 1).last() == ids@[k as int]);
        }
        if id < chunks.len() {
            let chunk = &chunks[id];
            let volume = cache.get(chunk.file_idx as usize);
            match extract_chunk(volume, chunk, keep_raw) {
                Err(e) => {
                    proof {
                        lemma_file_output_stops(ids@, k + 1, chunks@, cache@, keep_raw);
                    }
                    return Err(e);
                },
                Ok(bytes) => {
                    crate::bytes::append_bytes(&mut out, bytes.as_slice());
                },
            }
        }
        k += 1;
    }
    proof {
        assert(ids@.take(ids@.len() as int) =~= ids@);
    }
    Ok(out)
}

/// Once a chunk could not be decoded, the chunks behind it change nothing.
pub proof fn lemma_file_output_stops(
    ids: Seq<u16>,
    k: int,
    chunks: Seq<RawChunk>,
    volumes: Seq<Option<Seq<u8>>>,
    keep_raw: bool,
)
    requires
        0 <= k <= ids.len(),
        file_output(ids.take(k), chunks, volumes, keep_raw) is Err,
    ensures
        file_output(ids, chunks, volumes, keep_raw) == file_output(
            ids.take(k),
            chunks,
            volumes,
            keep_raw,
        ),
    decreases ids.len() - k,
{
    if k < ids.len() {
        assert(ids.take(k + 1).drop_last() =~= ids.take(k));
        lemma_file_output_stops(ids, k + 1, chunks, volumes, keep_raw);
    } else {
        assert(ids.take(k) =~= ids);
    }
}

/// What a file comes to depends only on the volumes that its chunks lie
/// in: fetching more volumes changes nothing.
pub proof fn lemma_file_output_frame(
    ids: Seq<u16>,
    chunks: Seq<RawChunk>,
    before: Seq<Option<Seq<u8>>>,
    after: Seq<Option<Seq<u8>>>,
    keep_raw: bool,
)
    requires
        extends(before, after),
        volumes_loaded(ids, chunks, before),
    ensures
        file_output(ids, chunks, after, keep_raw) == file_output(ids, chunks, before, keep_raw),
    decreases ids.len(),
{
    if ids.len() > 0 {
        let init = ids.drop_last();
        assert forall|k: int| 0 <= k < init.len() && (#[trigger] init[k]) < chunks.len() implies {
            let v = chunks[init[k] as int].file_idx as int;
            v < before.len() && before[v] is Some
        } by {
            assert(init[k] == ids[k]);
        }
        lemma_file_output_frame(init, chunks, before, after, keep_raw);
        if ids.last() < chunks.len() {
            assert(ids[ids.len() - 1] == ids.last());
        }
    }
}

} // verus!
