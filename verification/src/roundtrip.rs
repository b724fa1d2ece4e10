//! What packing and unpacking have to do with each other.
//!
//! Reading back what was packed gives what went in: the header that
//! packing writes parses to the structure it was written from, the
//! reconciler finds for every chunk exactly the bytes that packing laid
//! down, and a file that is put together from those chunks is the file
//! that was packed.

use crate::codec::{codec_of, decompressed, Codec, CodecFault};
use crate::extract::{chunk_output, file_output, payload_of, volume_at, ChunkFault};
use crate::format::ChunkDiskEntry;
use crate::metadata::{
    layout_bytes, lemma_header_size, lemma_parse_stored_layout, parse_layout, storable,
    ArchiveLayout, ParseFault, RawChunk,
};
use crate::model::{Config, FileEntry};
use crate::pack::{
    chunk_data, chunk_sources, chunk_volumes, def_at, def_flags, file_ids, first_missing,
    ids_offset, lemma_header_size_of_table, pack_fault, packed_header_size, packed_layout,
    packed_table, packed_volume, passes_limit, payloads_of, placed_offset, read_lens,
    sources_in_file, sources_of, volume_fill, SourceRange,
};
use crate::bytes::text_bytes;
use crate::layout::{nul_free, terminator_free};
use crate::pack::{dir_key, dir_table};
use crate::reconcile::{follows, is_limit, lemma_limit_of, limit_of, real_len, reconciled};
use crate::unpack::UnpackPlan;
use vstd::prelude::*;

verus! {

/// What a volume holds only grows as more chunks are written, and what
/// was written stays where it is.
pub proof fn lemma_fill_grows(vols: Seq<u16>, payloads: Seq<Seq<u8>>, v: int, a: nat, b: nat)
    requires
        a <= b,
    ensures
        volume_fill(vols, payloads, v, a).len() <= volume_fill(vols, payloads, v, b).len(),
        volume_fill(vols, payloads, v, b).subrange(
            0,
            volume_fill(vols, payloads, v, a).len() as int,
        ) == volume_fill(vols, payloads, v, a),
    decreases b,
{
    let fa = volume_fill(vols, payloads, v, a);
    if a < b {
        lemma_fill_grows(vols, payloads, v, a, (b - 1) as nat);
        let fb1 = volume_fill(vols, payloads, v, (b - 1) as nat);
        let fb = volume_fill(vols, payloads, v, b);
        assert(fb.subrange(0, fa.len() as int) =~= fb1.subrange(0, fa.len() as int));
    } else {
        assert(fa.subrange(0, fa.len() as int) =~= fa);
    }
}

/// The payload of a chunk lies in its volume behind the payloads of the
/// chunks of the same volume that have a smaller id.
pub proof fn lemma_fill_holds_payload(vols: Seq<u16>, payloads: Seq<Seq<u8>>, p: int, n: nat)
    requires
        0 <= p < n,
    ensures
        ({
            let v = vols[p] as int;
            let before = volume_fill(vols, payloads, v, p as nat).len() as int;
            let all = volume_fill(vols, payloads, v, n);
            &&& before + payloads[p].len() <= all.len()
            &&& all.subrange(before, before + payloads[p].len()) == payloads[p]
        }),
{
    let v = vols[p] as int;
    let f0 = volume_fill(vols, payloads, v, p as nat);
    let f1 = volume_fill(vols, payloads, v, (p + 1) as nat);
    let all = volume_fill(vols, payloads, v, n);
    assert(f1 == f0 + payloads[p]);
    lemma_fill_grows(vols, payloads, v, (p + 1) as nat, n);
    let a = f0.len() as int;
    let b = a + payloads[p].len();
    assert(all.subrange(a, b) =~= all.subrange(0, f1.len() as int).subrange(a, b));
    assert(f1.subrange(a, b) =~= payloads[p]);
}

/// Where no chunk between `a` and `b` lies in volume `v`, the volume holds
/// at `b` what it held at `a`.
pub proof fn lemma_fill_skips(vols: Seq<u16>, payloads: Seq<Seq<u8>>, v: int, a: nat, b: nat)
    requires
        a <= b,
        forall|q: int| a <= q < b ==> vols[q] != v,
    ensures
        volume_fill(vols, payloads, v, b) == volume_fill(vols, payloads, v, a),
    decreases b,
{
    if a < b {
        lemma_fill_skips(vols, payloads, v, a, (b - 1) as nat);
    }
}

/// A chunk ends before any chunk of the same volume with a larger id starts.
pub proof fn lemma_placed_in_order(
    header_len: int,
    vols: Seq<u16>,
    payloads: Seq<Seq<u8>>,
    p: int,
    q: int,
)
    requires
        0 <= p < q,
        vols[p] == vols[q],
    ensures
        placed_offset(header_len, vols, payloads, p) + payloads[p].len() <= placed_offset(
            header_len,
            vols,
            payloads,
            q,
        ),
{
    let v = vols[p] as int;
    lemma_fill_grows(vols, payloads, v, (p + 1) as nat, q as nat);
}

/// The first chunk behind `p` that lies in the same volume as `p`, where
/// `j` is such a chunk.
pub proof fn lemma_next_in_volume(vols: Seq<u16>, p: int, j: int) -> (next: int)
    requires
        0 <= p < j,
        vols[j] == vols[p],
    ensures
        p < next <= j,
        vols[next] == vols[p],
        forall|q: int| p < q < next ==> vols[q] != vols[p],
    decreases j - p,
{
    if exists|q: int| p < q < j && vols[q] == vols[p] {
        let q = choose|q: int| p < q < j && vols[q] == vols[p];
        lemma_next_in_volume(vols, p, q)
    } else {
        j
    }
}

/// How many bytes precede the payloads of volume `v`: the header region in
/// the main volume, nothing in a split.
pub open spec fn volume_base(header_len: int, v: int) -> int {
    if v == 0 {
        header_len
    } else {
        0
    }
}

/// Whether `chunks` is a chunk table that records where the payloads lie
/// when they are laid out behind a header of `header_len` bytes, and
/// `lens` holds the lengths of the volumes that come of it.
pub open spec fn laid_out(
    chunks: Seq<RawChunk>,
    lens: Seq<u64>,
    header_len: int,
    vols: Seq<u16>,
    payloads: Seq<Seq<u8>>,
) -> bool {
    &&& chunks.len() == vols.len()
    &&& chunks.len() == payloads.len()
    &&& forall|p: int|
        0 <= p < chunks.len() ==> {
            &&& (#[trigger] chunks[p]).offset == placed_offset(header_len, vols, payloads, p)
            &&& chunks[p]._head_c_len == payloads[p].len()
            &&& chunks[p].file_idx == vols[p]
            &&& vols[p] < lens.len()
        }
    &&& forall|v: int|
        0 <= v < lens.len() ==> (#[trigger] lens[v]) == volume_base(header_len, v) + volume_fill(
            vols,
            payloads,
            v,
            payloads.len(),
        ).len()
}

/// In a table that packing laid out, the payload of every chunk ends
/// exactly at its limit: where the next chunk of its volume starts, or
/// where the volume ends.
pub proof fn lemma_limit_of_laid_out(
    chunks: Seq<RawChunk>,
    lens: Seq<u64>,
    header_len: int,
    vols: Seq<u16>,
    payloads: Seq<Seq<u8>>,
    p: int,
)
    requires
        laid_out(chunks, lens, header_len, vols, payloads),
        0 <= p < chunks.len(),
    ensures
        limit_of(chunks, lens, p) == chunks[p].offset + chunks[p]._head_c_len,
        reconciled(chunks, lens)[p].real_c_len == chunks[p]._head_c_len,
        reconciled(chunks, lens)[p].offset == chunks[p].offset,
{
    let n = chunks.len();
    let v = vols[p] as int;
    let end = chunks[p].offset + chunks[p]._head_c_len;
    assert forall|j: int| follows(chunks, p, j) implies p < j && end <= chunks[j].offset by {
        assert(vols[j] == vols[p]);
        if j < p {
            lemma_placed_in_order(header_len, vols, payloads, j, p);
        } else {
            lemma_placed_in_order(header_len, vols, payloads, p, j);
        }
    }
    if exists|j: int| follows(chunks, p, j) {
        let j = choose|j: int| follows(chunks, p, j);
        let next = lemma_next_in_volume(vols, p, j);
        lemma_fill_skips(vols, payloads, v, (p + 1) as nat, next as nat);
        assert(chunks[next].offset == end);
        assert(follows(chunks, p, next));
        assert(is_limit(chunks, lens, p, end));
    } else {
        assert forall|q: int| p + 1 <= q < n implies vols[q] != v by {
            if vols[q] == v {
                lemma_placed_in_order(header_len, vols, payloads, p, q);
                assert(follows(chunks, p, q));
            }
        }
        lemma_fill_skips(vols, payloads, v, (p + 1) as nat, n);
        assert(lens[v] == end);
        assert(is_limit(chunks, lens, p, end));
    }
    lemma_limit_of(chunks, lens, p);
    assert(real_len(chunks[p], end) == chunks[p]._head_c_len);
}

/// In a table that packing laid out, the reconciler finds for every chunk
/// exactly the bytes that were laid down for it.
pub proof fn lemma_payload_of_laid_out(
    chunks: Seq<RawChunk>,
    lens: Seq<u64>,
    header: Seq<u8>,
    vols: Seq<u16>,
    payloads: Seq<Seq<u8>>,
    p: int,
)
    requires
        laid_out(chunks, lens, header.len() as int, vols, payloads),
        0 <= p < chunks.len(),
    ensures
        ({
            let v = vols[p] as int;
            let fill = volume_fill(vols, payloads, v, payloads.len());
            let volume = if v == 0 {
                header + fill
            } else {
                fill
            };
            payload_of(volume, reconciled(chunks, lens)[p]) == payloads[p]
        }),
{
    let v = vols[p] as int;
    let h = header.len() as int;
    let n = payloads.len();
    let fill = volume_fill(vols, payloads, v, n);
    let volume = if v == 0 {
        header + fill
    } else {
        fill
    };
    let chunk = reconciled(chunks, lens)[p];
    lemma_limit_of_laid_out(chunks, lens, h, vols, payloads, p);
    lemma_fill_holds_payload(vols, payloads, p, n);
    let before = volume_fill(vols, payloads, v, p as nat).len() as int;
    let base = volume_base(h, v);
    assert(chunk.offset == base + before);
    assert(chunk.real_c_len == payloads[p].len());
    assert(volume.len() == base + fill.len());
    assert(volume.subrange(base + before, base + before + payloads[p].len()) =~= fill.subrange(
        before,
        before + payloads[p].len(),
    ));
}

/// Whether every chunk id occurs at one place of one chunk list only.
pub open spec fn listed_once(files: Seq<Seq<u16>>) -> bool {
    forall|f: int, k: int, g: int, j: int|
        0 <= f < files.len() && 0 <= k < files[f].len() && 0 <= g < files.len() && 0 <= j
            < files[g].len() && #[trigger] files[f][k] == #[trigger] files[g][j] ==> f == g && k
            == j
}

/// The part of its file that the chunk at place `k` of the chunk list
/// `ids` of file `f` is made from.
pub open spec fn range_at(f: int, ids: Seq<u16>, lens: Seq<u32>, k: int) -> SourceRange {
    SourceRange { file: f, start: ids_offset(ids, lens, k as nat), len: lens[ids[k] as int] as int }
}

/// Laying out the first `m` chunks of a file gives each of them its part
/// of the file and leaves the source of every other chunk as it was.
pub proof fn lemma_sources_in_file(
    before: Seq<Option<SourceRange>>,
    f: int,
    ids: Seq<u16>,
    lens: Seq<u32>,
    m: nat,
)
    requires
        m <= ids.len(),
        forall|k: int| 0 <= k < ids.len() ==> ids[k] < before.len(),
        forall|k: int, j: int| 0 <= k < j < ids.len() ==> ids[k] != ids[j],
    ensures
        sources_in_file(before, f, ids, lens, m).len() == before.len(),
        forall|k: int|
            0 <= k < m ==> sources_in_file(before, f, ids, lens, m)[(#[trigger] ids[k]) as int]
                == Some(range_at(f, ids, lens, k)),
        forall|id: int|
            0 <= id < before.len() && (forall|k: int| 0 <= k < m ==> ids[k] != id)
                ==> #[trigger] sources_in_file(before, f, ids, lens, m)[id] == before[id],
    decreases m,
{
    if m > 0 {
        lemma_sources_in_file(before, f, ids, lens, (m - 1) as nat);
        let prev = sources_in_file(before, f, ids, lens, (m - 1) as nat);
        let now = sources_in_file(before, f, ids, lens, m);
        assert(now == prev.update(ids[m - 1] as int, Some(range_at(f, ids, lens, m - 1))));
        assert forall|k: int| 0 <= k < m implies now[(#[trigger] ids[k]) as int] == Some(
            range_at(f, ids, lens, k),
        ) by {
            if k < m - 1 {
                assert(ids[k] != ids[m - 1]);
            }
        }
    }
}

/// Where every chunk is listed once, each chunk is made from the part of
/// the file that lists it, at the place where the file lists it.
pub proof fn lemma_sources_of(files: Seq<Seq<u16>>, lens: Seq<u32>, n: nat, f: int, k: int)
    requires
        n <= files.len(),
        listed_once(files),
        forall|g: int, j: int|
            0 <= g < files.len() && 0 <= j < files[g].len() ==> (#[trigger] files[g][j])
                < lens.len(),
        0 <= f < n,
        0 <= k < files[f].len(),
    ensures
        sources_of(files, lens, n).len() == lens.len(),
        sources_of(files, lens, n)[files[f][k] as int] == Some(range_at(f, files[f], lens, k)),
    decreases n,
{
    lemma_sources_len(files, lens, n);
    let last = n - 1;
    let before = sources_of(files, lens, last as nat);
    lemma_sources_len(files, lens, last as nat);
    assert forall|a: int, b: int| 0 <= a < b < files[last].len() implies files[last][a]
        != files[last][b] by {
        if files[last][a] == files[last][b] {
            assert(a == b);
        }
    }
    lemma_sources_in_file(before, last, files[last], lens, files[last].len());
    if f == last {
    } else {
        lemma_sources_of(files, lens, last as nat, f, k);
        let id = files[f][k] as int;
        assert forall|j: int| 0 <= j < files[last].len() implies files[last][j] != id by {
            if files[last][j] == id {
                assert(files[f][k] == files[last][j]);
            }
        }
    }
}

/// There is a source, or none, for every chunk.
pub proof fn lemma_sources_len(files: Seq<Seq<u16>>, lens: Seq<u32>, n: nat)
    requires
        n <= files.len(),
        forall|g: int, j: int|
            0 <= g < files.len() && 0 <= j < files[g].len() ==> (#[trigger] files[g][j])
                < lens.len(),
    ensures
        sources_of(files, lens, n).len() == lens.len(),
    decreases n,
{
    if n > 0 {
        lemma_sources_len(files, lens, (n - 1) as nat);
        lemma_sources_in_file_len(
            sources_of(files, lens, (n - 1) as nat),
            n - 1,
            files[n - 1],
            lens,
            files[n - 1].len(),
        );
    }
}

/// Laying out the chunks of a file changes no source of a chunk that is
/// not there.
pub proof fn lemma_sources_in_file_len(
    before: Seq<Option<SourceRange>>,
    f: int,
    ids: Seq<u16>,
    lens: Seq<u32>,
    m: nat,
)
    requires
        m <= ids.len(),
        forall|k: int| 0 <= k < ids.len() ==> ids[k] < before.len(),
    ensures
        sources_in_file(before, f, ids, lens, m).len() == before.len(),
    decreases m,
{
    if m > 0 {
        lemma_sources_in_file_len(before, f, ids, lens, (m - 1) as nat);
    }
}

/// The chunks of a file start one behind the other.
pub proof fn lemma_ids_offset_grows(ids: Seq<u16>, lens: Seq<u32>, a: nat, b: nat)
    requires
        a <= b,
    ensures
        0 <= ids_offset(ids, lens, a) <= ids_offset(ids, lens, b),
    decreases b,
{
    if a < b {
        lemma_ids_offset_grows(ids, lens, a, (b - 1) as nat);
    } else if a > 0 {
        lemma_ids_offset_grows(ids, lens, (a - 1) as nat, (a - 1) as nat);
    }
}

/// The chunk table as loading an archive gives it: every record with its
/// place in the table as its id, before reconciliation.
pub open spec fn loaded_chunks(table: Seq<ChunkDiskEntry>) -> Seq<RawChunk> {
    Seq::new(table.len(), |p: int| RawChunk::spec_from_disk(p as u16, table[p]))
}

/// The lengths of the volumes of the packed archive.
pub open spec fn packed_lens(config: Config, contents: Seq<Seq<u8>>) -> Seq<u64> {
    Seq::new(
        (config.archive_files@.len() + 1) as nat,
        |v: int| packed_volume(config, contents, v).len() as u64,
    )
}

/// The volumes of the packed archive, all fetched.
pub open spec fn packed_volumes(config: Config, contents: Seq<Seq<u8>>) -> Seq<Option<Seq<u8>>> {
    Seq::new(
        (config.archive_files@.len() + 1) as nat,
        |v: int| Some(packed_volume(config, contents, v)),
    )
}

/// The chunk table of the packed archive as unpacking works with it:
/// loaded and reconciled against the lengths of the packed volumes.
pub open spec fn unpacked_chunks(config: Config, contents: Seq<Seq<u8>>) -> Seq<RawChunk> {
    reconciled(loaded_chunks(packed_table(config, contents)), packed_lens(config, contents))
}

/// Whether the codec of chunk `p` gives back, from the payload it made,
/// the data it made it from.
pub open spec fn decodes_back(config: Config, contents: Seq<Seq<u8>>, p: int) -> bool {
    decompressed(payloads_of(config, contents)[p], def_flags(def_at(config.chunks@, p))) == Ok::<
        Seq<u8>,
        CodecFault,
    >(chunk_data(contents, chunk_sources(config)[p])->0)
}

/// Whether the chunks of file `i` are together as long as the file.
pub open spec fn sizes_fit(config: Config, contents: Seq<Seq<u8>>, i: int) -> bool {
    ids_offset(
        config.files@[i].chunks@,
        read_lens(config.chunks@),
        config.files@[i].chunks@.len(),
    ) == contents[i].len()
}

/// No volume gets longer than the last payload in it reaches.
pub proof fn lemma_volume_len_bounded(
    header_len: int,
    vols: Seq<u16>,
    payloads: Seq<Seq<u8>>,
    v: int,
    n: nat,
)
    requires
        0 <= header_len <= u32::MAX,
        !passes_limit(header_len, vols, payloads, n as int),
    ensures
        volume_base(header_len, v) + volume_fill(vols, payloads, v, n).len() <= u32::MAX,
    decreases n,
{
    if n > 0 {
        assert(!passes_limit(header_len, vols, payloads, n - 1)) by {
            if passes_limit(header_len, vols, payloads, n - 1) {
                let w = choose|w: int|
                    0 <= w < n - 1 && #[trigger] placed_offset(header_len, vols, payloads, w)
                        + payloads[w].len() > u32::MAX;
                assert(0 <= w < n);
            }
        }
        lemma_volume_len_bounded(header_len, vols, payloads, v, (n - 1) as nat);
        if vols[n - 1] == v {
            assert(placed_offset(header_len, vols, payloads, n - 1) + payloads[n - 1].len()
                <= u32::MAX);
        }
    }
}

/// The header region of the packed archive.
pub open spec fn packed_header(config: Config, contents: Seq<Seq<u8>>) -> Seq<u8> {
    layout_bytes(packed_layout(config, packed_table(config, contents)))
}

/// The chunk table of a packed archive records where the payloads lie.
pub proof fn lemma_packed_is_laid_out(config: Config, contents: Seq<Seq<u8>>)
    requires
        pack_fault(config, contents) is None,
    ensures
        packed_header(config, contents).len() == packed_header_size(config),
        laid_out(
            loaded_chunks(packed_table(config, contents)),
            packed_lens(config, contents),
            packed_header(config, contents).len() as int,
            chunk_volumes(config.chunks@),
            payloads_of(config, contents),
        ),
        forall|p: int|
            0 <= p < config.chunks@.len() ==> (#[trigger] loaded_chunks(
                packed_table(config, contents),
            )[p]).flags == def_flags(def_at(config.chunks@, p)),
{
    let table = packed_table(config, contents);
    let chunks = loaded_chunks(table);
    let lens = packed_lens(config, contents);
    let vols = chunk_volumes(config.chunks@);
    let payloads = payloads_of(config, contents);
    let h = packed_header_size(config);
    let n = config.chunks@.len();
    lemma_header_size_of_table(config, table);
    lemma_header_size(packed_layout(config, table));
    assert(packed_header(config, contents).len() == h);
    assert forall|p: int| 0 <= p < chunks.len() implies {
        &&& (#[trigger] chunks[p]).offset == placed_offset(h, vols, payloads, p)
        &&& chunks[p]._head_c_len == payloads[p].len()
        &&& chunks[p].file_idx == vols[p]
        &&& vols[p] < lens.len()
    } by {
        assert(placed_offset(h, vols, payloads, p) + payloads[p].len() <= u32::MAX);
        assert(chunks[p] == RawChunk::spec_from_disk(p as u16, table[p]));
        assert(vols[p] <= config.archive_files@.len());
    }
    assert forall|v: int| 0 <= v < lens.len() implies (#[trigger] lens[v]) == volume_base(h, v)
        + volume_fill(vols, payloads, v, payloads.len()).len() by {
        lemma_volume_len_bounded(h, vols, payloads, v, n);
    }
}

/// What the chunk with id `p` of a packed archive contributes to its file
/// when the archive is unpacked: the data it was packed from, provided its
/// codec gives that back.
pub proof fn lemma_packed_chunk_output(
    config: Config,
    contents: Seq<Seq<u8>>,
    p: int,
    keep_raw: bool,
)
    requires
        pack_fault(config, contents) is None,
        0 <= p < config.chunks@.len(),
    ensures
        unpacked_chunks(config, contents).len() == config.chunks@.len(),
        decodes_back(config, contents, p) ==> chunk_output(
            volume_at(
                packed_volumes(config, contents),
                unpacked_chunks(config, contents)[p].file_idx as int,
            ),
            unpacked_chunks(config, contents)[p],
            keep_raw,
        ) == Ok::<Seq<u8>, CodecFault>(chunk_data(contents, chunk_sources(config)[p])->0),
{
    let chunks = loaded_chunks(packed_table(config, contents));
    let lens = packed_lens(config, contents);
    let vols = chunk_volumes(config.chunks@);
    let payloads = payloads_of(config, contents);
    let header = packed_header(config, contents);
    lemma_packed_is_laid_out(config, contents);
    lemma_payload_of_laid_out(chunks, lens, header, vols, payloads, p);
    let chunk = unpacked_chunks(config, contents)[p];
    assert(chunk.file_idx == vols[p]);
    assert(chunk.flags == def_flags(def_at(config.chunks@, p)));
    let v = vols[p] as int;
    assert(volume_at(packed_volumes(config, contents), v) == packed_volume(config, contents, v));
}

/// A chunk that is stored as it is comes back as it was.
pub proof fn lemma_copy_decodes_back(config: Config, contents: Seq<Seq<u8>>, p: int)
    requires
        codec_of(def_flags(def_at(config.chunks@, p))) == Some(Codec::Copy),
        0 <= p < config.chunks@.len(),
    ensures
        decodes_back(config, contents, p),
{
}

/// Where nothing is missing, every listed chunk has a definition.
pub proof fn lemma_listed_chunks_defined(files: Seq<Seq<u16>>, count: int, n: nat)
    requires
        n <= files.len(),
        first_missing(files, count, n) is None,
    ensures
        forall|f: int, k: int|
            0 <= f < n && 0 <= k < files[f].len() ==> (#[trigger] files[f][k]) < count,
    decreases n,
{
    if n > 0 {
        lemma_listed_chunks_defined(files, count, (n - 1) as nat);
        crate::pack::lemma_none_missing_in(files[n - 1], count, 0);
    }
}

/// The first `k` chunks of a file of a packed archive unpack to the bytes
/// of the file up to where chunk `k` starts.
pub proof fn lemma_unpacked_prefix(
    config: Config,
    contents: Seq<Seq<u8>>,
    i: int,
    keep_raw: bool,
    k: nat,
)
    requires
        contents.len() == config.files@.len(),
        pack_fault(config, contents) is None,
        listed_once(file_ids(config.files@)),
        0 <= i < config.files@.len(),
        sizes_fit(config, contents, i),
        k <= config.files@[i].chunks@.len(),
        forall|j: int|
            0 <= j < config.files@[i].chunks@.len() ==> decodes_back(
                config,
                contents,
                (#[trigger] config.files@[i].chunks@[j]) as int,
            ),
    ensures
        file_output(
            config.files@[i].chunks@.take(k as int),
            unpacked_chunks(config, contents),
            packed_volumes(config, contents),
            keep_raw,
        ) == Ok::<Seq<u8>, ChunkFault>(
            contents[i].subrange(
                0,
                ids_offset(config.files@[i].chunks@, read_lens(config.chunks@), k),
            ),
        ),
        ids_offset(config.files@[i].chunks@, read_lens(config.chunks@), k) <= contents[i].len(),
    decreases k,
{
    let ids = config.files@[i].chunks@;
    let lens = read_lens(config.chunks@);
    let files = file_ids(config.files@);
    let n = config.chunks@.len();
    lemma_ids_offset_grows(ids, lens, k, ids.len());
    if k == 0 {
        assert(ids.take(0) =~= Seq::empty());
        assert(contents[i].subrange(0, 0) =~= Seq::<u8>::empty());
    } else {
        lemma_unpacked_prefix(config, contents, i, keep_raw, (k - 1) as nat);
        let id = ids[k - 1] as int;
        assert(ids.take(k as int).drop_last() =~= ids.take(k - 1));
        assert(ids.take(k as int).last() == ids[k - 1]);
        assert(files[i] == ids);
        lemma_listed_chunks_defined(files, n as int, files.len());
        assert(files[i][k - 1] < n);
        lemma_packed_chunk_output(config, contents, id, keep_raw);
        assert(decodes_back(config, contents, ids[k - 1] as int));
        assert(lens.len() == n);
        lemma_sources_of(files, lens, files.len(), i, k - 1);
        let start = ids_offset(ids, lens, (k - 1) as nat);
        let len = lens[id] as int;
        assert(chunk_sources(config)[id] == Some(SourceRange { file: i, start, len }));
        lemma_ids_offset_grows(ids, lens, (k - 1) as nat, (k - 1) as nat);
        assert(chunk_data(contents, chunk_sources(config)[id])->0 == contents[i].subrange(
            start,
            start + len,
        ));
        assert(contents[i].subrange(0, start) + contents[i].subrange(start, start + len)
            =~= contents[i].subrange(0, start + len));
    }
}

/// Unpacking what was packed gives every file back as it went in.
///
/// Take a description that packing accepts, in which every chunk is
/// listed once and the chunks of file `i` are together as long as the
/// file. Pack it, load the chunk table of the result, and reconcile it
/// against the lengths of the packed volumes. Then the chunks of file `i`
/// put together are the bytes of the file, provided each of its codecs
/// gives back from its payload the data it made it from; a stored chunk
/// always does.
pub proof fn lemma_unpack_inverts_pack(
    config: Config,
    contents: Seq<Seq<u8>>,
    i: int,
    keep_raw: bool,
)
    requires
        contents.len() == config.files@.len(),
        pack_fault(config, contents) is None,
        listed_once(file_ids(config.files@)),
        0 <= i < config.files@.len(),
        sizes_fit(config, contents, i),
    ensures
        (forall|j: int|
            0 <= j < config.files@[i].chunks@.len() ==> decodes_back(
                config,
                contents,
                (#[trigger] config.files@[i].chunks@[j]) as int,
            )) ==> file_output(
            config.files@[i].chunks@,
            unpacked_chunks(config, contents),
            packed_volumes(config, contents),
            keep_raw,
        ) == Ok::<Seq<u8>, ChunkFault>(contents[i]),
{
    let ids = config.files@[i].chunks@;
    if forall|j: int|
        0 <= j < ids.len() ==> decodes_back(config, contents, (#[trigger] ids[j]) as int) {
        lemma_unpacked_prefix(config, contents, i, keep_raw, ids.len());
        assert(ids.take(ids.len() as int) =~= ids);
        assert(contents[i].subrange(0, contents[i].len() as int) =~= contents[i]);
    }
}

/// Unpacking what was packed without compression gives every file back
/// as it went in, whatever the codecs of other files do.
pub proof fn lemma_unpack_inverts_stored_pack(
    config: Config,
    contents: Seq<Seq<u8>>,
    i: int,
    keep_raw: bool,
)
    requires
        contents.len() == config.files@.len(),
        pack_fault(config, contents) is None,
        listed_once(file_ids(config.files@)),
        0 <= i < config.files@.len(),
        sizes_fit(config, contents, i),
        forall|j: int|
            0 <= j < config.files@[i].chunks@.len() ==> codec_of(
                def_flags(def_at(config.chunks@, (#[trigger] config.files@[i].chunks@[j]) as int)),
            ) == Some(Codec::Copy),
    ensures
        file_output(
            config.files@[i].chunks@,
            unpacked_chunks(config, contents),
            packed_volumes(config, contents),
            keep_raw,
        ) == Ok::<Seq<u8>, ChunkFault>(contents[i]),
{
    let ids = config.files@[i].chunks@;
    let files = file_ids(config.files@);
    lemma_listed_chunks_defined(files, config.chunks@.len() as int, files.len());
    assert(files[i] == ids);
    assert forall|j: int| 0 <= j < ids.len() implies decodes_back(
        config,
        contents,
        (#[trigger] ids[j]) as int,
    ) by {
        assert(files[i][j] < config.chunks@.len());
        lemma_copy_decodes_back(config, contents, ids[j] as int);
    }
    lemma_unpack_inverts_pack(config, contents, i, keep_raw);
}

/// Whether no name of a description holds a zero byte: no file name, no
/// directory and no name of a split volume.
pub open spec fn names_storable(config: Config) -> bool {
    &&& forall|i: int|
        0 <= i < config.files@.len() ==> nul_free(
            text_bytes((#[trigger] config.files@[i]).filename@),
        )
    &&& forall|i: int|
        0 <= i < config.files@.len() ==> nul_free(text_bytes(dir_key(#[trigger] config.files@[i])))
    &&& forall|i: int|
        0 <= i < config.archive_files@.len() ==> nul_free(
            text_bytes((#[trigger] config.archive_files@[i])@),
        )
}

/// Every directory of the table is the stored directory of a file.
pub proof fn lemma_dir_table_from_files(files: Seq<FileEntry>, n: nat, k: int)
    requires
        n <= files.len(),
        0 <= k < dir_table(files, n).len(),
    ensures
        exists|i: int| 0 <= i < n && dir_key(#[trigger] files[i]) == dir_table(files, n)[k],
    decreases n,
{
    if n > 0 {
        let before = dir_table(files, (n - 1) as nat);
        if k < before.len() {
            lemma_dir_table_from_files(files, (n - 1) as nat, k);
            crate::pack::lemma_dir_table_grows(files, (n - 1) as nat, n);
            let i = choose|i: int| 0 <= i < n - 1 && dir_key(#[trigger] files[i]) == before[k];
            assert(dir_key(files[i]) == dir_table(files, n)[k]);
        } else {
            assert(dir_key(files[n - 1]) == dir_table(files, n)[k]);
        }
    }
}

/// The header that packing writes can be stored and read back.
pub proof fn lemma_packed_layout_storable(config: Config, contents: Seq<Seq<u8>>)
    requires
        pack_fault(config, contents) is None,
        names_storable(config),
    ensures
        storable(packed_layout(config, packed_table(config, contents))),
{
    let layout = packed_layout(config, packed_table(config, contents));
    let files = file_ids(config.files@);
    let dirs = dir_table(config.files@, config.files@.len());
    lemma_listed_chunks_defined(files, config.chunks@.len() as int, files.len());
    assert forall|k: int| 0 <= k < layout.file_map.len() implies terminator_free(
        #[trigger] layout.file_map[k].1,
    ) by {
        assert(layout.file_map[k].1 == files[k]);
        assert forall|j: int| 0 <= j < files[k].len() implies files[k][j]
            != crate::format::CHUNK_LIST_TERMINATOR by {
            assert(files[k][j] < config.chunks@.len());
        }
    }
    assert forall|k: int| 0 <= k < layout.dir_names.len() implies nul_free(
        #[trigger] layout.dir_names[k],
    ) by {
        lemma_dir_table_from_files(config.files@, config.files@.len(), k);
        let i = choose|i: int|
            0 <= i < config.files@.len() && dir_key(#[trigger] config.files@[i]) == dirs[k];
        assert(layout.dir_names[k] == text_bytes(dir_key(config.files@[i])));
    }
    assert forall|k: int| 0 <= k < layout.file_names.len() implies nul_free(
        #[trigger] layout.file_names[k],
    ) by {
        assert(layout.file_names[k] == text_bytes(config.files@[k].filename@));
    }
    assert forall|k: int| 0 <= k < layout.split_names.len() implies nul_free(
        #[trigger] layout.split_names[k],
    ) by {
        assert(layout.split_names[k] == text_bytes(config.archive_files@[k]@));
    }
}

/// Loading what was packed finds the header that packing wrote: the main
/// volume of a packed archive parses to the layout it was written from,
/// and its payload starts where the header pre-pass said it would.
pub proof fn lemma_load_inverts_pack(config: Config, contents: Seq<Seq<u8>>)
    requires
        pack_fault(config, contents) is None,
        names_storable(config),
    ensures
        parse_layout(packed_volume(config, contents, 0)) == Ok::<
            (ArchiveLayout, int),
            ParseFault,
        >((packed_layout(config, packed_table(config, contents)), packed_header_size(config))),
{
    let layout = packed_layout(config, packed_table(config, contents));
    let volume = packed_volume(config, contents, 0);
    lemma_packed_layout_storable(config, contents);
    lemma_packed_is_laid_out(config, contents);
    assert(volume.subrange(0, layout_bytes(layout).len() as int) =~= layout_bytes(layout));
    lemma_parse_stored_layout(layout, volume);
}

/// The first payload of the main volume lies right behind the header
/// region, at the offset that was worked out before anything was written.
pub proof fn lemma_first_chunk_behind_header(config: Config, contents: Seq<Seq<u8>>, p: int)
    requires
        pack_fault(config, contents) is None,
        0 <= p < config.chunks@.len(),
        chunk_volumes(config.chunks@)[p] == 0,
        forall|q: int| 0 <= q < p ==> chunk_volumes(config.chunks@)[q] != 0,
    ensures
        packed_table(config, contents)[p].offset == packed_header_size(config),
        packed_header_size(config) == packed_header(config, contents).len(),
{
    lemma_packed_is_laid_out(config, contents);
    let vols = chunk_volumes(config.chunks@);
    let payloads = payloads_of(config, contents);
    lemma_fill_skips(vols, payloads, 0, 0, p as nat);
    let chunk = loaded_chunks(packed_table(config, contents))[p];
    assert(chunk.offset == placed_offset(packed_header_size(config), vols, payloads, p));
}

/// Loading what was packed finds the structure that was packed.
///
/// Take a description that packing accepts and whose names hold no zero
/// byte, and let `meta` be what loading makes of the main volume of the
/// packed archive. Then `meta` has the files of the description, with
/// their names and chunk lists; the directories of the description, each
/// once, in the order in which the files first name them, behind the
/// root; for every file the index of its directory; the split names; and
/// for every chunk its flag word, its decompressed length as the
/// description claims it, its volume, and the offset and length of the
/// payload that its codec made.
pub proof fn lemma_loaded_structure(
    config: Config,
    contents: Seq<Seq<u8>>,
    meta: crate::metadata::ArchiveMetadata,
)
    requires
        pack_fault(config, contents) is None,
        names_storable(config),
        meta.describes(
            packed_layout(config, packed_table(config, contents)),
            packed_volume(config, contents, 0).len() as int,
        ),
    ensures
        meta.user_files@.len() == config.files@.len(),
        meta.map_entries@.len() == config.files@.len(),
        forall|i: int|
            0 <= i < config.files@.len() ==> (#[trigger] meta.user_files@[i])@
                == config.files@[i].filename@,
        forall|i: int|
            0 <= i < config.files@.len() ==> (#[trigger] meta.map_entries@[i]).chunk_ids@
                == config.files@[i].chunks@,
        forall|i: int|
            0 <= i < config.files@.len() ==> (#[trigger] meta.map_entries@[i]).dir_idx
                == crate::pack::dir_index_of(
                dir_table(config.files@, config.files@.len()),
                dir_key(config.files@[i]),
            ),
        meta.directories@.len() == dir_table(config.files@, config.files@.len()).len() + 1,
        forall|k: int|
            0 <= k < dir_table(config.files@, config.files@.len()).len() ==> (
            #[trigger] meta.directories@[k + 1])@ == dir_table(
                config.files@,
                config.files@.len(),
            )[k],
        meta.split_file_names@.len() == config.archive_files@.len(),
        forall|k: int|
            0 <= k < config.archive_files@.len() ==> (#[trigger] meta.split_file_names@[k])@
                == config.archive_files@[k]@,
        meta.raw_chunks@ == loaded_chunks(packed_table(config, contents)),
        forall|p: int|
            0 <= p < config.chunks@.len() ==> {
                let chunk = #[trigger] meta.raw_chunks@[p];
                let def = def_at(config.chunks@, p);
                &&& chunk.flags == def_flags(def)
                &&& chunk.d_len == def.size_decompressed
                &&& chunk.file_idx == def.archive_file_index
                &&& chunk._head_c_len == payloads_of(config, contents)[p].len()
                &&& chunk.offset == placed_offset(
                    packed_header_size(config),
                    chunk_volumes(config.chunks@),
                    payloads_of(config, contents),
                    p,
                )
            },
{
    let layout = packed_layout(config, packed_table(config, contents));
    let dirs = dir_table(config.files@, config.files@.len());
    lemma_packed_is_laid_out(config, contents);
    assert forall|i: int| 0 <= i < config.files@.len() implies (#[trigger] meta.user_files@[i])@
        == config.files@[i].filename@ by {
        crate::bytes::lemma_text_roundtrip(config.files@[i].filename@);
        assert(layout.file_names[i] == text_bytes(config.files@[i].filename@));
    }
    assert forall|i: int| 0 <= i < config.files@.len() implies (
    #[trigger] meta.map_entries@[i]).chunk_ids@ == config.files@[i].chunks@ && meta.map_entries@[i].dir_idx
        == crate::pack::dir_index_of(dirs, dir_key(config.files@[i])) by {
        assert(crate::metadata::entries_view(meta.map_entries@)[i] == layout.file_map[i]);
        assert(meta.map_entries@[i]@ == layout.file_map[i]);
        lemma_dir_index_in_range(config, i);
    }
    assert forall|k: int| 0 <= k < dirs.len() implies (#[trigger] meta.directories@[k + 1])@
        == dirs[k] by {
        crate::bytes::lemma_text_roundtrip(dirs[k]);
        assert(layout.dir_names[k] == text_bytes(dirs[k]));
    }
    assert forall|k: int| 0 <= k < config.archive_files@.len() implies (
    #[trigger] meta.split_file_names@[k])@ == config.archive_files@[k]@ by {
        crate::bytes::lemma_text_roundtrip(config.archive_files@[k]@);
        assert(layout.split_names[k] == text_bytes(config.archive_files@[k]@));
    }
    assert(meta.raw_chunks@ =~= loaded_chunks(packed_table(config, contents)));
}

/// The directory index of a file fits the 16 bits it is stored in.
pub proof fn lemma_dir_index_in_range(config: Config, i: int)
    requires
        0 <= i < config.files@.len(),
        dir_table(config.files@, config.files@.len()).len() < u16::MAX,
    ensures
        0 <= crate::pack::dir_index_of(
            dir_table(config.files@, config.files@.len()),
            dir_key(config.files@[i]),
        ) <= u16::MAX,
{
    let dirs = dir_table(config.files@, config.files@.len());
    let key = dir_key(config.files@[i]);
    if !crate::pack::is_root_key(key) {
        lemma_dir_table_holds(config.files@, config.files@.len(), i);
        let w = choose|k: int| 0 <= k < dirs.len() && dirs[k] == key;
    }
}

/// The directory of every file that is not in the root is in the table.
pub proof fn lemma_dir_table_holds(files: Seq<FileEntry>, n: nat, i: int)
    requires
        n <= files.len(),
        0 <= i < n,
        !crate::pack::is_root_key(dir_key(files[i])),
    ensures
        dir_table(files, n).contains(dir_key(files[i])),
    decreases n,
{
    let before = dir_table(files, (n - 1) as nat);
    if i < n - 1 {
        lemma_dir_table_holds(files, (n - 1) as nat, i);
        crate::pack::lemma_dir_table_grows(files, (n - 1) as nat, n);
        let w = choose|k: int| 0 <= k < before.len() && before[k] == dir_key(files[i]);
        assert(dir_table(files, n)[w] == dir_key(files[i]));
    } else {
        if before.contains(dir_key(files[i])) {
        } else {
            assert(dir_table(files, n) == before.push(dir_key(files[i])));
            assert(dir_table(files, n)[before.len() as int] == dir_key(files[i]));
        }
    }
}

/// The definition of the chunk with id `p` in a description of a plan is
/// the one at place `p`.
pub proof fn lemma_described_chunk(plan: UnpackPlan, config: Config, sep: char, p: int)
    requires
        plan.wf(),
        plan.describes(config, sep),
        0 <= p < config.chunks@.len(),
    ensures
        def_at(config.chunks@, p) == config.chunks@[p],
{
    assert(plan.describes_chunk(config.chunks@[p], p));
    assert(config.chunks@[p].id == p);
    let w = choose|k: int| 0 <= k < config.chunks@.len() && (#[trigger] config.chunks@[k]).id == p;
    assert(plan.describes_chunk(config.chunks@[w], w));
}

/// Whether a flag word is the bit of one flag of the table.
pub open spec fn is_one_flag(flags: u16) -> bool {
    exists|i: int| 0 <= i < crate::utils::FLAG_COUNT && flags == crate::utils::flag_bit(i)
}

/// Unpacking, packing again and loading keeps the structure of an archive.
///
/// Take the description `config` that unpacking made of `plan`, pack it,
/// and let `again` be what loading makes of the main volume of the new
/// archive. Then `again` has the same file names, the same chunk list for
/// every file, the same split names, and for every chunk the same
/// decompressed length and the same volume as the archive that was
/// unpacked, and the same flag word where that is the bit of one flag. (A
/// flag word of several bits comes back as its first flag, and the
/// directories come back as [`lemma_loaded_structure`] says: each once, in
/// the order in which the files first name them.)
pub proof fn lemma_repacked_structure(
    plan: UnpackPlan,
    config: Config,
    sep: char,
    contents: Seq<Seq<u8>>,
    again: crate::metadata::ArchiveMetadata,
)
    requires
        plan.wf(),
        plan.describes(config, sep),
        pack_fault(config, contents) is None,
        names_storable(config),
        again.describes(
            packed_layout(config, packed_table(config, contents)),
            packed_volume(config, contents, 0).len() as int,
        ),
    ensures
        again.user_files@.len() == plan.metadata.user_files@.len(),
        forall|i: int|
            0 <= i < again.user_files@.len() ==> (#[trigger] again.user_files@[i])@
                == plan.metadata.user_files@[i]@,
        again.map_entries@.len() == plan.metadata.map_entries@.len(),
        forall|i: int|
            0 <= i < again.map_entries@.len() ==> (#[trigger] again.map_entries@[i]).chunk_ids@
                == plan.metadata.map_entries@[i].chunk_ids@,
        again.split_file_names@.len() == plan.metadata.split_file_names@.len(),
        forall|k: int|
            0 <= k < again.split_file_names@.len() ==> (#[trigger] again.split_file_names@[k])@
                == plan.metadata.split_file_names@[k]@,
        again.raw_chunks@.len() == plan.processed_chunks@.len(),
        forall|p: int|
            0 <= p < again.raw_chunks@.len() ==> (#[trigger] again.raw_chunks@[p]).d_len
                == plan.processed_chunks@[p].d_len && again.raw_chunks@[p].file_idx
                == plan.processed_chunks@[p].file_idx && again.raw_chunks@[p].id
                == plan.processed_chunks@[p].id,
        forall|p: int|
            0 <= p < again.raw_chunks@.len() && is_one_flag(
                (#[trigger] plan.processed_chunks@[p]).flags,
            ) ==> again.raw_chunks@[p].flags == plan.processed_chunks@[p].flags,
{
    lemma_loaded_structure(config, contents, again);
    assert forall|p: int|
        0 <= p < again.raw_chunks@.len() && is_one_flag(
            (#[trigger] plan.processed_chunks@[p]).flags,
        ) implies again.raw_chunks@[p].flags == plan.processed_chunks@[p].flags by {
        let flags = plan.processed_chunks@[p].flags;
        let i = choose|i: int| 0 <= i < crate::utils::FLAG_COUNT && flags == crate::utils::flag_bit(i);
        crate::utils::lemma_one_flag_comes_back(i);
        lemma_described_chunk(plan, config, sep, p);
        assert(plan.describes_chunk(config.chunks@[p], p));
        assert(again.raw_chunks@[p].flags == def_flags(def_at(config.chunks@, p)));
    }
    assert forall|i: int| 0 <= i < again.user_files@.len() implies (
    #[trigger] again.user_files@[i])@ == plan.metadata.user_files@[i]@ by {
        assert(plan.describes_file(config.files@[i], i, sep));
    }
    assert forall|i: int| 0 <= i < again.map_entries@.len() implies (
    #[trigger] again.map_entries@[i]).chunk_ids@ == plan.metadata.map_entries@[i].chunk_ids@ by {
        assert(plan.describes_file(config.files@[i], i, sep));
    }
    assert forall|p: int| 0 <= p < again.raw_chunks@.len() implies (
    #[trigger] again.raw_chunks@[p]).d_len == plan.processed_chunks@[p].d_len
        && again.raw_chunks@[p].file_idx == plan.processed_chunks@[p].file_idx
        && again.raw_chunks@[p].id == plan.processed_chunks@[p].id by {
        lemma_described_chunk(plan, config, sep, p);
        assert(plan.describes_chunk(config.chunks@[p], p));
    }
}

/// Pack, then unpack: every file comes back as it went in.
///
/// Let `archive` be what [`crate::pack::pack_archive`] made of a
/// description and the contents of its files, `plan` the plan that
/// [`crate::unpack::plan_held_archive`] made of the volumes of `archive`,
/// and `files` what [`UnpackPlan::extract_all`] took out of them. Where
/// every chunk is listed once and the chunks of file `i` are together as
/// long as the file, `files[i]` holds the bytes of file `i`, provided
/// each of its codecs gives back from its payload the data it made it
/// from.
pub proof fn lemma_pack_then_unpack(
    config: Config,
    contents: Seq<Seq<u8>>,
    archive: crate::pack::PackedArchive,
    plan: UnpackPlan,
    files: Seq<crate::unpack::ExtractedFile>,
    keep_raw: bool,
    sep: char,
    i: int,
)
    requires
        contents.len() == config.files@.len(),
        pack_fault(config, contents) is None,
        names_storable(config),
        listed_once(file_ids(config.files@)),
        archive.is_packed(config, contents),
        plan.metadata.describes(
            packed_layout(config, packed_table(config, contents)),
            archive.volumes@[0]@.len() as int,
        ),
        plan.processed_chunks@ == reconciled(
            plan.metadata.raw_chunks@,
            crate::unpack::held_lengths(archive.volumes@),
        ),
        plan.extracted(
            files,
            crate::unpack::held_volumes(archive.volumes@),
            keep_raw,
            sep,
            config.files@.len() as int,
        ),
        0 <= i < config.files@.len(),
        sizes_fit(config, contents, i),
    ensures
        (forall|j: int|
            0 <= j < config.files@[i].chunks@.len() ==> decodes_back(
                config,
                contents,
                (#[trigger] config.files@[i].chunks@[j]) as int,
            )) ==> files[i].contents@ == contents[i],
{
    lemma_loaded_structure(config, contents, plan.metadata);
    lemma_packed_is_laid_out(config, contents);
    assert(crate::unpack::held_lengths(archive.volumes@) =~= packed_lens(config, contents)) by {
        assert forall|v: int| 0 <= v < archive.volumes@.len() implies crate::unpack::held_lengths(
            archive.volumes@,
        )[v] == packed_lens(config, contents)[v] by {
            assert(archive.volumes@[v]@ == packed_volume(config, contents, v));
        }
    }
    assert(crate::unpack::held_volumes(archive.volumes@) =~= packed_volumes(config, contents)) by {
        assert forall|v: int| 0 <= v < archive.volumes@.len() implies crate::unpack::held_volumes(
            archive.volumes@,
        )[v] == packed_volumes(config, contents)[v] by {
            assert(archive.volumes@[v]@ == packed_volume(config, contents, v));
        }
    }
    assert(plan.processed_chunks@ == unpacked_chunks(config, contents));
    assert(plan.metadata.map_entries@[i].chunk_ids@ == config.files@[i].chunks@);
    lemma_unpack_inverts_pack(config, contents, i, keep_raw);
}

} // verus!
