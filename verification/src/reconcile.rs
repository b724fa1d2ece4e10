//! Works out how many bytes each chunk really occupies in its volume.
//!
//! The length field of a chunk record cannot be trusted. What can be
//! trusted is where the chunks start: the payload of a chunk ends where the
//! next chunk of the same volume starts, or at the end of the volume.

use crate::error::DzipError;
use crate::format::{flag_set, has_flag, CHUNK_COMPRESSED_MASK};
use crate::metadata::RawChunk;
use vstd::prelude::*;

verus! {

/// Whether chunk `j` lies behind chunk `i` in the same volume. Chunks that
/// start at the same offset are taken in table order.
pub open spec fn follows(chunks: Seq<RawChunk>, i: int, j: int) -> bool {
    &&& 0 <= j < chunks.len()
    &&& chunks[j].file_idx == chunks[i].file_idx
    &&& (chunks[j].offset > chunks[i].offset || (chunks[j].offset == chunks[i].offset && j > i))
}

/// The smallest offset at which a chunk with table index below `n` follows
/// chunk `i`, or `None` where no such chunk follows it.
pub open spec fn nearest_follower(chunks: Seq<RawChunk>, i: int, n: nat) -> Option<int>
    decreases n,
{
    if n == 0 {
        None
    } else {
        let j = n - 1;
        let rest = nearest_follower(chunks, i, (n - 1) as nat);
        if follows(chunks, i, j) && (rest is None || chunks[j].offset < rest->0) {
            Some(chunks[j].offset as int)
        } else {
            rest
        }
    }
}

/// Where the payload of chunk `i` ends at the latest: at the start of the
/// nearest chunk that follows it in its volume, or at the end of the volume.
pub open spec fn limit_of(chunks: Seq<RawChunk>, lens: Seq<u64>, i: int) -> int {
    match nearest_follower(chunks, i, chunks.len()) {
        Some(offset) => offset,
        None => lens[chunks[i].file_idx as int] as int,
    }
}

/// Whether `limit` is the smallest offset of a chunk that follows chunk `i`,
/// or the length of the volume where none follows.
pub open spec fn is_limit(chunks: Seq<RawChunk>, lens: Seq<u64>, i: int, limit: int) -> bool {
    if exists|j: int| follows(chunks, i, j) {
        &&& exists|j: int| follows(chunks, i, j) && chunks[j].offset == limit
        &&& forall|j: int| follows(chunks, i, j) ==> limit <= chunks[j].offset
    } else {
        limit == lens[chunks[i].file_idx as int]
    }
}

/// `nearest_follower` is the least offset among the followers it looked at.
pub proof fn lemma_nearest_follower(chunks: Seq<RawChunk>, i: int, n: nat)
    requires
        n <= chunks.len(),
    ensures
        match nearest_follower(chunks, i, n) {
            None => forall|j: int| 0 <= j < n ==> !follows(chunks, i, j),
            Some(offset) => {
                &&& exists|j: int| 0 <= j < n && follows(chunks, i, j) && chunks[j].offset == offset
                &&& forall|j: int| 0 <= j < n && follows(chunks, i, j) ==> offset <= chunks[j].offset
            },
        },
    decreases n,
{
    if n > 0 {
        lemma_nearest_follower(chunks, i, (n - 1) as nat);
        let j = n - 1;
        let rest = nearest_follower(chunks, i, (n - 1) as nat);
        if follows(chunks, i, j) && (rest is None || chunks[j].offset < rest->0) {
            assert(0 <= j < n && follows(chunks, i, j) && chunks[j].offset == chunks[j].offset);
        } else {
            match rest {
                None => {},
                Some(offset) => {
                    let w = choose|k: int|
                        0 <= k < n - 1 && follows(chunks, i, k) && chunks[k].offset == offset;
                    assert(0 <= w < n && follows(chunks, i, w) && chunks[w].offset == offset);
                },
            }
        }
    }
}

/// The limit is the least offset of a following chunk, or the volume
/// length; and nothing else is.
pub proof fn lemma_limit_of(chunks: Seq<RawChunk>, lens: Seq<u64>, i: int)
    ensures
        is_limit(chunks, lens, i, limit_of(chunks, lens, i)),
        forall|limit: int| is_limit(chunks, lens, i, limit) ==> limit == limit_of(chunks, lens, i),
{
    lemma_nearest_follower(chunks, i, chunks.len());
    let found = limit_of(chunks, lens, i);
    match nearest_follower(chunks, i, chunks.len()) {
        None => {
            assert(!(exists|j: int| follows(chunks, i, j)));
        },
        Some(offset) => {
            let w = choose|j: int|
                0 <= j < chunks.len() && follows(chunks, i, j) && chunks[j].offset == offset;
            assert(follows(chunks, i, w) && chunks[w].offset == found);
            assert forall|limit: int| is_limit(chunks, lens, i, limit) implies limit == found by {
                let v = choose|j: int| follows(chunks, i, j) && chunks[j].offset == limit;
                assert(follows(chunks, i, v));
                assert(limit <= chunks[w].offset);
                assert(found <= chunks[v].offset);
            }
        },
    }
}

/// How many bytes a chunk occupies whose payload ends at `limit` at the latest.
///
/// A limit before the start of the chunk says nothing, and the length of
/// the record is kept. Otherwise `limit - offset` bytes are available. A
/// compressed chunk whose record claims equal stored and decompressed
/// lengths holds a placeholder, and takes all that is available (modulo
/// 2^32 where the volume is larger than a length field can say). Any other
/// chunk keeps the length of its record unless that is more than is
/// available.
pub open spec fn real_len(c: RawChunk, limit: int) -> u32 {
    if limit < c.offset {
        c._head_c_len
    } else {
        let available = limit - c.offset;
        if has_flag(c.flags, CHUNK_COMPRESSED_MASK) && c._head_c_len == c.d_len {
            (available % 0x1_0000_0000) as u32
        } else if c._head_c_len > available {
            available as u32
        } else {
            c._head_c_len
        }
    }
}

/// The stored length of chunk `c`, given where its payload ends at the latest.
pub fn real_compressed_length(c: &RawChunk, limit: u64) -> (r: u32)
    ensures
        r == real_len(*c, limit as int),
        c.offset <= limit ==> r <= limit - c.offset,
        c.offset <= limit && c._head_c_len > limit - c.offset ==> r == limit - c.offset,
        c.offset <= limit && limit - c.offset <= u32::MAX && has_flag(
            c.flags,
            CHUNK_COMPRESSED_MASK,
        ) && c._head_c_len == c.d_len ==> r == limit - c.offset,
{
    let offset = c.offset as u64;
    if limit < offset {
        return c._head_c_len;
    }
    let available: u64 = limit - offset;
    if flag_set(c.flags, CHUNK_COMPRESSED_MASK) && c._head_c_len == c.d_len {
        (available % 0x1_0000_0000) as u32
    } else if (c._head_c_len as u64) > available {
        available as u32
    } else {
        c._head_c_len
    }
}

/// A chunk never gets more bytes than lie before its limit.
pub proof fn lemma_real_len_fits(c: RawChunk, limit: int)
    requires
        c.offset <= limit,
    ensures
        real_len(c, limit) <= limit - c.offset,
{
}

/// A compressed chunk whose record claims equal stored and decompressed
/// lengths takes all that is available, provided its limit does not lie
/// before its start and what is available fits a length field.
pub proof fn lemma_equal_sized_takes_available(c: RawChunk, limit: int)
    requires
        has_flag(c.flags, CHUNK_COMPRESSED_MASK),
        c._head_c_len == c.d_len,
        c.offset <= limit,
        limit - c.offset <= u32::MAX,
    ensures
        real_len(c, limit) == limit - c.offset,
{
}

/// A chunk whose record claims more than is available is cut down to what
/// is available, provided its limit does not lie before its start.
pub proof fn lemma_overlong_is_clamped(c: RawChunk, limit: int)
    requires
        c.offset <= limit,
        c._head_c_len > limit - c.offset,
    ensures
        real_len(c, limit) == limit - c.offset,
{
}

/// The chunk table after reconciliation: every chunk as it was, with its
/// stored length worked out from its limit.
pub open spec fn reconciled(chunks: Seq<RawChunk>, lens: Seq<u64>) -> Seq<RawChunk> {
    Seq::new(
        chunks.len(),
        |i: int| RawChunk { real_c_len: real_len(chunks[i], limit_of(chunks, lens, i)), ..chunks[i] },
    )
}

/// Whether every chunk names a volume that `lens` has a length for.
pub open spec fn volumes_known(chunks: Seq<RawChunk>, lens: Seq<u64>) -> bool {
    forall|i: int| 0 <= i < chunks.len() ==> (#[trigger] chunks[i]).file_idx < lens.len()
}

/// Reconciled chunks of one volume never overlap: a chunk ends before any
/// chunk that follows it starts.
pub proof fn lemma_no_overlap(chunks: Seq<RawChunk>, lens: Seq<u64>, i: int, j: int)
    requires
        0 <= i < chunks.len(),
        follows(chunks, i, j),
    ensures
        chunks[i].offset + reconciled(chunks, lens)[i].real_c_len <= chunks[j].offset,
{
    lemma_limit_of(chunks, lens, i);
    let limit = limit_of(chunks, lens, i);
    assert(limit <= chunks[j].offset);
    let w = choose|k: int| follows(chunks, i, k) && chunks[k].offset == limit;
    assert(chunks[i].offset <= limit);
    lemma_real_len_fits(chunks[i], limit);
}

/// Where every chunk starts inside its volume, every reconciled chunk also
/// ends inside its volume.
pub proof fn lemma_within_volume(chunks: Seq<RawChunk>, lens: Seq<u64>, i: int)
    requires
        0 <= i < chunks.len(),
        volumes_known(chunks, lens),
        forall|k: int|
            0 <= k < chunks.len() ==> (#[trigger] chunks[k]).offset <= lens[chunks[k].file_idx as int],
    ensures
        chunks[i].offset + reconciled(chunks, lens)[i].real_c_len <= lens[chunks[i].file_idx as int],
{
    lemma_limit_of(chunks, lens, i);
    let limit = limit_of(chunks, lens, i);
    if exists|j: int| follows(chunks, i, j) {
        let w = choose|k: int| follows(chunks, i, k) && chunks[k].offset == limit;
        assert(chunks[w].offset <= lens[chunks[w].file_idx as int]);
    } else {
        assert(chunks[i].offset <= lens[chunks[i].file_idx as int]);
    }
    lemma_real_len_fits(chunks[i], limit);
}

/// The order in which the chunks of an archive lie on disk: by volume, then
/// by offset, then by table index.
pub open spec fn key_le(a: (u16, u32, usize), b: (u16, u32, usize)) -> bool {
    a.0 < b.0 || (a.0 == b.0 && (a.1 < b.1 || (a.1 == b.1 && a.2 <= b.2)))
}

/// The sort key of chunk `i`.
pub open spec fn key_of(chunks: Seq<RawChunk>, i: int) -> (u16, u32, usize) {
    (chunks[i].file_idx, chunks[i].offset, i as usize)
}

/// Whether `keys` are in disk order.
pub open spec fn in_order(keys: Seq<(u16, u32, usize)>) -> bool {
    forall|a: int, b: int|
        0 <= a <= b < keys.len() ==> key_le(#[trigger] keys[a], #[trigger] keys[b])
}

/// Whether `a` does not come behind `b` in disk order.
fn key_before(a: &(u16, u32, usize), b: &(u16, u32, usize)) -> (r: bool)
    ensures
        r == key_le(*a, *b),
{
    a.0 < b.0 || (a.0 == b.0 && (a.1 < b.1 || (a.1 == b.1 && a.2 <= b.2)))
}

/// Merges two runs of keys that are in order into one.
fn merge_keys(left: &Vec<(u16, u32, usize)>, right: &Vec<(u16, u32, usize)>) -> (out: Vec<
    (u16, u32, usize),
>)
    requires
        in_order(left@),
        in_order(right@),
    ensures
        in_order(out@),
        out@.to_multiset() == left@.to_multiset().add(right@.to_multiset()),
{
    let mut out: Vec<(u16, u32, usize)> = Vec::new();
    let mut i: usize = 0;
    let mut j: usize = 0;
    proof {
        assert(left@.take(0) =~= Seq::empty());
        assert(right@.take(0) =~= Seq::empty());
        assert(out@.to_multiset() =~= left@.take(0).to_multiset().add(
            right@.take(0).to_multiset(),
        )) by {
            broadcast use vstd::multiset::group_multiset_axioms;

            out@.to_multiset_ensures();
            left@.take(0).to_multiset_ensures();
        }
    }
    while i < left.len() || j < right.len()
        invariant
            i <= left@.len(),
            j <= right@.len(),
            in_order(left@),
            in_order(right@),
            in_order(out@),
            out@.to_multiset() == left@.take(i as int).to_multiset().add(
                right@.take(j as int).to_multiset(),
            ),
            out@.len() > 0 && i < left@.len() ==> key_le(out@.last(), left@[i as int]),
            out@.len() > 0 && j < right@.len() ==> key_le(out@.last(), right@[j as int]),
        decreases left@.len() - i + right@.len() - j,
    {
        let ghost before = out@;
        let from_left = j >= right.len() || (i < left.len() && key_before(&left[i], &right[j]));
        if from_left {
            let key = left[i];
            out.push(key);
            proof {
                broadcast use vstd::multiset::group_multiset_axioms;

                assert(left@.take(i + 1) =~= left@.take(i as int).push(key));
                before.to_multiset_ensures();
                left@.take(i as int).to_multiset_ensures();
                assert(out@.to_multiset() =~= left@.take(i + 1).to_multiset().add(
                    right@.take(j as int).to_multiset(),
                ));
                if i + 1 < left@.len() {
                    assert(key_le(left@[i as int], left@[i + 1]));
                }
            }
            i += 1;
        } else {
            let key = right[j];
            out.push(key);
            proof {
                broadcast use vstd::multiset::group_multiset_axioms;

                assert(right@.take(j + 1) =~= right@.take(j as int).push(key));
                before.to_multiset_ensures();
                right@.take(j as int).to_multiset_ensures();
                assert(out@.to_multiset() =~= left@.take(i as int).to_multiset().add(
                    right@.take(j + 1).to_multiset(),
                ));
                if j + 1 < right@.len() {
                    assert(key_le(right@[j as int], right@[j + 1]));
                }
            }
            j += 1;
        }
        proof {
            assert forall|a: int, b: int| 0 <= a <= b < out@.len() implies key_le(
                #[trigger] out@[a],
                #[trigger] out@[b],
            ) by {
                if b == out@.len() - 1 && a < b {
                    assert(out@[a] == before[a]);
                    assert(key_le(before[a], before.last()));
                } else if b < out@.len() - 1 {
                    assert(out@[a] == before[a]);
                    assert(out@[b] == before[b]);
                }
            }
        }
    }
    proof {
        assert(left@.take(left@.len() as int) =~= left@);
        assert(right@.take(right@.len() as int) =~= right@);
    }
    out
}

/// Brings the keys into disk order by merging: the result holds the same
/// keys as before, each as often as before.
fn sort_keys(keys: Vec<(u16, u32, usize)>) -> (out: Vec<(u16, u32, usize)>)
    ensures
        in_order(out@),
        out@.to_multiset() == keys@.to_multiset(),
    decreases keys@.len(),
{
    let n = keys.len();
    if n <= 1 {
        return keys;
    }
    let mid = n / 2;
    let mut left: Vec<(u16, u32, usize)> = Vec::new();
    let mut right: Vec<(u16, u32, usize)> = Vec::new();
    let mut k: usize = 0;
    while k < n
        invariant
            k <= n == keys@.len(),
            0 < mid < n,
            left@ == keys@.take(if k <= mid { k as int } else { mid as int }),
            right@ == if k <= mid {
                Seq::empty()
            } else {
                keys@.subrange(mid as int, k as int)
            },
        decreases n - k,
    {
        if k < mid {
            left.push(keys[k]);
            assert(left@ =~= keys@.take(k + 1));
        } else {
            right.push(keys[k]);
            assert(right@ =~= keys@.subrange(mid as int, k + 1));
        }
        k += 1;
    }
    proof {
        assert(keys@ =~= left@ + right@);
        vstd::seq_lib::lemma_multiset_commutative(left@, right@);
    }
    let left = sort_keys(left);
    let right = sort_keys(right);
    merge_keys(&left, &right)
}

/// Whether `keys` holds the key of every chunk once, in disk order.
pub open spec fn disk_order(chunks: Seq<RawChunk>, keys: Seq<(u16, u32, usize)>) -> bool {
    &&& keys.len() == chunks.len() <= usize::MAX
    &&& keys.no_duplicates()
    &&& forall|p: int|
        0 <= p < keys.len() ==> (#[trigger] keys[p]).2 < chunks.len() && keys[p] == key_of(
            chunks,
            keys[p].2 as int,
        )
    &&& forall|i: int| 0 <= i < chunks.len() ==> keys.contains(#[trigger] key_of(chunks, i))
    &&& in_order(keys)
}

/// In disk order, the limit of a chunk is the offset of the chunk behind
/// it where that lies in the same volume, and the volume length otherwise.
pub proof fn lemma_neighbour_is_limit(
    chunks: Seq<RawChunk>,
    lens: Seq<u64>,
    keys: Seq<(u16, u32, usize)>,
    p: int,
)
    requires
        disk_order(chunks, keys),
        0 <= p < keys.len(),
    ensures
        limit_of(chunks, lens, keys[p].2 as int) == if p + 1 < keys.len() && keys[p + 1].0
            == keys[p].0 {
            keys[p + 1].1 as int
        } else {
            lens[keys[p].0 as int] as int
        },
{
    let i = keys[p].2 as int;
    let found: int = if p + 1 < keys.len() && keys[p + 1].0 == keys[p].0 {
        keys[p + 1].1 as int
    } else {
        lens[keys[p].0 as int] as int
    };
    assert(keys[p] == key_of(chunks, i));
    // every chunk that follows `i` stands behind position `p`
    assert forall|j: int| follows(chunks, i, j) implies exists|q: int|
        p < q < keys.len() && keys[q] == key_of(chunks, j) by {
        assert(keys.contains(key_of(chunks, j)));
        let q = choose|q: int| 0 <= q < keys.len() && keys[q] == key_of(chunks, j);
        if q <= p {
            assert(key_le(keys[q], keys[p]));
        }
        assert(p < q < keys.len() && keys[q] == key_of(chunks, j));
    }
    if p + 1 < keys.len() && keys[p + 1].0 == keys[p].0 {
        let next = keys[p + 1].2 as int;
        assert(keys[p + 1] == key_of(chunks, next));
        assert(key_le(keys[p], keys[p + 1]));
        assert(keys[p] != keys[p + 1]);
        assert(follows(chunks, i, next));
        assert forall|j: int| follows(chunks, i, j) implies found <= chunks[j].offset by {
            let q = choose|q: int| p < q < keys.len() && keys[q] == key_of(chunks, j);
            assert(key_le(keys[p + 1], keys[q]));
        }
        assert(is_limit(chunks, lens, i, found));
    } else {
        assert forall|j: int| !follows(chunks, i, j) by {
            if follows(chunks, i, j) {
                let q = choose|q: int| p < q < keys.len() && keys[q] == key_of(chunks, j);
                assert(key_le(keys[p], keys[p + 1]));
                assert(key_le(keys[p + 1], keys[q]));
            }
        }
        assert(is_limit(chunks, lens, i, found));
    }
    lemma_limit_of(chunks, lens, i);
}

/// The keys of all chunks in disk order.
fn keys_in_disk_order(chunks: &Vec<RawChunk>) -> (keys: Vec<(u16, u32, usize)>)
    ensures
        disk_order(chunks@, keys@),
{
    let mut keys: Vec<(u16, u32, usize)> = Vec::new();
    let mut k: usize = 0;
    while k < chunks.len()
        invariant
            k <= chunks@.len(),
            keys@.len() == k,
            forall|i: int| 0 <= i < k ==> #[trigger] keys@[i] == key_of(chunks@, i),
        decreases chunks@.len() - k,
    {
        keys.push((chunks[k].file_idx, chunks[k].offset, k));
        k += 1;
    }
    let ghost unsorted = keys@;
    let keys = sort_keys(keys);
    proof {
        let sorted = keys@;
        unsorted.to_multiset_ensures();
        sorted.to_multiset_ensures();
        assert(unsorted.no_duplicates()) by {
            assert forall|a: int, b: int|
                0 <= a < unsorted.len() && 0 <= b < unsorted.len() && a != b implies unsorted[a]
                != unsorted[b] by {
                assert(unsorted[a].2 == a);
                assert(unsorted[b].2 == b);
            }
        }
        unsorted.lemma_multiset_has_no_duplicates();
        sorted.lemma_multiset_has_no_duplicates_conv();
        assert forall|p: int| 0 <= p < sorted.len() implies (#[trigger] sorted[p]).2
            < chunks@.len() && sorted[p] == key_of(chunks@, sorted[p].2 as int) by {
            assert(sorted.contains(sorted[p]));
            assert(sorted.to_multiset().count(sorted[p]) > 0);
            assert(unsorted.to_multiset().count(sorted[p]) > 0);
            assert(unsorted.contains(sorted[p]));
            let i = choose|i: int| 0 <= i < unsorted.len() && unsorted[i] == sorted[p];
            assert(unsorted[i] == key_of(chunks@, i));
        }
        assert forall|i: int| 0 <= i < chunks@.len() implies sorted.contains(
            #[trigger] key_of(chunks@, i),
        ) by {
            assert(unsorted[i] == key_of(chunks@, i));
            assert(unsorted.contains(key_of(chunks@, i)));
            assert(unsorted.to_multiset().count(key_of(chunks@, i)) > 0);
            assert(sorted.to_multiset().count(key_of(chunks@, i)) > 0);
        }
    }
    keys
}

/// Works out the stored length of every chunk.
///
/// `lens[v]` is the length in bytes of volume `v`: index 0 is the main
/// volume, index `k` the split with index `k - 1` in the split list. The
/// result holds the chunks in table order, each with `real_c_len` set as
/// [`reconciled`] says. Fails with `Format` exactly where a chunk names a
/// volume that `lens` has no length for.
pub fn calculate_chunk_sizes(chunks: &Vec<RawChunk>, lens: &Vec<u64>) -> (r: Result<
    Vec<RawChunk>,
    DzipError,
>)
    ensures
        volumes_known(chunks@, lens@) ==> (r matches Ok(v) && v@ == reconciled(chunks@, lens@)),
        !volumes_known(chunks@, lens@) ==> r is Err && r->Err_0 is Format,
{
    let n = chunks.len();
    let mut k: usize = 0;
    while k < n
        invariant
            k <= n == chunks@.len(),
            forall|i: int| 0 <= i < k ==> (#[trigger] chunks@[i]).file_idx < lens@.len(),
        decreases n - k,
    {
        if chunks[k].file_idx as usize >= lens.len() {
            return Err(DzipError::Format(String::from_str("chunk names a volume that does not exist")));
        }
        k += 1;
    }
    let keys = keys_in_disk_order(chunks);
    let mut out: Vec<RawChunk> = Vec::new();
    let mut k: usize = 0;
    while k < n
        invariant
            k <= n == chunks@.len(),
            out@.len() == k,
            forall|i: int| 0 <= i < k ==> out@[i] == chunks@[i],
        decreases n - k,
    {
        out.push(chunks[k]);
        k += 1;
    }
    let ghost goal = reconciled(chunks@, lens@);
    let mut p: usize = 0;
    while p < n
        invariant
            p <= n == chunks@.len(),
            out@.len() == n,
            disk_order(chunks@, keys@),
            volumes_known(chunks@, lens@),
            goal == reconciled(chunks@, lens@),
            forall|i: int| 0 <= i < n ==> out@[i] == chunks@[i] || out@[i] == goal[i],
            forall|q: int| 0 <= q < p ==> out@[(#[trigger] keys@[q]).2 as int] == goal[keys@[q].2 as int],
        decreases n - p,
    {
        let key = keys[p];
        let idx = key.2;
        let limit: u64 = if p + 1 < n && keys[p + 1].0 == key.0 {
            keys[p + 1].1 as u64
        } else {
            lens[key.0 as usize]
        };
        proof {
            lemma_neighbour_is_limit(chunks@, lens@, keys@, p as int);
        }
        let chunk = chunks[idx];
        let stored = real_compressed_length(&chunk, limit);
        out.set(
            idx,
            RawChunk {
                id: chunk.id,
                offset: chunk.offset,
                _head_c_len: chunk._head_c_len,
                d_len: chunk.d_len,
                flags: chunk.flags,
                file_idx: chunk.file_idx,
                real_c_len: stored,
            },
        );
        p += 1;
    }
    proof {
        assert forall|i: int| 0 <= i < n implies out@[i] == goal[i] by {
            assert(keys@.contains(key_of(chunks@, i)));
            let q = choose|q: int| 0 <= q < keys@.len() && keys@[q] == key_of(chunks@, i);
            assert(keys@[q].2 == i);
        }
        assert(out@ =~= goal);
    }
    Ok(out)
}

} // verus!
