//! The variable-length blocks of the archive header: string tables, the
//! file-to-chunk map and the chunk table.
//!
//! For each block this module states the bytes it is stored as and what a
//! reader finds when it starts at a position of a byte sequence, and proves
//! that reading the stored form gives the block back.

use crate::bytes::{lemma_u16_at_encoded, u16_at, u16_le};
use crate::format::{ChunkDiskEntry, CHUNK_LIST_TERMINATOR};
use vstd::prelude::*;

verus! {

/// The first index from `i` on at which `s` holds a zero byte, or the length
/// of `s` where there is none.
pub open spec fn first_nul(s: Seq<u8>, i: int) -> int
    decreases s.len() - i,
{
    if i < 0 || i >= s.len() {
        s.len() as int
    } else if s[i] == 0 {
        i
    } else {
        first_nul(s, i + 1)
    }
}

/// `first_nul` finds a zero byte, and no zero byte lies before it.
pub proof fn lemma_first_nul(s: Seq<u8>, i: int)
    requires
        0 <= i <= s.len(),
    ensures
        i <= first_nul(s, i) <= s.len(),
        forall|k: int| i <= k < first_nul(s, i) ==> s[k] != 0,
        first_nul(s, i) < s.len() ==> s[first_nul(s, i)] == 0,
    decreases s.len() - i,
{
    if i < s.len() && s[i] != 0 {
        lemma_first_nul(s, i + 1);
    }
}

/// A zero byte at `n` with none between `i` and `n` is what `first_nul` finds.
pub proof fn lemma_first_nul_is(s: Seq<u8>, i: int, n: int)
    requires
        0 <= i <= n < s.len(),
        forall|k: int| i <= k < n ==> s[k] != 0,
        s[n] == 0,
    ensures
        first_nul(s, i) == n,
    decreases n - i,
{
    if i < n {
        lemma_first_nul_is(s, i + 1, n);
    }
}

/// Whether `name` can be stored as a zero-terminated string: it holds no zero byte.
pub open spec fn nul_free(name: Seq<u8>) -> bool {
    forall|k: int| 0 <= k < name.len() ==> name[k] != 0
}

/// A string followed by its terminator.
pub open spec fn cstr_bytes(name: Seq<u8>) -> Seq<u8> {
    name + seq![0u8]
}

/// The stored form of a string table: each string followed by a zero byte.
pub open spec fn strings_bytes(names: Seq<Seq<u8>>) -> Seq<u8> {
    names.map_values(|n: Seq<u8>| cstr_bytes(n)).flatten()
}

/// What a reader of `count` zero-terminated strings finds from index `i` on:
/// the strings without their terminators and the index behind the last
/// terminator, or `None` where the bytes end before the last terminator.
pub open spec fn parse_strings(s: Seq<u8>, i: int, count: nat) -> Option<(Seq<Seq<u8>>, int)>
    decreases count,
{
    if count == 0 {
        Some((Seq::empty(), i))
    } else {
        let n = first_nul(s, i);
        if i < 0 || n >= s.len() {
            None
        } else {
            match parse_strings(s, n + 1, (count - 1) as nat) {
                None => None,
                Some((rest, end)) => Some((seq![s.subrange(i, n)] + rest, end)),
            }
        }
    }
}

/// A successful read of strings ends inside the bytes, gives as many strings
/// as were asked for, and none of them holds a zero byte.
pub proof fn lemma_parse_strings_bounds(s: Seq<u8>, i: int, count: nat)
    requires
        0 <= i <= s.len(),
    ensures
        parse_strings(s, i, count) matches Some((names, end)) ==> {
            &&& i <= end <= s.len()
            &&& names.len() == count
            &&& forall|k: int| 0 <= k < names.len() ==> nul_free(#[trigger] names[k])
            &&& strings_bytes(names) == s.subrange(i, end)
        },
    decreases count,
{
    if count == 0 {
        assert(strings_bytes(Seq::empty()) =~= s.subrange(i, i));
    } else {
        let n = first_nul(s, i);
        lemma_first_nul(s, i);
        if n < s.len() {
            lemma_parse_strings_bounds(s, n + 1, (count - 1) as nat);
            match parse_strings(s, n + 1, (count - 1) as nat) {
                None => {},
                Some((rest, end)) => {
                    let names = seq![s.subrange(i, n)] + rest;
                    assert forall|k: int| 0 <= k < names.len() implies nul_free(
                        #[trigger] names[k],
                    ) by {
                        if k > 0 {
                            assert(names[k] == rest[k - 1]);
                        }
                    }
                    lemma_strings_bytes_cons(s.subrange(i, n), rest);
                    assert(cstr_bytes(s.subrange(i, n)) =~= s.subrange(i, n + 1));
                    assert(s.subrange(i, n + 1) + s.subrange(n + 1, end) =~= s.subrange(i, end));
                },
            }
        }
    }
}

/// The stored form of a table is that of its first string followed by that
/// of the others.
pub proof fn lemma_strings_bytes_cons(head: Seq<u8>, rest: Seq<Seq<u8>>)
    ensures
        strings_bytes(seq![head] + rest) == cstr_bytes(head) + strings_bytes(rest),
{
    let f = |n: Seq<u8>| cstr_bytes(n);
    let all = (seq![head] + rest).map_values(f);
    assert(all.first() == cstr_bytes(head));
    assert(all.drop_first() =~= rest.map_values(f));
}

/// The stored form of a table grows by one terminated string when a string
/// is added at its end.
pub proof fn lemma_strings_bytes_push(names: Seq<Seq<u8>>, last: Seq<u8>)
    ensures
        strings_bytes(names.push(last)) == strings_bytes(names) + cstr_bytes(last),
{
    let f = |n: Seq<u8>| cstr_bytes(n);
    assert(names.push(last).map_values(f) =~= names.map_values(f).push(cstr_bytes(last)));
    names.map_values(f).lemma_flatten_push(cstr_bytes(last));
}

/// Reading a stored string table gives the table back: where the bytes from
/// `i` on are the stored form of `names`, and no name holds a zero byte, a
/// reader of `names.len()` strings finds exactly `names` and ends behind them.
pub proof fn lemma_parse_strings_encoded(s: Seq<u8>, i: int, names: Seq<Seq<u8>>)
    requires
        0 <= i,
        i + strings_bytes(names).len() <= s.len(),
        s.subrange(i, i + strings_bytes(names).len()) == strings_bytes(names),
        forall|k: int| 0 <= k < names.len() ==> nul_free(#[trigger] names[k]),
    ensures
        parse_strings(s, i, names.len()) == Some((names, i + strings_bytes(names).len())),
    decreases names.len(),
{
    if names.len() == 0 {
        assert(names =~= Seq::empty());
        assert(strings_bytes(names) =~= Seq::<u8>::empty());
    } else {
        let head = names.first();
        let rest = names.drop_first();
        assert(names =~= seq![head] + rest);
        lemma_strings_bytes_cons(head, rest);
        let all = strings_bytes(names);
        let n = i + head.len();
        assert(nul_free(names[0]));
        assert forall|k: int| i <= k < n implies s[k] != 0 by {
            assert(s[k] == s.subrange(i, i + all.len())[k - i]);
            assert(all[k - i] == head[k - i]);
        }
        assert(s[n] == s.subrange(i, i + all.len())[n - i]);
        assert(all[n - i] == 0);
        lemma_first_nul_is(s, i, n);
        assert forall|k: int| 0 <= k < rest.len() implies nul_free(#[trigger] rest[k]) by {
            assert(rest[k] == names[k + 1]);
        }
        assert(s.subrange(n + 1, n + 1 + strings_bytes(rest).len()) =~= strings_bytes(rest)) by {
            assert forall|k: int| 0 <= k < strings_bytes(rest).len() implies s[n + 1 + k]
                == strings_bytes(rest)[k] by {
                assert(s[n + 1 + k] == s.subrange(i, i + all.len())[n + 1 + k - i]);
            }
        }
        lemma_parse_strings_encoded(s, n + 1, rest);
        assert(s.subrange(i, n) =~= head) by {
            assert forall|k: int| 0 <= k < head.len() implies s[i + k] == head[k] by {
                assert(s[i + k] == s.subrange(i, i + all.len())[k]);
            }
        }
    }
}

/// The chunk ids of one file, each as two little-endian bytes.
pub open spec fn ids_bytes(ids: Seq<u16>) -> Seq<u8> {
    ids.map_values(|v: u16| u16_le(v)).flatten()
}

/// One record of the file-to-chunk map: the directory index, the chunk ids
/// in order, and the terminator.
pub open spec fn map_entry_bytes(entry: (u16, Seq<u16>)) -> Seq<u8> {
    u16_le(entry.0) + ids_bytes(entry.1) + u16_le(CHUNK_LIST_TERMINATOR)
}

/// The stored form of the file-to-chunk map.
pub open spec fn file_map_bytes(entries: Seq<(u16, Seq<u16>)>) -> Seq<u8> {
    entries.map_values(|e: (u16, Seq<u16>)| map_entry_bytes(e)).flatten()
}

/// Whether a chunk list can be stored: no id is the terminator.
pub open spec fn terminator_free(ids: Seq<u16>) -> bool {
    forall|k: int| 0 <= k < ids.len() ==> ids[k] != CHUNK_LIST_TERMINATOR
}

/// What a reader of a chunk list finds from index `i` on: the ids before
/// the terminator and the index behind the terminator, or `None` where the
/// bytes end before a terminator.
pub open spec fn parse_ids(s: Seq<u8>, i: int) -> Option<(Seq<u16>, int)>
    decreases s.len() - i,
{
    if i < 0 || i + 2 > s.len() {
        None
    } else if u16_at(s, i) == CHUNK_LIST_TERMINATOR {
        Some((Seq::empty(), i + 2))
    } else {
        match parse_ids(s, i + 2) {
            None => None,
            Some((rest, end)) => Some((seq![u16_at(s, i)] + rest, end)),
        }
    }
}

/// What a reader of `count` map records finds from index `i` on.
pub open spec fn parse_file_map(s: Seq<u8>, i: int, count: nat) -> Option<
    (Seq<(u16, Seq<u16>)>, int),
>
    decreases count,
{
    if count == 0 {
        Some((Seq::empty(), i))
    } else if i < 0 || i + 2 > s.len() {
        None
    } else {
        match parse_ids(s, i + 2) {
            None => None,
            Some((ids, next)) => match parse_file_map(s, next, (count - 1) as nat) {
                None => None,
                Some((rest, end)) => Some((seq![(u16_at(s, i), ids)] + rest, end)),
            },
        }
    }
}

/// The ids of a list are those of its first id followed by the others.
pub proof fn lemma_ids_bytes_cons(head: u16, rest: Seq<u16>)
    ensures
        ids_bytes(seq![head] + rest) == u16_le(head) + ids_bytes(rest),
{
    let f = |v: u16| u16_le(v);
    let all = (seq![head] + rest).map_values(f);
    assert(all.first() == u16_le(head));
    assert(all.drop_first() =~= rest.map_values(f));
}

/// The stored ids grow by two bytes when an id is added at the end.
pub proof fn lemma_ids_bytes_push(ids: Seq<u16>, last: u16)
    ensures
        ids_bytes(ids.push(last)) == ids_bytes(ids) + u16_le(last),
{
    let f = |v: u16| u16_le(v);
    assert(ids.push(last).map_values(f) =~= ids.map_values(f).push(u16_le(last)));
    ids.map_values(f).lemma_flatten_push(u16_le(last));
}

/// Each id takes two bytes.
pub proof fn lemma_ids_bytes_len(ids: Seq<u16>)
    ensures
        ids_bytes(ids).len() == 2 * ids.len(),
    decreases ids.len(),
{
    if ids.len() == 0 {
        assert(ids.map_values(|v: u16| u16_le(v)) =~= Seq::empty());
    } else {
        assert(ids =~= seq![ids.first()] + ids.drop_first());
        lemma_ids_bytes_cons(ids.first(), ids.drop_first());
        lemma_ids_bytes_len(ids.drop_first());
    }
}

/// The stored map is the first record followed by the stored form of the others.
pub proof fn lemma_file_map_bytes_cons(head: (u16, Seq<u16>), rest: Seq<(u16, Seq<u16>)>)
    ensures
        file_map_bytes(seq![head] + rest) == map_entry_bytes(head) + file_map_bytes(rest),
{
    let f = |e: (u16, Seq<u16>)| map_entry_bytes(e);
    let all = (seq![head] + rest).map_values(f);
    assert(all.first() == map_entry_bytes(head));
    assert(all.drop_first() =~= rest.map_values(f));
}

/// The stored map grows by one record when a record is added at the end.
pub proof fn lemma_file_map_bytes_push(entries: Seq<(u16, Seq<u16>)>, last: (u16, Seq<u16>))
    ensures
        file_map_bytes(entries.push(last)) == file_map_bytes(entries) + map_entry_bytes(last),
{
    let f = |e: (u16, Seq<u16>)| map_entry_bytes(e);
    assert(entries.push(last).map_values(f) =~= entries.map_values(f).push(map_entry_bytes(last)));
    entries.map_values(f).lemma_flatten_push(map_entry_bytes(last));
}

/// A successful read of a chunk list ends inside the bytes and yields no
/// terminator among the ids.
pub proof fn lemma_parse_ids_bounds(s: Seq<u8>, i: int)
    requires
        0 <= i <= s.len(),
    ensures
        parse_ids(s, i) matches Some((ids, end)) ==> {
            &&& i + 2 <= end <= s.len()
            &&& end == i + 2 * ids.len() + 2
            &&& terminator_free(ids)
        },
    decreases s.len() - i,
{
    if i + 2 <= s.len() && u16_at(s, i) != CHUNK_LIST_TERMINATOR {
        lemma_parse_ids_bounds(s, i + 2);
        match parse_ids(s, i + 2) {
            None => {},
            Some((rest, end)) => {
                let ids = seq![u16_at(s, i)] + rest;
                assert forall|k: int| 0 <= k < ids.len() implies ids[k]
                    != CHUNK_LIST_TERMINATOR by {
                    if k > 0 {
                        assert(ids[k] == rest[k - 1]);
                    }
                }
            },
        }
    }
}

/// A successful read of the map ends inside the bytes and gives as many
/// records as were asked for.
pub proof fn lemma_parse_file_map_bounds(s: Seq<u8>, i: int, count: nat)
    requires
        0 <= i <= s.len(),
    ensures
        parse_file_map(s, i, count) matches Some((entries, end)) ==> {
            &&& i <= end <= s.len()
            &&& entries.len() == count
            &&& forall|k: int| 0 <= k < entries.len() ==> terminator_free(#[trigger] entries[k].1)
        },
    decreases count,
{
    if count > 0 && i + 2 <= s.len() {
        lemma_parse_ids_bounds(s, i + 2);
        match parse_ids(s, i + 2) {
            None => {},
            Some((ids, next)) => {
                lemma_parse_file_map_bounds(s, next, (count - 1) as nat);
                match parse_file_map(s, next, (count - 1) as nat) {
                    None => {},
                    Some((rest, end)) => {
                        let entries = seq![(u16_at(s, i), ids)] + rest;
                        assert forall|k: int| 0 <= k < entries.len() implies terminator_free(
                            #[trigger] entries[k].1,
                        ) by {
                            if k > 0 {
                                assert(entries[k] == rest[k - 1]);
                            }
                        }
                    },
                }
            },
        }
    }
}

/// Reading a stored chunk list gives the list back, provided no id is the terminator.
pub proof fn lemma_parse_ids_encoded(s: Seq<u8>, i: int, ids: Seq<u16>)
    requires
        0 <= i,
        i + 2 * ids.len() + 2 <= s.len(),
        s.subrange(i, i + 2 * ids.len() + 2) == ids_bytes(ids) + u16_le(CHUNK_LIST_TERMINATOR),
        terminator_free(ids),
    ensures
        parse_ids(s, i) == Some((ids, i + 2 * ids.len() + 2)),
    decreases ids.len(),
{
    let stored = ids_bytes(ids) + u16_le(CHUNK_LIST_TERMINATOR);
    let total = 2 * ids.len() + 2;
    lemma_ids_bytes_len(ids);
    if ids.len() == 0 {
        assert(ids =~= Seq::empty());
        assert(s.subrange(i, i + 2) =~= u16_le(CHUNK_LIST_TERMINATOR)) by {
            assert(stored =~= u16_le(CHUNK_LIST_TERMINATOR));
        }
        lemma_u16_at_encoded(s, i, CHUNK_LIST_TERMINATOR);
    } else {
        let head = ids.first();
        let rest = ids.drop_first();
        assert(ids =~= seq![head] + rest);
        lemma_ids_bytes_cons(head, rest);
        lemma_ids_bytes_len(rest);
        assert(s.subrange(i, i + 2) =~= u16_le(head)) by {
            assert forall|k: int| 0 <= k < 2 implies s[i + k] == u16_le(head)[k] by {
                assert(s[i + k] == s.subrange(i, i + total)[k]);
                assert(stored[k] == u16_le(head)[k]);
            }
        }
        lemma_u16_at_encoded(s, i, head);
        assert(ids[0] != CHUNK_LIST_TERMINATOR);
        let rest_stored = ids_bytes(rest) + u16_le(CHUNK_LIST_TERMINATOR);
        assert(s.subrange(i + 2, i + 2 + 2 * rest.len() + 2) =~= rest_stored) by {
            assert forall|k: int| 0 <= k < rest_stored.len() implies s[i + 2 + k]
                == rest_stored[k] by {
                assert(s[i + 2 + k] == s.subrange(i, i + total)[k + 2]);
                assert(stored[k + 2] == rest_stored[k]);
            }
        }
        assert forall|k: int| 0 <= k < rest.len() implies rest[k] != CHUNK_LIST_TERMINATOR by {
            assert(rest[k] == ids[k + 1]);
        }
        lemma_parse_ids_encoded(s, i + 2, rest);
    }
}

/// The length of one stored map record.
pub proof fn lemma_map_entry_bytes_len(entry: (u16, Seq<u16>))
    ensures
        map_entry_bytes(entry).len() == 4 + 2 * entry.1.len(),
{
    lemma_ids_bytes_len(entry.1);
}

/// Reading a stored file-to-chunk map gives the map back, provided no
/// chunk id in it is the terminator.
pub proof fn lemma_parse_file_map_encoded(s: Seq<u8>, i: int, entries: Seq<(u16, Seq<u16>)>)
    requires
        0 <= i,
        i + file_map_bytes(entries).len() <= s.len(),
        s.subrange(i, i + file_map_bytes(entries).len()) == file_map_bytes(entries),
        forall|k: int| 0 <= k < entries.len() ==> terminator_free(#[trigger] entries[k].1),
    ensures
        parse_file_map(s, i, entries.len()) == Some((entries, i + file_map_bytes(entries).len())),
    decreases entries.len(),
{
    if entries.len() == 0 {
        assert(entries =~= Seq::empty());
        assert(file_map_bytes(entries) =~= Seq::<u8>::empty());
    } else {
        let head = entries.first();
        let rest = entries.drop_first();
        assert(entries =~= seq![head] + rest);
        lemma_file_map_bytes_cons(head, rest);
        lemma_map_entry_bytes_len(head);
        lemma_ids_bytes_len(head.1);
        let all = file_map_bytes(entries);
        let hb = map_entry_bytes(head);
        assert(s.subrange(i, i + 2) =~= u16_le(head.0)) by {
            assert forall|k: int| 0 <= k < 2 implies s[i + k] == u16_le(head.0)[k] by {
                assert(s[i + k] == s.subrange(i, i + all.len())[k]);
                assert(all[k] == hb[k]);
            }
        }
        lemma_u16_at_encoded(s, i, head.0);
        let ids_stored = ids_bytes(head.1) + u16_le(CHUNK_LIST_TERMINATOR);
        assert(s.subrange(i + 2, i + 2 + 2 * head.1.len() + 2) =~= ids_stored) by {
            assert forall|k: int| 0 <= k < ids_stored.len() implies s[i + 2 + k]
                == ids_stored[k] by {
                assert(s[i + 2 + k] == s.subrange(i, i + all.len())[k + 2]);
                assert(all[k + 2] == hb[k + 2]);
            }
        }
        assert(terminator_free(entries[0].1));
        lemma_parse_ids_encoded(s, i + 2, head.1);
        let next = i + hb.len();
        assert(s.subrange(next, next + file_map_bytes(rest).len()) =~= file_map_bytes(rest)) by {
            assert forall|k: int| 0 <= k < file_map_bytes(rest).len() implies s[next + k]
                == file_map_bytes(rest)[k] by {
                assert(s[next + k] == s.subrange(i, i + all.len())[hb.len() + k]);
            }
        }
        assert forall|k: int| 0 <= k < rest.len() implies terminator_free(
            #[trigger] rest[k].1,
        ) by {
            assert(rest[k] == entries[k + 1]);
        }
        lemma_parse_file_map_encoded(s, next, rest);
    }
}

/// The stored form of the chunk table: sixteen bytes a record.
pub open spec fn chunks_bytes(chunks: Seq<ChunkDiskEntry>) -> Seq<u8> {
    chunks.map_values(|c: ChunkDiskEntry| c.spec_bytes()).flatten()
}

/// What a reader of `count` chunk records finds from index `i` on.
pub open spec fn parse_chunks(s: Seq<u8>, i: int, count: nat) -> Option<Seq<ChunkDiskEntry>> {
    if 0 <= i && i + 16 * count <= s.len() {
        Some(Seq::new(count, |k: int| ChunkDiskEntry::spec_at(s, i + 16 * k)))
    } else {
        None
    }
}

/// The stored table grows by one record when a record is added at the end.
pub proof fn lemma_chunks_bytes_push(chunks: Seq<ChunkDiskEntry>, last: ChunkDiskEntry)
    ensures
        chunks_bytes(chunks.push(last)) == chunks_bytes(chunks) + last.spec_bytes(),
{
    let f = |c: ChunkDiskEntry| c.spec_bytes();
    assert(chunks.push(last).map_values(f) =~= chunks.map_values(f).push(last.spec_bytes()));
    chunks.map_values(f).lemma_flatten_push(last.spec_bytes());
}

/// The stored table takes sixteen bytes a record, and record `k` lies at
/// sixteen times `k`.
pub proof fn lemma_chunks_bytes_layout(chunks: Seq<ChunkDiskEntry>)
    ensures
        chunks_bytes(chunks).len() == 16 * chunks.len(),
        forall|k: int|
            0 <= k < chunks.len() ==> chunks_bytes(chunks).subrange(16 * k, 16 * k + 16)
                == (#[trigger] chunks[k]).spec_bytes(),
    decreases chunks.len(),
{
    if chunks.len() == 0 {
        assert(chunks.map_values(|c: ChunkDiskEntry| c.spec_bytes()) =~= Seq::empty());
    } else {
        let init = chunks.drop_last();
        let last = chunks.last();
        assert(chunks =~= init.push(last));
        lemma_chunks_bytes_push(init, last);
        lemma_chunks_bytes_layout(init);
        let all = chunks_bytes(chunks);
        assert forall|k: int| 0 <= k < chunks.len() implies all.subrange(16 * k, 16 * k + 16) == (
        #[trigger] chunks[k]).spec_bytes() by {
            if k < init.len() {
                assert(init[k] == chunks[k]);
                assert(all.subrange(16 * k, 16 * k + 16) =~= chunks_bytes(init).subrange(
                    16 * k,
                    16 * k + 16,
                ));
            } else {
                assert(all.subrange(16 * k, 16 * k + 16) =~= last.spec_bytes());
            }
        }
    }
}

/// Reading a stored chunk table gives the table back.
pub proof fn lemma_parse_chunks_encoded(s: Seq<u8>, i: int, chunks: Seq<ChunkDiskEntry>)
    requires
        0 <= i,
        i + 16 * chunks.len() <= s.len(),
        s.subrange(i, i + 16 * chunks.len()) == chunks_bytes(chunks),
    ensures
        parse_chunks(s, i, chunks.len()) == Some(chunks),
{
    lemma_chunks_bytes_layout(chunks);
    let found = Seq::new(chunks.len(), |k: int| ChunkDiskEntry::spec_at(s, i + 16 * k));
    assert forall|k: int| 0 <= k < chunks.len() implies found[k] == chunks[k] by {
        let whole = s.subrange(i, i + 16 * chunks.len());
        assert(s.subrange(i + 16 * k, i + 16 * k + 16) =~= whole.subrange(16 * k, 16 * k + 16));
        chunks[k].lemma_at_encoded(s, i + 16 * k);
    }
    assert(found =~= chunks);
}

} // verus!
