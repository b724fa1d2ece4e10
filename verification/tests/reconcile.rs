use dzip_core::error::DzipError;
use dzip_core::metadata::RawChunk;
use dzip_core::reconcile::{calculate_chunk_sizes, real_compressed_length};

fn chunk(id: u16, offset: u32, c_len: u32, d_len: u32, flags: u16, file_idx: u16) -> RawChunk {
    RawChunk { id, offset, _head_c_len: c_len, d_len, flags, file_idx, real_c_len: 0 }
}

fn lengths(chunks: &[RawChunk], lens: &[u64]) -> Vec<u32> {
    calculate_chunk_sizes(&chunks.to_vec(), &lens.to_vec())
        .unwrap()
        .iter()
        .map(|c| c.real_c_len)
        .collect()
}

#[test]
fn equal_sized_zlib_chunk_takes_what_is_available() {
    // the volume ends 7 bytes behind the start of the chunk
    assert_eq!(lengths(&[chunk(0, 50, 10, 10, 0x8, 0)], &[57]), vec![7]);
    // also where more is available than the record claims
    assert_eq!(lengths(&[chunk(0, 50, 10, 10, 0x8, 0)], &[80]), vec![30]);
    for flags in [0x4u16, 0x8, 0x10, 0x200] {
        assert_eq!(real_compressed_length(&chunk(0, 50, 10, 10, flags, 0), 57), 7);
    }
}

#[test]
fn overlong_chunk_is_clamped() {
    assert_eq!(lengths(&[chunk(0, 10, 100, 200, 0x8, 0)], &[40]), vec![30]);
    assert_eq!(lengths(&[chunk(0, 10, 100, 100, 0x100, 0)], &[40]), vec![30]);
}

#[test]
fn plausible_length_is_kept() {
    assert_eq!(lengths(&[chunk(0, 10, 20, 200, 0x8, 0)], &[40]), vec![20]);
    // an uncompressed chunk of equal sizes is no placeholder
    assert_eq!(lengths(&[chunk(0, 10, 20, 20, 0x100, 0)], &[40]), vec![20]);
}

#[test]
fn limit_before_the_chunk_keeps_the_record() {
    assert_eq!(lengths(&[chunk(0, 100, 5, 5, 0x8, 0)], &[50]), vec![5]);
    assert_eq!(real_compressed_length(&chunk(0, 100, 5, 9, 0x100, 0), 99), 5);
}

#[test]
fn neighbours_in_the_same_volume_set_the_limit() {
    // table order differs from disk order, and two volumes are interleaved
    let chunks = [
        chunk(0, 300, 999, 10, 0x100, 0),
        chunk(1, 0, 999, 10, 0x100, 1),
        chunk(2, 100, 50, 10, 0x100, 0),
        chunk(3, 40, 7, 7, 0x8, 1),
        chunk(4, 200, 100, 100, 0x10, 0),
    ];
    let out = calculate_chunk_sizes(&chunks.to_vec(), &vec![350, 64]).unwrap();
    assert_eq!(out.iter().map(|c| c.real_c_len).collect::<Vec<_>>(), vec![50, 40, 50, 24, 100]);
    for (a, b) in chunks.iter().zip(out.iter()) {
        assert_eq!((a.id, a.offset, a._head_c_len, a.d_len, a.flags, a.file_idx),
                   (b.id, b.offset, b._head_c_len, b.d_len, b.flags, b.file_idx));
    }
    // no chunk passes the next one or the end of its volume
    for c in &out {
        let len = if c.file_idx == 0 { 350u64 } else { 64 };
        assert!(c.offset as u64 + c.real_c_len as u64 <= len);
        for d in &out {
            if d.file_idx == c.file_idx && d.offset > c.offset {
                assert!(c.offset + c.real_c_len <= d.offset);
            }
        }
    }
}

#[test]
fn chunks_at_the_same_offset_go_in_table_order() {
    let chunks = [chunk(0, 10, 5, 5, 0x8, 0), chunk(1, 10, 5, 5, 0x8, 0)];
    assert_eq!(lengths(&chunks, &[30]), vec![0, 20]);
}

#[test]
fn large_volume_wraps_the_placeholder_length() {
    let big = 0x1_0000_0000u64 + 12;
    assert_eq!(real_compressed_length(&chunk(0, 2, 10, 10, 0x8, 0), big), 10);
    assert_eq!(real_compressed_length(&chunk(0, 2, 10, 11, 0x8, 0), big), 10);
}

#[test]
fn unknown_volume_is_a_format_error() {
    let chunks = vec![chunk(0, 0, 1, 1, 0x100, 0), chunk(1, 0, 1, 1, 0x100, 2)];
    assert!(matches!(calculate_chunk_sizes(&chunks, &vec![10, 10]), Err(DzipError::Format(_))));
    assert!(calculate_chunk_sizes(&chunks, &vec![10, 10, 10]).is_ok());
    assert!(calculate_chunk_sizes(&Vec::new(), &Vec::new()).unwrap().is_empty());
}
