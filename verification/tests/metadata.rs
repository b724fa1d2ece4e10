use dzip_core::error::DzipError;
use dzip_core::format::{
    ArchiveHeader, ChunkDiskEntry, ChunkTableHeader, RangeSettingsDisk, CHUNK_LIST_TERMINATOR,
    MAGIC,
};
use dzip_core::metadata::ArchiveMetadata;
use dzip_core::writer::DzipWriter;

fn header(num_files: u16, num_dirs: u16, version: u8) -> Vec<u8> {
    let mut w = DzipWriter::new(Vec::new());
    w.write_archive_settings(&ArchiveHeader { magic: MAGIC, num_files, num_dirs, version }).unwrap();
    w.into_inner()
}

fn sample_archive() -> Vec<u8> {
    let mut w = DzipWriter::new(Vec::new());
    w.write_archive_settings(&ArchiveHeader {
        magic: MAGIC,
        num_files: 2,
        num_dirs: 2,
        version: 0,
    })
    .unwrap();
    w.write_strings(&["a.txt".to_string(), "b.bin".to_string()]).unwrap();
    w.write_strings(&["sub\\dir".to_string()]).unwrap();
    w.write_file_chunk_map(&[(0, vec![0]), (1, vec![1, 2])]).unwrap();
    w.write_chunk_settings(&ChunkTableHeader { num_arch_files: 2, num_chunks: 3 }).unwrap();
    w.write_chunks(&[
        ChunkDiskEntry { offset: 100, c_len: 4, d_len: 4, flags: 0x100, file_idx: 0 },
        ChunkDiskEntry { offset: 0, c_len: 9, d_len: 20, flags: 0x8, file_idx: 1 },
        ChunkDiskEntry { offset: 9, c_len: 3, d_len: 3, flags: 0x4, file_idx: 1 },
    ])
    .unwrap();
    w.write_strings(&["vol.d01".to_string()]).unwrap();
    w.write_global_settings(&RangeSettingsDisk {
        win_size: 1,
        flags: 2,
        offset_table_size: 3,
        offset_tables: 4,
        offset_contexts: 5,
        ref_length_table_size: 6,
        ref_length_tables: 7,
        ref_offset_table_size: 8,
        ref_offset_tables: 9,
        big_min_match: 10,
    })
    .unwrap();
    let mut bytes = w.into_inner();
    bytes.extend_from_slice(b"payload");
    bytes
}

#[test]
fn parse_reads_every_block() {
    let bytes = sample_archive();
    let meta = ArchiveMetadata::parse(&bytes).unwrap();
    assert_eq!(meta.version, 0);
    assert_eq!(meta.user_files, vec!["a.txt".to_string(), "b.bin".to_string()]);
    assert_eq!(meta.directories, vec![".".to_string(), "sub\\dir".to_string()]);
    assert_eq!(meta.map_entries.len(), 2);
    assert_eq!(meta.map_entries[0].dir_idx, 0);
    assert_eq!(meta.map_entries[0].chunk_ids, vec![0]);
    assert_eq!(meta.map_entries[1].dir_idx, 1);
    assert_eq!(meta.map_entries[1].chunk_ids, vec![1, 2]);
    assert_eq!(meta.raw_chunks.len(), 3);
    for (i, c) in meta.raw_chunks.iter().enumerate() {
        assert_eq!(c.id as usize, i);
        assert_eq!(c.real_c_len, 0);
    }
    assert_eq!(meta.raw_chunks[1].offset, 0);
    assert_eq!(meta.raw_chunks[1]._head_c_len, 9);
    assert_eq!(meta.raw_chunks[1].d_len, 20);
    assert_eq!(meta.raw_chunks[1].flags, 0x8);
    assert_eq!(meta.raw_chunks[1].file_idx, 1);
    assert_eq!(meta.split_file_names, vec!["vol.d01".to_string()]);
    let range = meta.range_settings.unwrap();
    assert_eq!(range.win_size, 1);
    assert_eq!(range.big_min_match, 10);
    assert_eq!(meta.main_file_len, bytes.len() as u64);
}

#[test]
fn directory_list_has_the_root_in_front() {
    let mut w = DzipWriter::new(header(0, 3, 0));
    w.write_strings(&["x".to_string(), "y".to_string()]).unwrap();
    w.write_chunk_settings(&ChunkTableHeader { num_arch_files: 1, num_chunks: 0 }).unwrap();
    let meta = ArchiveMetadata::parse(&w.into_inner()).unwrap();
    assert_eq!(meta.directories.len(), 3);
    assert_eq!(meta.directories[0], ".");
}

#[test]
fn wrong_magic_is_reported_with_what_was_found() {
    let mut bytes = sample_archive();
    bytes[0] = 0x45;
    match ArchiveMetadata::parse(&bytes) {
        Err(DzipError::InvalidMagic(found)) => assert_eq!(found, 0x5A525445),
        other => panic!("unexpected outcome {:?}", other),
    }
    // the magic is looked at before the rest of the header is asked for
    match ArchiveMetadata::parse(&[1, 2, 3, 4]) {
        Err(DzipError::InvalidMagic(found)) => assert_eq!(found, 0x04030201),
        other => panic!("unexpected outcome {:?}", other),
    }
}

#[test]
fn truncated_archives_are_format_errors() {
    let bytes = sample_archive();
    let header_len = bytes.len() - b"payload".len();
    for len in 0..header_len {
        match ArchiveMetadata::parse(&bytes[..len]) {
            Err(DzipError::Format(_)) => {}
            other => panic!("length {}: unexpected outcome {:?}", len, other),
        }
    }
    assert!(ArchiveMetadata::parse(&bytes[..header_len]).is_ok());
}

#[test]
fn zero_directories_are_a_format_error() {
    let mut w = DzipWriter::new(header(0, 0, 0));
    w.write_chunk_settings(&ChunkTableHeader { num_arch_files: 1, num_chunks: 0 }).unwrap();
    assert!(matches!(ArchiveMetadata::parse(&w.into_inner()), Err(DzipError::Format(_))));
}

#[test]
fn other_versions_are_refused() {
    let mut w = DzipWriter::new(header(0, 1, 3));
    w.write_chunk_settings(&ChunkTableHeader { num_arch_files: 1, num_chunks: 0 }).unwrap();
    match ArchiveMetadata::parse(&w.into_inner()) {
        Err(DzipError::UnsupportedVersion(v)) => assert_eq!(v, 3),
        other => panic!("unexpected outcome {:?}", other),
    }
}

#[test]
fn a_volume_count_of_zero_means_no_splits() {
    let mut w = DzipWriter::new(header(0, 1, 0));
    w.write_chunk_settings(&ChunkTableHeader { num_arch_files: 0, num_chunks: 0 }).unwrap();
    let meta = ArchiveMetadata::parse(&w.into_inner()).unwrap();
    assert!(meta.split_file_names.is_empty());
    assert!(meta.range_settings.is_none());
}

#[test]
fn a_file_without_chunks_has_only_the_terminator() {
    let mut w = DzipWriter::new(header(1, 1, 0));
    w.write_strings(&["empty".to_string()]).unwrap();
    w.write_file_chunk_map(&[(0, vec![])]).unwrap();
    w.write_chunk_settings(&ChunkTableHeader { num_arch_files: 1, num_chunks: 0 }).unwrap();
    let bytes = w.into_inner();
    assert_eq!(&bytes[15..19], &[0, 0, 0xFF, 0xFF]);
    assert_eq!(CHUNK_LIST_TERMINATOR, 0xFFFF);
    let meta = ArchiveMetadata::parse(&bytes).unwrap();
    assert_eq!(meta.map_entries[0].chunk_ids, Vec::<u16>::new());
}

#[test]
fn truncation_is_reported_in_words() {
    match dzip_core::reader::truncated() {
        DzipError::Format(message) => assert_eq!(message, "unexpected end of archive header"),
        other => panic!("unexpected error {:?}", other),
    }
}
