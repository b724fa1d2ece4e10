use dzip_core::format::{ArchiveHeader, ChunkDiskEntry, ChunkTableHeader, RangeSettingsDisk};
use dzip_core::reader::DzipReader;
use dzip_core::writer::{patch_bytes, patch_chunk_table, DzipWriter};

#[test]
fn test_roundtrip() {
    let archive_settings =
        ArchiveHeader { magic: 0x5A525444, num_files: 2, num_dirs: 1, version: 0 };
    let strings = vec!["file1.txt".to_string(), "file2.txt".to_string(), "dir1".to_string()];
    let map = vec![(0, vec![0]), (0, vec![1])];
    let chunk_settings = ChunkTableHeader {
        num_arch_files: 2, // Means 1 file in file list
        num_chunks: 2,
    };
    let chunks = vec![
        ChunkDiskEntry { offset: 0, c_len: 10, d_len: 10, flags: 0, file_idx: 0 },
        ChunkDiskEntry { offset: 10, c_len: 20, d_len: 20, flags: 0, file_idx: 0 },
    ];
    let file_list = vec!["archive.dzip".to_string()];
    let global_settings = RangeSettingsDisk {
        win_size: 0,
        flags: 0,
        offset_table_size: 0,
        offset_tables: 0,
        offset_contexts: 0,
        ref_length_table_size: 0,
        ref_length_tables: 0,
        ref_offset_table_size: 0,
        ref_offset_tables: 0,
        big_min_match: 0,
    };

    // Pack
    let buffer = {
        let mut writer = DzipWriter::new(Vec::new());
        writer.write_archive_settings(&archive_settings).unwrap();
        writer.write_strings(&strings).unwrap();
        writer.write_file_chunk_map(&map).unwrap();
        writer.write_chunk_settings(&chunk_settings).unwrap();
        writer.write_chunks(&chunks).unwrap();
        writer.write_strings(&file_list).unwrap(); // File list is just strings
        writer.write_global_settings(&global_settings).unwrap();
        writer.into_inner()
    };

    // Unpack
    let mut reader = DzipReader::new(&buffer);
    let read_archive_settings = reader.read_archive_settings().unwrap();
    assert_eq!(archive_settings, read_archive_settings);

    let read_strings = reader
        .read_strings((archive_settings.num_files + archive_settings.num_dirs) as usize)
        .unwrap();
    assert_eq!(strings, read_strings);

    let read_map = reader.read_file_chunk_map(archive_settings.num_files as usize).unwrap();
    assert_eq!(map, read_map);

    let read_chunk_settings = reader.read_chunk_settings().unwrap();
    assert_eq!(chunk_settings, read_chunk_settings);

    let read_chunks = reader.read_chunks(chunk_settings.num_chunks as usize).unwrap();
    assert_eq!(chunks, read_chunks);

    let read_file_list =
        reader.read_file_list((chunk_settings.num_arch_files - 1) as usize).unwrap();
    assert_eq!(file_list, read_file_list);

    let read_global_settings = reader.read_global_settings().unwrap();
    assert_eq!(global_settings, read_global_settings);
}

#[test]
fn writer_emits_little_endian_fields() {
    let mut writer = DzipWriter::new(vec![0xAA]);
    writer
        .write_archive_settings(&ArchiveHeader {
            magic: 0x5A525444,
            num_files: 0x0102,
            num_dirs: 0x0304,
            version: 7,
        })
        .unwrap();
    writer.write_strings(&["ab".to_string(), "".to_string()]).unwrap();
    writer.write_file_chunk_map(&[(0x1122, vec![1, 0x0203])]).unwrap();
    writer.write_chunk_settings(&ChunkTableHeader { num_arch_files: 1, num_chunks: 0x0100 }).unwrap();
    writer
        .write_chunks(&[ChunkDiskEntry {
            offset: 0x01020304,
            c_len: 5,
            d_len: 0x00010000,
            flags: 0x0008,
            file_idx: 2,
        }])
        .unwrap();
    assert_eq!(writer.position(), 42);
    let bytes = writer.into_inner();
    let expected: Vec<u8> = vec![
        0xAA, // what was there before
        0x44, 0x54, 0x52, 0x5A, 0x02, 0x01, 0x04, 0x03, 7, // file header
        b'a', b'b', 0, 0, // strings
        0x22, 0x11, 0x01, 0x00, 0x03, 0x02, 0xFF, 0xFF, // file map
        0x01, 0x00, 0x00, 0x01, // chunk table header
        0x04, 0x03, 0x02, 0x01, 5, 0, 0, 0, 0, 0, 1, 0, 8, 0, 2, 0, // chunk
    ];
    assert_eq!(bytes, expected);
}

#[test]
fn reader_reports_where_the_bytes_end() {
    let bytes = vec![0x44, 0x54, 0x52, 0x5A, 1, 0, 1, 0, 0, b'x'];
    let mut reader = DzipReader::new(&bytes);
    assert_eq!(reader.offset(), 0);
    reader.read_archive_settings().unwrap();
    assert_eq!(reader.offset(), 9);
    // the name has no terminator
    assert!(matches!(reader.read_strings(1), Err(dzip_core::error::DzipError::Format(_))));
    assert_eq!(reader.offset(), 9);
    assert!(matches!(reader.read_chunk_settings(), Err(dzip_core::error::DzipError::Format(_))));
    assert!(matches!(reader.read_chunks(1), Err(dzip_core::error::DzipError::Format(_))));
    assert!(matches!(
        reader.read_global_settings(),
        Err(dzip_core::error::DzipError::Format(_))
    ));
    assert!(matches!(
        reader.read_file_chunk_map(1),
        Err(dzip_core::error::DzipError::Format(_))
    ));
    assert_eq!(reader.read_strings(0).unwrap(), Vec::<String>::new());
}

#[test]
fn reader_replaces_invalid_utf8() {
    let bytes = vec![b'a', 0xFF, b'b', 0, 0xC3, 0xA9, 0];
    let mut reader = DzipReader::new(&bytes);
    let texts = reader.read_strings(2).unwrap();
    assert_eq!(texts, vec!["a\u{FFFD}b".to_string(), "\u{e9}".to_string()]);
    assert_eq!(reader.offset(), 7);
}

#[test]
fn chunk_table_is_written_into_its_slot() {
    let chunks = vec![
        ChunkDiskEntry { offset: 40, c_len: 3, d_len: 5, flags: 0x100, file_idx: 0 },
        ChunkDiskEntry { offset: 0, c_len: 9, d_len: 9, flags: 0x8, file_idx: 1 },
    ];
    let mut writer = DzipWriter::new(Vec::new());
    writer.write_chunk_settings(&ChunkTableHeader { num_arch_files: 2, num_chunks: 2 }).unwrap();
    let slot = writer.position();
    writer.reserve(32).unwrap();
    writer.write_strings(&["b".to_string()]).unwrap();
    let mut reserved = writer.into_inner();
    assert_eq!(slot, 4);
    assert_eq!(reserved.len(), 38);
    assert!(reserved[4..36].iter().all(|b| *b == 0));
    patch_chunk_table(&mut reserved, slot, &chunks);

    let mut direct = DzipWriter::new(Vec::new());
    direct.write_chunk_settings(&ChunkTableHeader { num_arch_files: 2, num_chunks: 2 }).unwrap();
    direct.write_chunks(&chunks).unwrap();
    direct.write_strings(&["b".to_string()]).unwrap();
    assert_eq!(reserved, direct.into_inner());

    let mut bytes = b"0123456789".to_vec();
    patch_bytes(&mut bytes, 3, b"abc");
    assert_eq!(bytes, b"012abc6789".to_vec());
    patch_bytes(&mut bytes, 10, b"");
    patch_bytes(&mut bytes, 0, b"ABCDEFGHIJ");
    assert_eq!(bytes, b"ABCDEFGHIJ".to_vec());
}
