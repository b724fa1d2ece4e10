use dzip_core::codec::{compress, CompressionMethod};
use dzip_core::error::DzipError;
use dzip_core::extract::{assemble_file, extract_chunk, read_payload, recover_chunk, VolumeCache};
use dzip_core::format::{ArchiveHeader, ChunkDiskEntry, ChunkTableHeader, RangeSettingsDisk, MAGIC};
use dzip_core::io::{ProgressEvent, UnpackSink, UnpackSource};
use dzip_core::list::do_list;
use dzip_core::metadata::{ArchiveMetadata, RawChunk};
use dzip_core::unpack::{do_unpack, UnpackPlan};
use dzip_core::writer::DzipWriter;
use std::cell::RefCell;
use std::collections::BTreeMap;

struct MemorySource {
    main: Vec<u8>,
    splits: BTreeMap<String, Vec<u8>>,
    opened: RefCell<Vec<String>>,
}

impl MemorySource {
    fn new(main: Vec<u8>) -> Self {
        MemorySource { main, splits: BTreeMap::new(), opened: RefCell::new(Vec::new()) }
    }
}

impl UnpackSource for MemorySource {
    fn open_main(&self) -> Result<Vec<u8>, DzipError> {
        self.opened.borrow_mut().push("<main>".to_string());
        Ok(self.main.clone())
    }

    fn open_split(&self, split_name: &str) -> Result<Vec<u8>, DzipError> {
        self.opened.borrow_mut().push(split_name.to_string());
        match self.splits.get(split_name) {
            Some(bytes) => Ok(bytes.clone()),
            None => Err(DzipError::SplitFileMissing(split_name.to_string())),
        }
    }

    fn get_split_len(&self, split_name: &str) -> Result<u64, DzipError> {
        match self.splits.get(split_name) {
            Some(bytes) => Ok(bytes.len() as u64),
            None => Err(DzipError::SplitFileMissing(split_name.to_string())),
        }
    }
}

struct MemorySink {
    dirs: RefCell<Vec<String>>,
    files: RefCell<BTreeMap<String, Vec<u8>>>,
}

impl MemorySink {
    fn new() -> Self {
        MemorySink { dirs: RefCell::new(Vec::new()), files: RefCell::new(BTreeMap::new()) }
    }
}

impl UnpackSink for MemorySink {
    fn create_dir_all(&self, rel_path: &str) -> Result<(), DzipError> {
        self.dirs.borrow_mut().push(rel_path.to_string());
        Ok(())
    }

    fn create_file(&self, rel_path: &str, contents: &[u8]) -> Result<(), DzipError> {
        self.files.borrow_mut().insert(rel_path.to_string(), contents.to_vec());
        Ok(())
    }
}

/// An archive of one volume: the files with their directory index and
/// chunk ids, and the chunks with flags, claimed lengths and payload.
fn archive(
    files: &[(&str, u16, Vec<u16>)],
    dirs: &[&str],
    chunks: &[(u16, u32, u32, Vec<u8>)],
) -> Vec<u8> {
    let names: Vec<String> = files.iter().map(|f| f.0.to_string()).collect();
    let dir_names: Vec<String> = dirs.iter().map(|d| d.to_string()).collect();
    let map: Vec<(u16, Vec<u16>)> = files.iter().map(|f| (f.1, f.2.clone())).collect();
    let has_range = chunks.iter().any(|c| c.0 & 0x4 != 0);
    let header_len = 9
        + names.iter().map(|n| n.len() + 1).sum::<usize>()
        + dir_names.iter().map(|n| n.len() + 1).sum::<usize>()
        + map.iter().map(|m| 4 + 2 * m.1.len()).sum::<usize>()
        + 4
        + 16 * chunks.len()
        + if has_range { 10 } else { 0 };
    let mut table = Vec::new();
    let mut offset = header_len as u32;
    for c in chunks {
        table.push(ChunkDiskEntry { offset, c_len: c.1, d_len: c.2, flags: c.0, file_idx: 0 });
        offset += c.3.len() as u32;
    }
    let mut w = DzipWriter::new(Vec::new());
    w.write_archive_settings(&ArchiveHeader {
        magic: MAGIC,
        num_files: files.len() as u16,
        num_dirs: dirs.len() as u16 + 1,
        version: 0,
    })
    .unwrap();
    w.write_strings(&names).unwrap();
    w.write_strings(&dir_names).unwrap();
    w.write_file_chunk_map(&map).unwrap();
    w.write_chunk_settings(&ChunkTableHeader { num_arch_files: 1, num_chunks: chunks.len() as u16 })
        .unwrap();
    w.write_chunks(&table).unwrap();
    if has_range {
        w.write_global_settings(&RangeSettingsDisk::zeroed()).unwrap();
    }
    let mut bytes = w.into_inner();
    assert_eq!(bytes.len(), header_len);
    for c in chunks {
        bytes.extend_from_slice(&c.3);
    }
    bytes
}

fn raw(offset: u32, real: u32, d_len: u32, flags: u16) -> RawChunk {
    RawChunk { id: 0, offset, _head_c_len: real, d_len, flags, file_idx: 0, real_c_len: real }
}

#[test]
fn file_with_empty_chunk_list_is_empty() {
    let bytes = archive(&[("nothing", 0, vec![])], &[], &[]);
    let source = MemorySource::new(bytes);
    let sink = MemorySink::new();
    do_unpack(&source, &sink, false, |_| {}).unwrap();
    assert_eq!(sink.files.borrow().get("nothing").unwrap(), &Vec::<u8>::new());
    // no chunk, no volume to fetch for the contents
    assert_eq!(*source.opened.borrow(), vec!["<main>".to_string()]);
    let cache = VolumeCache::new(1);
    assert_eq!(assemble_file(&vec![], &vec![], &cache, false).unwrap(), Vec::<u8>::new());
}

#[test]
fn equal_sized_zlib_chunk_is_decoded_from_what_is_there() {
    let payload = compress(b"0123456789", 0x8).unwrap();
    // the record claims 10 stored bytes, as many as decompressed
    let bytes = archive(&[("f", 0, vec![0])], &[], &[(0x8, 10, 10, payload.clone())]);
    let source = MemorySource::new(bytes.clone());
    let meta = ArchiveMetadata::load(&source).unwrap();
    let plan = UnpackPlan::build(meta, &source).unwrap();
    assert_eq!(plan.processed_chunks[0].real_c_len as usize, payload.len());
    assert_eq!(plan.processed_chunks[0]._head_c_len, 10);
    let sink = MemorySink::new();
    plan.extract(&sink, false, &source, |_| {}).unwrap();
    assert_eq!(sink.files.borrow().get("f").unwrap(), &b"0123456789".to_vec());
}

#[test]
fn codec_gets_exactly_the_reconciled_bytes() {
    // the record claims 10 bytes, but the volume ends 7 bytes behind the chunk
    let mut volume = vec![0u8; 50];
    volume.extend_from_slice(b"1234567");
    let claimed = RawChunk {
        id: 0,
        offset: 50,
        _head_c_len: 10,
        d_len: 10,
        flags: 0x8,
        file_idx: 0,
        real_c_len: 0,
    };
    let reconciled =
        dzip_core::reconcile::calculate_chunk_sizes(&vec![claimed], &vec![volume.len() as u64])
            .unwrap();
    assert_eq!(reconciled[0].real_c_len, 7);
    assert_eq!(read_payload(&volume, &reconciled[0]), b"1234567");
    assert_eq!(extract_chunk(&volume, &reconciled[0], true).unwrap(), b"1234567".to_vec());
}

#[test]
fn chunk_is_read_up_to_its_reconciled_length() {
    let volume = b"....HELLOworld".to_vec();
    assert_eq!(extract_chunk(&volume, &raw(4, 5, 5, 0x100), false).unwrap(), b"HELLO".to_vec());
    assert_eq!(extract_chunk(&volume, &raw(9, 50, 5, 0), false).unwrap(), b"world".to_vec());
    assert_eq!(extract_chunk(&volume, &raw(90, 5, 5, 0x100), false).unwrap(), Vec::<u8>::new());
    assert_eq!(extract_chunk(&volume, &raw(4, 5, 5, 0x80), false).unwrap(), Vec::<u8>::new());
}

#[test]
fn range_coded_chunk_is_kept_raw_or_refused() {
    let bytes = archive(
        &[("r.bin", 0, vec![0, 1])],
        &[],
        &[(0x4, 3, 9, vec![1, 2, 3]), (0x4, 2, 9, vec![4, 5])],
    );
    let source = MemorySource::new(bytes);
    let sink = MemorySink::new();
    do_unpack(&source, &sink, true, |_| {}).unwrap();
    assert_eq!(sink.files.borrow().get("r.bin").unwrap(), &vec![1, 2, 3, 4, 5]);

    let sink = MemorySink::new();
    match do_unpack(&source, &sink, false, |_| {}) {
        Err(DzipError::UnsupportedCompression(flags)) => assert_eq!(flags, 0x4),
        other => panic!("unexpected outcome {:?}", other),
    }
    assert!(sink.files.borrow().is_empty());
}

#[test]
fn broken_payload_is_kept_raw_on_request() {
    let volume = b"not a gzip stream".to_vec();
    let chunk = raw(0, 17, 99, 0x8);
    assert!(matches!(extract_chunk(&volume, &chunk, false), Err(DzipError::Decompression(_))));
    assert_eq!(extract_chunk(&volume, &chunk, true).unwrap(), volume);
    // attributes alone leave the payload as it is
    assert_eq!(extract_chunk(&volume, &raw(0, 17, 99, 0x20), false).unwrap(), volume);
    assert_eq!(extract_chunk(&volume, &raw(0, 17, 99, 0x461), false).unwrap(), volume);
    assert!(matches!(
        extract_chunk(&volume, &raw(0, 17, 99, 0x18), false),
        Err(DzipError::UnsupportedCompression(0x18))
    ));
    let failed = || Err(DzipError::Decompression("x".to_string()));
    assert_eq!(recover_chunk(b"raw", Ok(vec![7]), false).unwrap(), vec![7]);
    assert_eq!(recover_chunk(b"raw", Ok(vec![7]), true).unwrap(), vec![7]);
    assert_eq!(recover_chunk(b"raw", failed(), true).unwrap(), b"raw".to_vec());
    assert!(matches!(recover_chunk(b"raw", failed(), false), Err(DzipError::Decompression(_))));
}

#[test]
fn path_traversal_is_refused_before_anything_is_created() {
    let bytes = archive(
        &[("ok.txt", 0, vec![0]), ("../etc/passwd", 0, vec![0])],
        &[],
        &[(0x100, 2, 2, b"hi".to_vec())],
    );
    let source = MemorySource::new(bytes);
    let sink = MemorySink::new();
    let events = RefCell::new(Vec::new());
    match do_unpack(&source, &sink, false, |e| events.borrow_mut().push(e)) {
        Err(DzipError::Security(text)) => assert_eq!(text, "directory traversal"),
        other => panic!("unexpected outcome {:?}", other),
    }
    assert!(sink.files.borrow().is_empty());
    assert!(sink.dirs.borrow().is_empty());
    assert_eq!(*events.borrow(), vec![ProgressEvent::Start(2)]);
}

#[test]
fn drive_prefix_and_parent_directory_are_refused() {
    for (dir, name, text) in [
        ("C:\\Windows", "x.dll", "absolute path"),
        ("a\\..\\..", "x", "directory traversal"),
        (".", "", "empty path"),
    ] {
        let bytes = archive(&[(name, 1, vec![])], &[dir], &[]);
        let source = MemorySource::new(bytes);
        let sink = MemorySink::new();
        match do_unpack(&source, &sink, true, |_| {}) {
            Err(DzipError::Security(found)) => assert_eq!(found, text),
            other => panic!("unexpected outcome {:?}", other),
        }
        assert!(sink.files.borrow().is_empty());
    }
}

#[test]
fn unknown_directory_and_chunk_ids_are_passed_over() {
    let bytes = archive(
        &[("f", 9, vec![0, 7, 0])],
        &["d"],
        &[(0x100, 2, 2, b"ab".to_vec())],
    );
    let source = MemorySource::new(bytes);
    let sink = MemorySink::new();
    let config = do_unpack(&source, &sink, false, |_| {}).unwrap();
    assert_eq!(sink.files.borrow().get("f").unwrap(), &b"abab".to_vec());
    assert_eq!(config.files[0].directory, ".");
    assert_eq!(config.files[0].chunk, 0);
    assert_eq!(config.files[0].chunks, vec![0, 7, 0]);
    assert_eq!(config.archive.total_directories, 2);
}

#[test]
fn listing_gives_sizes_and_chunk_counts() {
    let bytes = archive(
        &[("a", 0, vec![0, 1]), ("b", 1, vec![]), ("c", 1, vec![1, 5])],
        &["x\\y"],
        &[(0x100, 2, 2, b"ab".to_vec()), (0x8, 3, 1000, vec![0, 0, 0])],
    );
    let source = MemorySource::new(bytes);
    let entries = do_list(&source).unwrap();
    let sep = std::path::MAIN_SEPARATOR;
    assert_eq!(entries.len(), 3);
    assert_eq!((entries[0].path.as_str(), entries[0].original_size, entries[0].chunk_count), ("a", 1002, 2));
    assert_eq!(entries[1].path, format!("x{}y{}b", sep, sep));
    assert_eq!((entries[1].original_size, entries[1].chunk_count), (0, 0));
    assert_eq!((entries[2].original_size, entries[2].chunk_count), (1000, 2));
}

#[test]
fn description_names_files_and_chunks() {
    let bytes = archive(
        &[("a.txt", 1, vec![1, 0])],
        &["d\\e"],
        &[(0x100, 2, 2, b"ab".to_vec()), (0x409, 3, 7, vec![9, 9, 9])],
    );
    let source = MemorySource::new(bytes.clone());
    let meta = ArchiveMetadata::parse(&bytes).unwrap();
    let plan = UnpackPlan::from_volume_lengths(meta, &vec![bytes.len() as u64]).unwrap();
    let config = plan.generate_config_struct_with('/');
    assert_eq!(config.archive.version, 0);
    assert_eq!(config.archive.total_files, 1);
    assert_eq!(config.archive.total_directories, 2);
    assert_eq!(config.archive.total_chunks, 2);
    assert!(config.archive_files.is_empty());
    assert!(config.range_settings.is_none());
    assert_eq!(config.files[0].path, "d/e/a.txt");
    assert_eq!(config.files[0].directory, "d/e");
    assert_eq!(config.files[0].filename, "a.txt");
    assert_eq!(config.files[0].chunk, 1);
    assert_eq!(config.chunks[0].flag, "COPY");
    assert_eq!(config.chunks[1].flag, "COMBUF");
    assert_eq!(config.chunks[1].id, 1);
    assert_eq!(config.chunks[1].size_compressed, 3);
    assert_eq!(config.chunks[1].size_decompressed, 7);
    assert_eq!(config.chunks[1].archive_file_index, 0);
    assert_eq!(config.chunks[1].offset, config.chunks[0].offset + 2);
    let other = plan.generate_config_struct_with('\\');
    assert_eq!(other.files[0].path, "d\\e\\a.txt");
    let native = do_unpack(&source, &MemorySink::new(), true, |_| {}).unwrap();
    assert_eq!(native.files[0].path, format!("d{0}e{0}a.txt", std::path::MAIN_SEPARATOR));
}

#[test]
fn verification_reports_sizes_method_and_state() {
    let good = compress(b"0123456789", 0x10).unwrap();
    let bytes = archive(
        &[("ok", 0, vec![0, 1]), ("bad", 0, vec![2]), ("gap", 0, vec![9, 0]), ("none", 0, vec![])],
        &[],
        &[
            (0x10, good.len() as u32, 10, good.clone()),
            (0x100, 2, 2, b"ab".to_vec()),
            (0x8, 3, 77, vec![1, 2, 3]),
        ],
    );
    let source = MemorySource::new(bytes);
    let meta = ArchiveMetadata::load(&source).unwrap();
    let plan = UnpackPlan::build(meta, &source).unwrap();
    assert!(plan.is_well_formed());
    let mut cache = VolumeCache::new(1);
    let ok = plan.verify_file(0, &mut cache, &source);
    assert_eq!(
        (ok.intact, ok.size, ok.packed, ok.method),
        (true, 12, good.len() as u64 + 2, Some(CompressionMethod::Bzip))
    );
    let bad = plan.verify_file(1, &mut cache, &source);
    assert_eq!((bad.intact, bad.size, bad.packed, bad.method), (false, 77, 3, Some(CompressionMethod::Zlib)));
    let gap = plan.verify_file(2, &mut cache, &source);
    assert_eq!((gap.intact, gap.size, gap.packed, gap.method), (false, 10, good.len() as u64, None));
    let none = plan.verify_file(3, &mut cache, &source);
    assert_eq!((none.intact, none.size, none.packed, none.method), (true, 0, 0, None));
}

#[test]
fn plan_needs_no_source_for_a_single_volume() {
    let bytes = archive(&[("f", 0, vec![0])], &[], &[(0x100, 2, 2, b"ab".to_vec())]);
    let meta = ArchiveMetadata::parse(&bytes).unwrap();
    let source = MemorySource::new(Vec::new());
    let plan = UnpackPlan::build(meta, &source).unwrap();
    assert_eq!(plan.processed_chunks[0].real_c_len, 2);
    assert!(source.opened.borrow().is_empty());
}
