use dzip_core::error::DzipError;
use dzip_core::io::{ProgressEvent, UnpackSink, UnpackSource};
use dzip_core::metadata::ArchiveMetadata;
use dzip_core::model::{ArchiveMeta, ChunkDef, Config, FileEntry};
use dzip_core::pack::pack_archive;
use dzip_core::codec::CompressionMethod;
use dzip_core::list::verify_archive;
use dzip_core::unpack::{do_unpack, plan_held_archive, unpack_archive, ExtractedFile, UnpackPlan};
use std::cell::RefCell;
use std::collections::BTreeMap;

struct MemorySource {
    main: Vec<u8>,
    splits: BTreeMap<String, Vec<u8>>,
}

impl UnpackSource for MemorySource {
    fn open_main(&self) -> Result<Vec<u8>, DzipError> {
        Ok(self.main.clone())
    }

    fn open_split(&self, split_name: &str) -> Result<Vec<u8>, DzipError> {
        match self.splits.get(split_name) {
            Some(bytes) => Ok(bytes.clone()),
            None => Err(DzipError::SplitFileMissing(split_name.to_string())),
        }
    }

    fn get_split_len(&self, split_name: &str) -> Result<u64, DzipError> {
        match self.splits.get(split_name) {
            Some(bytes) => Ok(bytes.len() as u64),
            None => Err(DzipError::SplitFileMissing(split_name.to_string())),
        }
    }
}

struct MemorySink {
    dirs: RefCell<Vec<String>>,
    files: RefCell<BTreeMap<String, Vec<u8>>>,
}

impl MemorySink {
    fn new() -> Self {
        MemorySink { dirs: RefCell::new(Vec::new()), files: RefCell::new(BTreeMap::new()) }
    }
}

impl UnpackSink for MemorySink {
    fn create_dir_all(&self, rel_path: &str) -> Result<(), DzipError> {
        self.dirs.borrow_mut().push(rel_path.to_string());
        Ok(())
    }

    fn create_file(&self, rel_path: &str, contents: &[u8]) -> Result<(), DzipError> {
        self.files.borrow_mut().insert(rel_path.to_string(), contents.to_vec());
        Ok(())
    }
}

fn file(path: &str, directory: &str, filename: &str, chunks: Vec<u16>) -> FileEntry {
    FileEntry {
        path: path.to_string(),
        directory: directory.to_string(),
        filename: filename.to_string(),
        chunk: chunks.first().copied().unwrap_or(0),
        chunks,
    }
}

fn chunk(id: u16, flag: &str, size: u32, volume: u16) -> ChunkDef {
    ChunkDef {
        id,
        offset: 0,
        size_compressed: 0,
        size_decompressed: size,
        flag: flag.to_string(),
        archive_file_index: volume,
    }
}

fn config(files: Vec<FileEntry>, chunks: Vec<ChunkDef>, splits: Vec<String>) -> Config {
    Config {
        archive: ArchiveMeta {
            version: 0,
            total_files: files.len() as u16,
            total_directories: 1,
            total_chunks: chunks.len() as u16,
        },
        archive_files: splits,
        range_settings: None,
        files,
        chunks,
    }
}

#[test]
fn single_file_copy_round_trip() {
    let cfg = config(
        vec![file("hello.txt", ".", "hello.txt", vec![0])],
        vec![chunk(0, "COPY", 5, 0)],
        vec![],
    );
    let packed = pack_archive(&cfg, &vec![b"world".to_vec()]).unwrap();
    assert_eq!(packed.volumes.len(), 1);
    let main = &packed.volumes[0];
    assert_eq!(&main[..4], &[0x44, 0x54, 0x52, 0x5A]);
    // 9 + "hello.txt\0" (10) + map (2 + 2 + 2) + 4 + 16
    assert_eq!(packed.header_size, 45);
    assert_eq!(main.len(), 50);
    assert_eq!(&main[45..], b"world");

    let meta = ArchiveMetadata::parse(main).unwrap();
    assert_eq!(meta.user_files, vec!["hello.txt".to_string()]);
    assert_eq!(meta.directories, vec![".".to_string()]);
    assert_eq!(meta.raw_chunks.len(), 1);
    let c = &meta.raw_chunks[0];
    assert_eq!((c.offset, c._head_c_len, c.d_len, c.flags, c.file_idx), (45, 5, 5, 0x100, 0));

    let source = MemorySource { main: main.clone(), splits: BTreeMap::new() };
    let sink = MemorySink::new();
    let events = RefCell::new(Vec::new());
    let out = do_unpack(&source, &sink, false, |e| events.borrow_mut().push(e)).unwrap();
    assert_eq!(sink.files.borrow().get("hello.txt").unwrap(), &b"world".to_vec());
    assert_eq!(
        *events.borrow(),
        vec![ProgressEvent::Start(1), ProgressEvent::Inc(1), ProgressEvent::Finish]
    );
    assert_eq!(out.files.len(), 1);
    assert_eq!(out.files[0].filename, "hello.txt");
    assert_eq!(out.chunks[0].flag, "COPY");
    assert_eq!(out.chunks[0].size_compressed, 5);
}

#[test]
fn two_files_zlib_one_directory() {
    let cfg = config(
        vec![file("a/x", "a", "x", vec![0]), file("a/y", "a", "y", vec![1])],
        vec![chunk(0, "ZLIB", 10, 0), chunk(1, "ZLIB", 10, 0)],
        vec![],
    );
    let packed = pack_archive(&cfg, &vec![vec![0u8; 10], vec![0xFFu8; 10]]).unwrap();
    let main = &packed.volumes[0];
    let meta = ArchiveMetadata::parse(main).unwrap();
    assert_eq!(meta.directories, vec![".".to_string(), "a".to_string()]);
    assert_eq!(meta.map_entries[0].dir_idx, 1);
    assert_eq!(meta.map_entries[1].dir_idx, 1);
    assert_eq!(meta.raw_chunks.len(), 2);
    assert!(meta.raw_chunks[0].offset < meta.raw_chunks[1].offset);
    assert_eq!(meta.raw_chunks[0].offset, packed.header_size);
    assert_eq!(meta.raw_chunks[0].file_idx, 0);
    assert_eq!(meta.raw_chunks[1].file_idx, 0);

    let source = MemorySource { main: main.clone(), splits: BTreeMap::new() };
    let sink = MemorySink::new();
    do_unpack(&source, &sink, false, |_| {}).unwrap();
    let sep = std::path::MAIN_SEPARATOR;
    assert_eq!(sink.files.borrow().get(&format!("a{}x", sep)).unwrap(), &vec![0u8; 10]);
    assert_eq!(sink.files.borrow().get(&format!("a{}y", sep)).unwrap(), &vec![0xFFu8; 10]);
    assert_eq!(*sink.dirs.borrow(), vec!["a".to_string(), "a".to_string()]);
}

#[test]
fn split_volume_extraction() {
    let cfg = config(
        vec![file("big.bin", ".", "big.bin", vec![0, 1])],
        vec![chunk(0, "COPY", 3, 0), chunk(1, "BZIP", 4, 1)],
        vec!["big.d01".to_string()],
    );
    let packed = pack_archive(&cfg, &vec![b"abcdefg".to_vec()]).unwrap();
    assert_eq!(packed.volumes.len(), 2);
    assert_eq!(packed.chunks[1].offset, 0);
    assert_eq!(packed.chunks[1].file_idx, 1);

    let mut splits = BTreeMap::new();
    splits.insert("big.d01".to_string(), packed.volumes[1].clone());
    let source = MemorySource { main: packed.volumes[0].clone(), splits };
    let sink = MemorySink::new();
    do_unpack(&source, &sink, false, |_| {}).unwrap();
    assert_eq!(sink.files.borrow().get("big.bin").unwrap(), &b"abcdefg".to_vec());

    let missing = MemorySource { main: packed.volumes[0].clone(), splits: BTreeMap::new() };
    let sink = MemorySink::new();
    match do_unpack(&missing, &sink, false, |_| {}) {
        Err(DzipError::SplitFileMissing(name)) => assert_eq!(name, "big.d01"),
        other => panic!("unexpected outcome {:?}", other),
    }
    assert!(sink.files.borrow().is_empty());
}

#[test]
fn archive_without_files_round_trips() {
    let cfg = config(vec![], vec![], vec![]);
    let packed = pack_archive(&cfg, &vec![]).unwrap();
    assert_eq!(packed.volumes[0].len(), 13);
    assert_eq!(packed.header_size, 13);
    let meta = ArchiveMetadata::parse(&packed.volumes[0]).unwrap();
    assert!(meta.user_files.is_empty());
    assert!(meta.map_entries.is_empty());
    assert_eq!(meta.directories.len(), 1);
    let plan = UnpackPlan::from_volume_lengths(meta, &vec![13]).unwrap();
    let again = plan.generate_config_struct().unwrap();
    let repacked = pack_archive(&again, &vec![]).unwrap();
    assert_eq!(repacked.volumes, packed.volumes);
}

#[test]
fn archive_in_memory_unpacks_to_what_was_packed() {
    let cfg = config(
        vec![
            file("docs/a.txt", "docs", "a.txt", vec![0, 1]),
            file("b.bin", ".", "b.bin", vec![2]),
            file("docs/sub/c", "docs\\sub", "c", vec![]),
            file("d", "", "d", vec![3]),
        ],
        vec![
            chunk(0, "ZLIB", 6, 0),
            chunk(1, "COPY", 5, 1),
            chunk(2, "LZMA", 4, 1),
            chunk(3, "BZIP", 3, 0),
        ],
        vec!["second".to_string()],
    );
    let contents =
        vec![b"hello world".to_vec(), b"\x00\x01\x02\x03".to_vec(), Vec::new(), b"xyz".to_vec()];
    let packed = pack_archive(&cfg, &contents).unwrap();
    let unpacked = unpack_archive(&packed.volumes, false, '/').unwrap();
    let expected: Vec<ExtractedFile> = ["docs/a.txt", "b.bin", "docs/sub/c", "d"]
        .iter()
        .zip(contents.iter())
        .map(|(path, bytes)| ExtractedFile { path: path.to_string(), contents: bytes.clone() })
        .collect();
    assert_eq!(unpacked.files, expected);

    // the description that comes out packs to the same archive
    assert_eq!(unpacked.config.files.len(), 4);
    assert_eq!(unpacked.config.files[2].directory, "docs/sub");
    assert_eq!(unpacked.config.archive_files, vec!["second".to_string()]);
    let flags: Vec<&str> = unpacked.config.chunks.iter().map(|c| c.flag.as_str()).collect();
    assert_eq!(flags, vec!["ZLIB", "COPY", "LZMA", "BZIP"]);
    let again = pack_archive(&unpacked.config, &contents).unwrap();
    assert_eq!(again.volumes, packed.volumes);
    assert_eq!(again.chunks, packed.chunks);

    let plan = plan_held_archive(&packed.volumes).unwrap();
    assert!(plan.is_well_formed());
    for (chunk, entry) in plan.processed_chunks.iter().zip(packed.chunks.iter()) {
        assert_eq!(chunk.real_c_len, entry.c_len);
        assert_eq!(chunk.offset, entry.offset);
    }
    assert_eq!(plan.extract_all(&packed.volumes, false, '\\').unwrap()[0].path, "docs\\a.txt");

    let reports = verify_archive(&packed.volumes).unwrap();
    assert_eq!(reports.len(), 4);
    assert!(reports.iter().all(|r| r.intact));
    assert_eq!(reports[0].size, 11);
    assert_eq!(reports[0].packed, (packed.chunks[0].c_len + 5) as u64);
    assert_eq!(reports[0].method, Some(CompressionMethod::Zlib));
    assert_eq!((reports[2].size, reports[2].packed, reports[2].method), (0, 0, None));
}

#[test]
fn archive_in_memory_needs_its_volumes() {
    let cfg = config(
        vec![file("f", "", "f", vec![0])],
        vec![chunk(0, "COPY", 2, 1)],
        vec!["part".to_string()],
    );
    let packed = pack_archive(&cfg, &vec![b"ab".to_vec()]).unwrap();
    let main_only = vec![packed.volumes[0].clone()];
    match unpack_archive(&main_only, false, '/') {
        Err(DzipError::SplitFileMissing(name)) => assert_eq!(name, "part"),
        other => panic!("unexpected outcome {:?}", other),
    }
    assert!(matches!(verify_archive(&main_only), Err(DzipError::SplitFileMissing(_))));
    let too_many = vec![packed.volumes[0].clone(), packed.volumes[1].clone(), Vec::new()];
    assert!(matches!(unpack_archive(&too_many, false, '/'), Err(DzipError::Format(_))));
    assert!(matches!(
        unpack_archive(&vec![b"nothing".to_vec()], false, '/'),
        Err(DzipError::InvalidMagic(_))
    ));

    // a damaged payload fails the archive, or is kept raw, or is reported
    let mut damaged = packed.volumes.clone();
    damaged[1] = Vec::new();
    let kept = unpack_archive(&damaged, true, '/').unwrap();
    assert_eq!(kept.files[0].contents, Vec::<u8>::new());
    let cfg = config(vec![file("f", "", "f", vec![0])], vec![chunk(0, "ZLIB", 2, 0)], vec![]);
    let mut packed = pack_archive(&cfg, &vec![b"ab".to_vec()]).unwrap();
    let at = packed.header_size as usize;
    packed.volumes[0][at] ^= 0xFF;
    assert!(matches!(
        unpack_archive(&packed.volumes, false, '/'),
        Err(DzipError::Decompression(_))
    ));
    let raw = unpack_archive(&packed.volumes, true, '/').unwrap();
    assert_eq!(raw.files[0].contents, packed.volumes[0][at..].to_vec());
    let reports = verify_archive(&packed.volumes).unwrap();
    assert!(!reports[0].intact);
    assert_eq!(reports[0].size, 2);
}
