use dzip_core::codec::{compress_data, decompress, CompressionMethod};
use dzip_core::error::DzipError;
use dzip_core::format::RangeSettingsDisk;
use dzip_core::io::{PackSink, PackSource, ProgressEvent};
use dzip_core::metadata::ArchiveMetadata;
use dzip_core::model::{ArchiveMeta, ChunkDef, Config, FileEntry};
use dzip_core::pack::{
    assemble_archive, clip, compress_chunk, compress_chunks, do_pack, index_chunks, pack_archive,
    place_payloads, plan_pack, predict_header_size, reserve_header, source_ranges,
};
use dzip_core::pipeline::ReorderBuffer;
use dzip_core::unpack::UnpackPlan;
use std::cell::RefCell;
use std::collections::BTreeMap;

struct MemoryFiles {
    files: BTreeMap<String, Vec<u8>>,
}

impl PackSource for MemoryFiles {
    fn file_exists(&self, rel_path: &str) -> bool {
        self.files.contains_key(rel_path)
    }

    fn open_file(&self, rel_path: &str) -> Result<Vec<u8>, DzipError> {
        Ok(self.files[rel_path].clone())
    }
}

struct MemoryVolumes {
    main: Option<Vec<u8>>,
    splits: BTreeMap<u16, Vec<u8>>,
}

impl PackSink for MemoryVolumes {
    fn create_main(&mut self, contents: &[u8]) -> Result<(), DzipError> {
        self.main = Some(contents.to_vec());
        Ok(())
    }

    fn create_split(&mut self, split_idx: u16, contents: &[u8]) -> Result<(), DzipError> {
        self.splits.insert(split_idx, contents.to_vec());
        Ok(())
    }
}

fn file(path: &str, directory: &str, filename: &str, chunks: Vec<u16>) -> FileEntry {
    FileEntry {
        path: path.to_string(),
        directory: directory.to_string(),
        filename: filename.to_string(),
        chunk: chunks.first().copied().unwrap_or(0),
        chunks,
    }
}

fn chunk(id: u16, flag: &str, size: u32, volume: u16) -> ChunkDef {
    ChunkDef {
        id,
        offset: 0,
        size_compressed: 0,
        size_decompressed: size,
        flag: flag.to_string(),
        archive_file_index: volume,
    }
}

fn config(files: Vec<FileEntry>, chunks: Vec<ChunkDef>, splits: Vec<&str>) -> Config {
    Config {
        archive: ArchiveMeta {
            version: 0,
            total_files: files.len() as u16,
            total_directories: 1,
            total_chunks: chunks.len() as u16,
        },
        archive_files: splits.into_iter().map(|s| s.to_string()).collect(),
        range_settings: None,
        files,
        chunks,
    }
}

#[test]
fn header_size_is_worked_out_beforehand() {
    let names = vec!["hello.txt".to_string(), "b".to_string()];
    let dirs = vec!["sub\\dir".to_string()];
    let files = vec![file("", "", "", vec![0, 1, 2]), file("", "", "", vec![])];
    let splits = vec!["x.d01".to_string()];
    // 9 + (10 + 2) + 8 + (10 + 4) + 4 + 3 * 16 + 6
    assert_eq!(predict_header_size(&names, &dirs, &files, 3, &splits, false), Some(101));
    assert_eq!(predict_header_size(&names, &dirs, &files, 3, &splits, true), Some(111));
    assert_eq!(predict_header_size(&vec![], &vec![], &vec![], 0, &vec![], false), Some(13));
    assert_eq!(predict_header_size(&vec![], &vec![], &vec![], usize::MAX / 32, &vec![], false), None);
}

#[test]
fn chunks_of_a_volume_lie_in_id_order() {
    // the definitions are not in id order, and the volumes are interleaved
    let cfg = config(
        vec![file("a", "", "a", vec![0, 1]), file("d/b", "d", "b", vec![2, 3])],
        vec![
            chunk(2, "COPY", 2, 1),
            chunk(0, "COPY", 3, 0),
            chunk(3, "COPY", 4, 0),
            chunk(1, "COPY", 1, 1),
        ],
        vec!["s1"],
    );
    let packed = pack_archive(&cfg, &vec![b"AAAB".to_vec(), b"CCDDDD".to_vec()]).unwrap();
    let h = packed.header_size;
    assert_eq!(packed.volumes.len(), 2);
    assert_eq!(&packed.volumes[0][h as usize..], b"AAADDDD");
    assert_eq!(&packed.volumes[1][..], b"BCC");
    let placed: Vec<(u32, u32, u32, u16, u16)> = packed
        .chunks
        .iter()
        .map(|c| (c.offset, c.c_len, c.d_len, c.flags, c.file_idx))
        .collect();
    assert_eq!(
        placed,
        vec![(h, 3, 3, 0x100, 0), (0, 1, 1, 0x100, 1), (1, 2, 2, 0x100, 1), (h + 3, 4, 4, 0x100, 0)]
    );
    let meta = ArchiveMetadata::parse(&packed.volumes[0]).unwrap();
    assert_eq!(meta.directories, vec![".".to_string(), "d".to_string()]);
    assert_eq!(meta.split_file_names, vec!["s1".to_string()]);
    let plan = UnpackPlan::from_volume_lengths(
        meta,
        &vec![packed.volumes[0].len() as u64, packed.volumes[1].len() as u64],
    )
    .unwrap();
    let real: Vec<u32> = plan.processed_chunks.iter().map(|c| c.real_c_len).collect();
    assert_eq!(real, vec![3, 1, 2, 4]);
}

#[test]
fn directories_are_stored_with_backslashes_in_order_of_first_use() {
    let cfg = config(
        vec![
            file("", "b/c", "1", vec![]),
            file("", ".", "2", vec![]),
            file("", "a", "3", vec![]),
            file("", "b\\c", "4", vec![]),
            file("", "", "5", vec![]),
        ],
        vec![],
        vec![],
    );
    let packed = pack_archive(&cfg, &vec![vec![]; 5]).unwrap();
    let meta = ArchiveMetadata::parse(&packed.volumes[0]).unwrap();
    assert_eq!(meta.directories, vec![".".to_string(), "b\\c".to_string(), "a".to_string()]);
    let indices: Vec<u16> = meta.map_entries.iter().map(|e| e.dir_idx).collect();
    assert_eq!(indices, vec![1, 0, 2, 1, 0]);
}

#[test]
fn range_coded_chunks_pass_through_with_their_settings() {
    let mut cfg = config(vec![file("r", "", "r", vec![0])], vec![chunk(0, "DZ_RANGE", 99, 0)], vec![]);
    cfg.chunks[0].size_compressed = 3;
    let packed = pack_archive(&cfg, &vec![vec![1, 2, 3, 4]]).unwrap();
    let meta = ArchiveMetadata::parse(&packed.volumes[0]).unwrap();
    assert_eq!(meta.range_settings, Some(RangeSettingsDisk::zeroed()));
    assert_eq!(&packed.volumes[0][packed.header_size as usize..], &[1, 2, 3]);
    assert_eq!(packed.chunks[0].d_len, 99);
    assert_eq!(packed.chunks[0].flags, 0x4);

    let mut settings = RangeSettingsDisk::zeroed();
    settings.win_size = 12;
    cfg.range_settings = Some(settings);
    let packed = pack_archive(&cfg, &vec![vec![1, 2, 3, 4]]).unwrap();
    let meta = ArchiveMetadata::parse(&packed.volumes[0]).unwrap();
    assert_eq!(meta.range_settings.unwrap().win_size, 12);
}

#[test]
fn short_source_file_gives_short_chunks() {
    let cfg = config(
        vec![file("f", "", "f", vec![0, 1])],
        vec![chunk(0, "COPY", 3, 0), chunk(1, "COPY", 3, 0)],
        vec![],
    );
    let packed = pack_archive(&cfg, &vec![b"abcd".to_vec()]).unwrap();
    assert_eq!((packed.chunks[0].c_len, packed.chunks[1].c_len), (3, 1));
    assert_eq!(clip(b"abcd", 3, 3), b"d");
    assert_eq!(clip(b"abcd", 9, 3), b"");
    assert_eq!(clip(b"abcd", u64::MAX, u32::MAX), b"");
}

#[test]
fn inconsistent_descriptions_are_config_errors() {
    let one = || vec![file("f", "", "f", vec![0])];
    let bad = [
        config(one(), vec![chunk(1, "COPY", 1, 0)], vec![]),
        config(one(), vec![chunk(0, "COPY", 1, 0), chunk(0, "COPY", 1, 0)], vec![]),
        config(one(), vec![chunk(0, "COPY", 1, 0), chunk(2, "COPY", 1, 0)], vec![]),
        config(one(), vec![chunk(0, "COPY", 1, 1)], vec![]),
        config(one(), vec![chunk(0, "COPY", 1, 0), chunk(1, "COPY", 1, 0)], vec![]),
    ];
    for cfg in &bad {
        assert!(matches!(plan_pack(cfg), Err(DzipError::Config(_))));
        assert!(matches!(pack_archive(cfg, &vec![vec![]]), Err(DzipError::Config(_))));
    }
    assert!(index_chunks(&bad[0].chunks).is_none());
    assert_eq!(index_chunks(&vec![chunk(1, "", 0, 0), chunk(0, "", 0, 0)]), Some(vec![1, 0]));
}

#[test]
fn undefined_chunk_is_named() {
    let cfg = config(
        vec![file("f", "", "f", vec![0, 5, 9])],
        vec![chunk(0, "COPY", 1, 0)],
        vec![],
    );
    match pack_archive(&cfg, &vec![vec![]]) {
        Err(DzipError::ChunkDefinitionMissing(id)) => assert_eq!(id, 5),
        other => panic!("unexpected outcome {:?}", other.map(|_| ())),
    }
    match source_ranges(&cfg.files, &vec![1]) {
        Err(DzipError::ChunkDefinitionMissing(id)) => assert_eq!(id, 5),
        other => panic!("unexpected outcome {:?}", other),
    }
    let ranges = source_ranges(&cfg.files[..0].to_vec(), &vec![1, 2]).unwrap();
    assert_eq!(ranges, vec![None, None]);
}

#[test]
fn attributes_leave_the_payload_as_it_is() {
    let cfg = config(
        vec![file("f", "", "f", vec![0, 1])],
        vec![chunk(0, "MP3", 1, 0), chunk(1, "no such flag", 2, 0)],
        vec![],
    );
    let packed = pack_archive(&cfg, &vec![vec![1, 2, 3]]).unwrap();
    assert_eq!(&packed.volumes[0][packed.header_size as usize..], &[1, 2, 3]);
    assert_eq!((packed.chunks[0].flags, packed.chunks[1].flags), (0x20, 0));
}

#[test]
fn ambiguous_codec_is_unsupported() {
    for flags in [0x18u16, 0x108, 0x284, 0x39C] {
        match dzip_core::codec::compress(&[1, 2, 3], flags) {
            Err(DzipError::UnsupportedCompression(found)) => assert_eq!(found, flags),
            other => panic!("unexpected outcome {:?}", other),
        }
        match decompress(&[1, 2, 3], flags, 3) {
            Err(DzipError::UnsupportedCompression(found)) => assert_eq!(found, flags),
            other => panic!("unexpected outcome {:?}", other),
        }
    }
    assert_eq!(dzip_core::codec::compress(&[1, 2, 3], 0x4).unwrap(), vec![1, 2, 3]);
    assert_eq!(dzip_core::codec::compress(&[1, 2, 3], 0x80).unwrap(), Vec::<u8>::new());
    assert_eq!(decompress(&[1, 2, 3], 0x80, 3).unwrap(), Vec::<u8>::new());
    assert_eq!(decompress(&[1, 2, 3], 0x421, 3).unwrap(), vec![1, 2, 3]);
}

#[test]
fn do_pack_reads_sources_and_stores_volumes() {
    let cfg = config(
        vec![file("./dir/../dir/a.txt", "dir", "a.txt", vec![0]), file("b", ".", "b", vec![1])],
        vec![chunk(0, "LZMA", 5, 0), chunk(1, "COPY", 2, 1)],
        vec!["part1"],
    );
    let sep = std::path::MAIN_SEPARATOR;
    let mut files = BTreeMap::new();
    files.insert(format!("dir{}a.txt", sep), b"hello".to_vec());
    files.insert("b".to_string(), b"xy".to_vec());
    let source = MemoryFiles { files };
    let mut sink = MemoryVolumes { main: None, splits: BTreeMap::new() };
    let events = RefCell::new(Vec::new());
    do_pack(&cfg, &source, &mut sink, |e| events.borrow_mut().push(e)).unwrap();
    assert_eq!(
        *events.borrow(),
        vec![
            ProgressEvent::Start(2),
            ProgressEvent::Inc(1),
            ProgressEvent::Inc(1),
            ProgressEvent::Finish
        ]
    );
    assert_eq!(sink.splits.get(&0).unwrap(), &b"xy".to_vec());
    let main = sink.main.unwrap();
    let meta = ArchiveMetadata::parse(&main).unwrap();
    let c = &meta.raw_chunks[0];
    let payload = &main[c.offset as usize..(c.offset + c._head_c_len) as usize];
    assert_eq!(decompress(payload, 0x200, 5).unwrap(), b"hello".to_vec());

    let mut sink = MemoryVolumes { main: None, splits: BTreeMap::new() };
    let empty = MemoryFiles { files: BTreeMap::new() };
    assert!(matches!(do_pack(&cfg, &empty, &mut sink, |_| {}), Err(DzipError::Config(_))));
    assert!(sink.main.is_none());
}

#[test]
fn methods_are_found_by_name_in_any_case() {
    let parse = |s: &str| s.parse::<CompressionMethod>();
    assert_eq!(parse("dz").unwrap(), CompressionMethod::Dz);
    assert_eq!(parse("Bzip").unwrap(), CompressionMethod::Bzip);
    assert_eq!(parse("ZLIB").unwrap(), CompressionMethod::Zlib);
    assert_eq!(parse("copy").unwrap(), CompressionMethod::Copy);
    assert_eq!(parse("zero").unwrap(), CompressionMethod::Zero);
    assert_eq!(parse("MP3").unwrap(), CompressionMethod::Mp3);
    assert_eq!(parse("jpeg").unwrap(), CompressionMethod::Jpeg);
    assert_eq!(parse("JPG").unwrap(), CompressionMethod::Jpeg);
    assert_eq!(parse("lzma").unwrap(), CompressionMethod::Lzma);
    assert_eq!(parse("combuf").unwrap(), CompressionMethod::Combuf);
    assert_eq!(parse("RandomAccess").unwrap(), CompressionMethod::RandomAccess);
    match parse("gzip") {
        Err(DzipError::Io(text)) => assert_eq!(text, "Unknown compression method: gzip"),
        other => panic!("unexpected outcome {:?}", other),
    }
    assert_eq!(CompressionMethod::for_name("ZLIB"), None);
    assert_eq!(CompressionMethod::from_flags(0x108), CompressionMethod::Zlib);
    assert_eq!(CompressionMethod::from_flags(0x180), CompressionMethod::Copy);
    assert_eq!(CompressionMethod::from_flags(0x204), CompressionMethod::Lzma);
    assert_eq!(CompressionMethod::from_flags(0x401), CompressionMethod::Combuf);
    assert_eq!(CompressionMethod::from_flags(0), CompressionMethod::Dz);
}

#[test]
fn compress_data_gives_flag_and_payload() {
    let data = b"some data, some data, some data".to_vec();
    assert_eq!(compress_data(&data, CompressionMethod::Copy).unwrap(), (0x100, data.clone()));
    assert_eq!(compress_data(&data, CompressionMethod::Zero).unwrap(), (0x80, vec![]));
    assert_eq!(compress_data(&data, CompressionMethod::Mp3).unwrap(), (0x100, data.clone()));
    assert_eq!(compress_data(&data, CompressionMethod::Dz).unwrap(), (0x100, data.clone()));
    for (method, flag) in [
        (CompressionMethod::Zlib, 0x8u16),
        (CompressionMethod::Bzip, 0x10),
        (CompressionMethod::Lzma, 0x200),
    ] {
        let (found, payload) = compress_data(&data, method).unwrap();
        assert_eq!(found, flag);
        assert_ne!(payload, data);
        assert_eq!(decompress(&payload, flag, data.len() as u32).unwrap(), data);
    }
}

#[test]
fn payloads_are_released_in_order() {
    let mut buffer = ReorderBuffer::new(4);
    assert_eq!(buffer.next(), 0);
    assert_eq!(buffer.accept(2, vec![2]).unwrap(), Vec::<Vec<u8>>::new());
    assert_eq!(buffer.accept(1, vec![1]).unwrap(), Vec::<Vec<u8>>::new());
    assert!(matches!(buffer.finish(), Err(DzipError::Internal(_))));
    assert_eq!(buffer.accept(0, vec![0]).unwrap(), vec![vec![0], vec![1], vec![2]]);
    assert_eq!(buffer.next(), 3);
    assert!(matches!(buffer.accept(1, vec![9]), Err(DzipError::Internal(_))));
    assert!(matches!(buffer.accept(4, vec![9]), Err(DzipError::Internal(_))));
    assert_eq!(buffer.accept(3, vec![]).unwrap(), vec![Vec::<u8>::new()]);
    assert_eq!(buffer.next(), 4);
    assert!(buffer.finish().is_ok());
    let mut twice = ReorderBuffer::new(3);
    twice.accept(2, vec![1]).unwrap();
    assert!(matches!(twice.accept(2, vec![1]), Err(DzipError::Internal(_))));
    assert!(ReorderBuffer::new(0).finish().is_ok());
}

#[test]
fn packing_in_steps_gives_the_same_archive() {
    let cfg = config(
        vec![file("a", "x/y", "a", vec![1]), file("b", "", "b", vec![0, 2])],
        vec![chunk(0, "ZLIB", 4, 1), chunk(1, "COPY", 3, 0), chunk(2, "BZIP", 2, 0)],
        vec!["split"],
    );
    let contents = vec![b"abc".to_vec(), b"defghi".to_vec()];
    let whole = pack_archive(&cfg, &contents).unwrap();

    let plan = plan_pack(&cfg).unwrap();
    assert_eq!(plan.header_size, whole.header_size);
    assert_eq!(plan.sources, vec![Some((1, 0, 4)), Some((0, 0, 3)), Some((1, 4, 2))]);
    let (reserved, slot) = reserve_header(&cfg, &plan);
    assert_eq!(reserved.len() as u32, plan.header_size);
    assert_eq!(reserved[..slot], whole.volumes[0][..slot]);
    assert_eq!(reserved[slot + 48..], whole.volumes[0][slot + 48..plan.header_size as usize]);
    assert!(reserved[slot..slot + 48].iter().all(|b| *b == 0));

    // the payloads may be made in any order
    let mut payloads = vec![Vec::new(); 3];
    for p in [2usize, 0, 1] {
        payloads[p] = compress_chunk(&cfg, &plan, &contents, p).unwrap();
    }
    assert_eq!(payloads, compress_chunks(&cfg, &plan, &contents).unwrap());
    assert_eq!(payloads[1], b"abc".to_vec());
    let placed = place_payloads(&cfg, &plan, &payloads).unwrap();
    assert_eq!(placed.bodies.len(), 2);
    assert_eq!(placed.bodies[1], payloads[0]);
    let archive = assemble_archive(&cfg, &plan, placed);
    assert_eq!(archive.volumes, whole.volumes);
    assert_eq!(archive.chunks, whole.chunks);
    assert_eq!(archive.chunks[1].offset, plan.header_size);
    assert_eq!(archive.chunks[2].offset, plan.header_size + 3);
    assert_eq!(archive.chunks[0].offset, 0);
}
