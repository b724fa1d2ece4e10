//! The description of an archive that unpacking emits and packing takes.

use crate::metadata::RangeSettings;
use vstd::prelude::*;

verus! {

/// The counts of an archive.
#[derive(Debug, Clone, Copy, PartialEq, Eq, Structural)]
pub struct ArchiveMeta {
    pub version: u8,
    pub total_files: u16,
    pub total_directories: u16,
    pub total_chunks: u16,
}

/// One file of an archive.
#[derive(Debug, Clone, PartialEq, Eq)]
pub struct FileEntry {
    /// Directory and name, with the separator of the host.
    pub path: String,
    /// The directory as the archive names it, with the separator of the host.
    pub directory: String,
    /// The base name.
    pub filename: String,
    /// The first chunk of the file, or 0 where it has none.
    pub chunk: u16,
    /// The chunks whose data make up the file, in order.
    pub chunks: Vec<u16>,
}

/// One chunk of an archive.
#[derive(Debug, Clone, PartialEq, Eq)]
pub struct ChunkDef {
    pub id: u16,
    pub offset: u32,
    pub size_compressed: u32,
    pub size_decompressed: u32,
    /// The name of the codec or attribute of the chunk.
    pub flag: String,
    /// The volume that holds the chunk.
    pub archive_file_index: u16,
}

/// An archive described for packing: what unpacking learned of it, or what
/// a user wrote down.
#[derive(Debug, Clone, PartialEq, Eq)]
pub struct Config {
    pub archive: ArchiveMeta,
    /// Names of the split volumes.
    pub archive_files: Vec<String>,
    pub range_settings: Option<RangeSettings>,
    pub files: Vec<FileEntry>,
    pub chunks: Vec<ChunkDef>,
}

} // verus!
