//! What the archive engine asks of the world around it.
//!
//! The engine never touches a file system. It reads volumes and source
//! files through the traits of this module and hands what it produced to
//! them, always as whole byte vectors. Nothing is promised of an
//! implementation: every function of this library that calls one is proved
//! for whatever comes back.

use crate::error::DzipError;
use vstd::prelude::*;

verus! {

/// Where the volumes of an archive come from.
pub trait UnpackSource {
    /// The bytes of the main volume.
    fn open_main(&self) -> Result<Vec<u8>, DzipError>;

    /// The bytes of the split volume with the given name.
    fn open_split(&self, split_name: &str) -> Result<Vec<u8>, DzipError>;

    /// The length in bytes of the split volume with the given name.
    fn get_split_len(&self, split_name: &str) -> Result<u64, DzipError>;
}

/// Where extracted files go. Paths are relative, sanitized, and use the
/// separator of the host.
pub trait UnpackSink {
    /// Creates a directory and every directory above it.
    fn create_dir_all(&self, rel_path: &str) -> Result<(), DzipError>;

    /// Creates a file with the given contents.
    fn create_file(&self, rel_path: &str, contents: &[u8]) -> Result<(), DzipError>;
}

/// Where the files that go into an archive come from.
pub trait PackSource {
    /// Whether there is a file at the given relative path.
    fn file_exists(&self, rel_path: &str) -> bool;

    /// The bytes of the file at the given relative path.
    fn open_file(&self, rel_path: &str) -> Result<Vec<u8>, DzipError>;
}

/// Where the volumes of a new archive go.
pub trait PackSink {
    /// Stores the main volume.
    fn create_main(&mut self, contents: &[u8]) -> Result<(), DzipError>;

    /// Stores the split volume with index `split_idx` in the split list.
    fn create_split(&mut self, split_idx: u16, contents: &[u8]) -> Result<(), DzipError>;
}

/// What an operation reports while it runs: how many files there are, one
/// step for each file that is done, and the end.
#[derive(Debug, Clone, Copy, PartialEq, Eq, Structural)]
pub enum ProgressEvent {
    Start(usize),
    Inc(usize),
    Finish,
}

} // verus!
