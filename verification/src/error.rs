//! The error type shared by every operation of the archive engine.

use vstd::prelude::*;

verus! {

/// Everything that can go wrong while reading or writing an archive.
#[derive(Debug, Clone)]
pub enum DzipError {
    /// A source or sink reported a failure; the text names what was being accessed.
    Io(String),
    /// The first four bytes of the main volume are not the archive magic.
    InvalidMagic(u32),
    /// The version byte of the header is not one this library reads.
    UnsupportedVersion(u8),
    /// The archive structure is broken: a block is truncated or a count is impossible.
    Format(String),
    /// The flag word of a chunk selects no codec that this library implements.
    UnsupportedCompression(u16),
    /// A codec rejected the data it was asked to compress.
    Compression(String),
    /// A codec rejected the payload it was asked to decompress.
    Decompression(String),
    /// A stored path would leave the extraction root.
    Security(String),
    /// The archive layout handed to the packer is inconsistent.
    Config(String),
    /// A split volume named by the archive could not be found.
    SplitFileMissing(String),
    /// A file refers to a chunk id that has no definition.
    ChunkDefinitionMissing(u16),
    /// An invariant of the packing pipeline was broken.
    Internal(String),
}

} // verus!
