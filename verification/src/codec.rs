//! Chooses the codec that the flag word of a chunk names, and runs it.
//!
//! The codecs themselves are outside crates. What they make of given bytes
//! is taken on trust and only named here; which codec runs, and what
//! becomes of its outcome, is this module's own and is proved.

use crate::error::DzipError;
use crate::format::{
    CHUNK_BZIP, CHUNK_CODEC_MASK, CHUNK_COPYCOMP, CHUNK_DZ, CHUNK_LZMA, CHUNK_ZERO, CHUNK_ZLIB,
};
use bzip2::read::BzDecoder;
use bzip2::write::BzEncoder;
use flate2::read::GzDecoder;
use flate2::write::GzEncoder;
use std::io::{Read, Write};
use crate::text::same_text;
use vstd::prelude::*;
use vstd::slice::slice_to_vec;

verus! {

/// The gzip stream that `flate2` makes of `data` at its default level, or
/// `None` where the encoder reports an error.
pub uninterp spec fn gzip_encoded(data: Seq<u8>) -> Option<Seq<u8>>;

/// The bytes that `flate2` reads out of the first gzip member of `data`, or
/// `None` where the decoder reports an error.
pub uninterp spec fn gzip_decoded(data: Seq<u8>) -> Option<Seq<u8>>;

/// The bzip2 stream that `bzip2` makes of `data` at its default level, or
/// `None` where the encoder reports an error.
pub uninterp spec fn bzip2_encoded(data: Seq<u8>) -> Option<Seq<u8>>;

/// The bytes that `bzip2` reads out of the first stream of `data`, or
/// `None` where the decoder reports an error.
pub uninterp spec fn bzip2_decoded(data: Seq<u8>) -> Option<Seq<u8>>;

/// The LZMA stream that `lzma_rs` makes of `data` with its default
/// options, or `None` where the encoder reports an error.
pub uninterp spec fn lzma_encoded(data: Seq<u8>) -> Option<Seq<u8>>;

/// The bytes that `lzma_rs` reads out of the LZMA stream `data` with its
/// default options, or `None` where the decoder reports an error.
pub uninterp spec fn lzma_decoded(data: Seq<u8>) -> Option<Seq<u8>>;

/// The contents of an optional byte vector.
pub open spec fn bytes_of(r: Option<Vec<u8>>) -> Option<Seq<u8>> {
    match r {
        Some(v) => Some(v@),
        None => None,
    }
}

/// Compresses with `flate2::write::GzEncoder` at `Compression::default()`:
/// all of `data` is written to the encoder, which is then finished. The
/// outcome depends on `data` alone and is named, not described.
#[verifier::external_body]
fn gzip_encode(data: &[u8]) -> (r: Option<Vec<u8>>)
    ensures
        bytes_of(r) == gzip_encoded(data@),
{
    let mut encoder = GzEncoder::new(Vec::new(), flate2::Compression::default());
    encoder.write_all(data).ok()?;
    encoder.finish().ok()
}

/// Decompresses with `flate2::read::GzDecoder`, read to its end: the
/// decoder stops behind the first gzip member and checks its CRC. The
/// outcome depends on `data` alone and is named, not described.
#[verifier::external_body]
fn gzip_decode(data: &[u8]) -> (r: Option<Vec<u8>>)
    ensures
        bytes_of(r) == gzip_decoded(data@),
{
    let mut out = Vec::new();
    GzDecoder::new(data).read_to_end(&mut out).ok()?;
    Some(out)
}

/// Compresses with `bzip2::write::BzEncoder` at `Compression::default()`:
/// all of `data` is written to the encoder, which is then finished. The
/// outcome depends on `data` alone and is named, not described.
#[verifier::external_body]
fn bzip2_encode(data: &[u8]) -> (r: Option<Vec<u8>>)
    ensures
        bytes_of(r) == bzip2_encoded(data@),
{
    let mut encoder = BzEncoder::new(Vec::new(), bzip2::Compression::default());
    encoder.write_all(data).ok()?;
    encoder.finish().ok()
}

/// Decompresses with `bzip2::read::BzDecoder`, read to its end: the
/// decoder stops behind the first stream. The outcome depends on `data`
/// alone and is named, not described.
#[verifier::external_body]
fn bzip2_decode(data: &[u8]) -> (r: Option<Vec<u8>>)
    ensures
        bytes_of(r) == bzip2_decoded(data@),
{
    let mut out = Vec::new();
    BzDecoder::new(data).read_to_end(&mut out).ok()?;
    Some(out)
}

/// Compresses with `lzma_rs::lzma_compress`. The outcome depends on `data`
/// alone and is named, not described.
#[verifier::external_body]
fn lzma_encode(data: &[u8]) -> (r: Option<Vec<u8>>)
    ensures
        bytes_of(r) == lzma_encoded(data@),
{
    let mut input = data;
    let mut out = Vec::new();
    lzma_rs::lzma_compress(&mut input, &mut out).ok()?;
    Some(out)
}

/// Decompresses with `lzma_rs::lzma_decompress`. The outcome depends on
/// `data` alone and is named, not described.
#[verifier::external_body]
fn lzma_decode(data: &[u8]) -> (r: Option<Vec<u8>>)
    ensures
        bytes_of(r) == lzma_decoded(data@),
{
    let mut input = data;
    let mut out = Vec::new();
    lzma_rs::lzma_decompress(&mut input, &mut out).ok()?;
    Some(out)
}

/// The payload transforms this library knows.
#[derive(Debug, Clone, Copy, PartialEq, Eq, Structural)]
pub enum Codec {
    /// The payload is the data.
    Copy,
    /// There is no payload and no data.
    Zero,
    /// gzip.
    Zlib,
    /// bzip2.
    Bzip,
    /// LZMA.
    Lzma,
    /// The range coder, which this library can carry but not run.
    Range,
}

/// The codec that a flag word names: the one whose bit is set. A word
/// without any codec bit means a stored payload, whatever its attributes
/// say. A word with more than one codec bit names none.
pub open spec fn codec_of(flags: u16) -> Option<Codec> {
    let bits = flags & CHUNK_CODEC_MASK;
    if bits == 0 || bits == CHUNK_COPYCOMP {
        Some(Codec::Copy)
    } else if bits == CHUNK_ZERO {
        Some(Codec::Zero)
    } else if bits == CHUNK_ZLIB {
        Some(Codec::Zlib)
    } else if bits == CHUNK_BZIP {
        Some(Codec::Bzip)
    } else if bits == CHUNK_LZMA {
        Some(Codec::Lzma)
    } else if bits == CHUNK_DZ {
        Some(Codec::Range)
    } else {
        None
    }
}

/// The codec that a flag word names.
pub fn select_codec(flags: u16) -> (r: Option<Codec>)
    ensures
        r == codec_of(flags),
{
    let bits = flags & CHUNK_CODEC_MASK;
    if bits == 0 || bits == CHUNK_COPYCOMP {
        Some(Codec::Copy)
    } else if bits == CHUNK_ZERO {
        Some(Codec::Zero)
    } else if bits == CHUNK_ZLIB {
        Some(Codec::Zlib)
    } else if bits == CHUNK_BZIP {
        Some(Codec::Bzip)
    } else if bits == CHUNK_LZMA {
        Some(Codec::Lzma)
    } else if bits == CHUNK_DZ {
        Some(Codec::Range)
    } else {
        None
    }
}

/// What can go wrong in a codec.
pub enum CodecFault {
    /// The flag word names no codec that can do what was asked.
    Unsupported,
    /// The codec ran and reported an error.
    Failed,
}

/// An outcome of an outside codec as an outcome of this module.
pub open spec fn codec_outcome(r: Option<Seq<u8>>) -> Result<Seq<u8>, CodecFault> {
    match r {
        Some(bytes) => Ok(bytes),
        None => Err(CodecFault::Failed),
    }
}

/// The payload that is stored for `data` under flag word `flags`. Data for
/// a range-coded chunk is taken to be the payload already and passes
/// through unchanged.
pub open spec fn compressed(data: Seq<u8>, flags: u16) -> Result<Seq<u8>, CodecFault> {
    match codec_of(flags) {
        Some(Codec::Copy) => Ok(data),
        Some(Codec::Zero) => Ok(Seq::empty()),
        Some(Codec::Zlib) => codec_outcome(gzip_encoded(data)),
        Some(Codec::Bzip) => codec_outcome(bzip2_encoded(data)),
        Some(Codec::Lzma) => codec_outcome(lzma_encoded(data)),
        Some(Codec::Range) => Ok(data),
        None => Err(CodecFault::Unsupported),
    }
}

/// The data that payload `data` stands for under flag word `flags`.
pub open spec fn decompressed(data: Seq<u8>, flags: u16) -> Result<Seq<u8>, CodecFault> {
    match codec_of(flags) {
        Some(Codec::Copy) => Ok(data),
        Some(Codec::Zero) => Ok(Seq::empty()),
        Some(Codec::Zlib) => codec_outcome(gzip_decoded(data)),
        Some(Codec::Bzip) => codec_outcome(bzip2_decoded(data)),
        Some(Codec::Lzma) => codec_outcome(lzma_decoded(data)),
        Some(Codec::Range) => Err(CodecFault::Unsupported),
        None => Err(CodecFault::Unsupported),
    }
}

/// Whether `r` is outcome `expected` of a codec run under `flags`: the
/// same bytes, `UnsupportedCompression` with the flag word for an
/// unsupported codec, and the error kind `failure` for a codec that failed.
pub open spec fn is_outcome(
    r: Result<Vec<u8>, DzipError>,
    expected: Result<Seq<u8>, CodecFault>,
    flags: u16,
    decoding: bool,
) -> bool {
    match expected {
        Ok(bytes) => r is Ok && r->Ok_0@ == bytes,
        Err(CodecFault::Unsupported) => r is Err && r->Err_0 == DzipError::UnsupportedCompression(
            flags,
        ),
        Err(CodecFault::Failed) => r is Err && if decoding {
            r->Err_0 is Decompression
        } else {
            r->Err_0 is Compression
        },
    }
}

/// Turns data into the payload of a chunk with flag word `flags`.
pub fn compress(data: &[u8], flags: u16) -> (r: Result<Vec<u8>, DzipError>)
    ensures
        is_outcome(r, compressed(data@, flags), flags, false),
{
    let outcome = match select_codec(flags) {
        None => {
            return Err(DzipError::UnsupportedCompression(flags));
        },
        Some(Codec::Copy) => Some(slice_to_vec(data)),
        Some(Codec::Range) => Some(slice_to_vec(data)),
        Some(Codec::Zero) => Some(Vec::new()),
        Some(Codec::Zlib) => gzip_encode(data),
        Some(Codec::Bzip) => bzip2_encode(data),
        Some(Codec::Lzma) => lzma_encode(data),
    };
    match outcome {
        Some(bytes) => Ok(bytes),
        None => Err(DzipError::Compression(String::from_str("the encoder reported an error"))),
    }
}

/// Turns the payload of a chunk with flag word `flags` back into data.
///
/// `expected_len` is the decompressed length that the chunk record claims.
/// It is a hint for the caller's bookkeeping and does not change the result.
pub fn decompress(data: &[u8], flags: u16, expected_len: u32) -> (r: Result<Vec<u8>, DzipError>)
    ensures
        is_outcome(r, decompressed(data@, flags), flags, true),
{
    let outcome = match select_codec(flags) {
        None => {
            return Err(DzipError::UnsupportedCompression(flags));
        },
        Some(Codec::Range) => {
            return Err(DzipError::UnsupportedCompression(flags));
        },
        Some(Codec::Copy) => Some(slice_to_vec(data)),
        Some(Codec::Zero) => Some(Vec::new()),
        Some(Codec::Zlib) => gzip_decode(data),
        Some(Codec::Bzip) => bzip2_decode(data),
        Some(Codec::Lzma) => lzma_decode(data),
    };
    match outcome {
        Some(bytes) => Ok(bytes),
        None => Err(DzipError::Decompression(String::from_str("the decoder reported an error"))),
    }
}

/// The ways a file can be stored that a description can ask for.
#[derive(Debug, Clone, Copy, PartialEq, Eq, Structural)]
pub enum CompressionMethod {
    Dz,
    Bzip,
    Zlib,
    Copy,
    Zero,
    Mp3,
    Jpeg,
    Lzma,
    Combuf,
    RandomAccess,
}

/// The text that `str::to_lowercase` makes of `text`.
pub uninterp spec fn lowercased(text: Seq<char>) -> Seq<char>;

/// Lowercases with `str::to_lowercase`, which maps every character as the
/// Unicode tables of the standard library say. The outcome depends on the
/// text alone and is named, not described.
#[verifier::external_body]
fn lowercase(text: &str) -> (r: String)
    ensures
        r@ == lowercased(text@),
{
    text.to_lowercase()
}

/// The method with the given name in lower case, if there is one.
pub open spec fn method_named(name: Seq<char>) -> Option<CompressionMethod> {
    if name == "dz"@ {
        Some(CompressionMethod::Dz)
    } else if name == "bzip"@ {
        Some(CompressionMethod::Bzip)
    } else if name == "zlib"@ {
        Some(CompressionMethod::Zlib)
    } else if name == "copy"@ {
        Some(CompressionMethod::Copy)
    } else if name == "zero"@ {
        Some(CompressionMethod::Zero)
    } else if name == "mp3"@ {
        Some(CompressionMethod::Mp3)
    } else if name == "jpeg"@ || name == "jpg"@ {
        Some(CompressionMethod::Jpeg)
    } else if name == "lzma"@ {
        Some(CompressionMethod::Lzma)
    } else if name == "combuf"@ {
        Some(CompressionMethod::Combuf)
    } else if name == "randomaccess"@ {
        Some(CompressionMethod::RandomAccess)
    } else {
        None
    }
}

/// The flag that a chunk gets when it is stored with `method`. A method
/// that this library cannot run stores the data as it is.
pub open spec fn stored_flag(method: CompressionMethod) -> u16 {
    match method {
        CompressionMethod::Zero => CHUNK_ZERO,
        CompressionMethod::Zlib => CHUNK_ZLIB,
        CompressionMethod::Bzip => CHUNK_BZIP,
        CompressionMethod::Lzma => CHUNK_LZMA,
        _ => CHUNK_COPYCOMP,
    }
}

/// The method that a flag word stands for in a description: the first of
/// zlib, bzip2, copy, zero, MP3, JPEG, LZMA, range coder, combination
/// buffer and random access whose bit is set, and the range coder where
/// none is.
pub open spec fn method_of_flags(flags: u16) -> CompressionMethod {
    if flags & CHUNK_ZLIB != 0 {
        CompressionMethod::Zlib
    } else if flags & CHUNK_BZIP != 0 {
        CompressionMethod::Bzip
    } else if flags & CHUNK_COPYCOMP != 0 {
        CompressionMethod::Copy
    } else if flags & CHUNK_ZERO != 0 {
        CompressionMethod::Zero
    } else if flags & crate::format::CHUNK_MP3 != 0 {
        CompressionMethod::Mp3
    } else if flags & crate::format::CHUNK_JPEG != 0 {
        CompressionMethod::Jpeg
    } else if flags & CHUNK_LZMA != 0 {
        CompressionMethod::Lzma
    } else if flags & CHUNK_DZ != 0 {
        CompressionMethod::Dz
    } else if flags & crate::format::CHUNK_COMBUF != 0 {
        CompressionMethod::Combuf
    } else if flags & crate::format::CHUNK_RANDOMACCESS != 0 {
        CompressionMethod::RandomAccess
    } else {
        CompressionMethod::Dz
    }
}

impl CompressionMethod {
    /// The method with the given name, which must be in lower case.
    pub fn for_name(name: &str) -> (r: Option<CompressionMethod>)
        ensures
            r == method_named(name@),
    {
        if same_text(name, "dz") {
            Some(CompressionMethod::Dz)
        } else if same_text(name, "bzip") {
            Some(CompressionMethod::Bzip)
        } else if same_text(name, "zlib") {
            Some(CompressionMethod::Zlib)
        } else if same_text(name, "copy") {
            Some(CompressionMethod::Copy)
        } else if same_text(name, "zero") {
            Some(CompressionMethod::Zero)
        } else if same_text(name, "mp3") {
            Some(CompressionMethod::Mp3)
        } else if same_text(name, "jpeg") || same_text(name, "jpg") {
            Some(CompressionMethod::Jpeg)
        } else if same_text(name, "lzma") {
            Some(CompressionMethod::Lzma)
        } else if same_text(name, "combuf") {
            Some(CompressionMethod::Combuf)
        } else if same_text(name, "randomaccess") {
            Some(CompressionMethod::RandomAccess)
        } else {
            None
        }
    }

    /// The method with the given name, whatever the case of its letters.
    ///
    /// Fails with `Io` for a name that is not the name of a method.
    pub fn parse_name(s: &str) -> (r: Result<CompressionMethod, DzipError>)
        ensures
            match method_named(lowercased(s@)) {
                Some(method) => r == Ok::<CompressionMethod, DzipError>(method),
                None => r is Err && r->Err_0 is Io,
            },
    {
        let lower = lowercase(s);
        match CompressionMethod::for_name(lower.as_str()) {
            Some(method) => Ok(method),
            None => {
                let mut message = String::from_str("Unknown compression method: ");
                message.append(s);
                Err(DzipError::Io(message))
            },
        }
    }

    /// The flag that a chunk gets when it is stored with this method.
    pub fn flag(self) -> (flag: u16)
        ensures
            flag == stored_flag(self),
    {
        match self {
            CompressionMethod::Zero => CHUNK_ZERO,
            CompressionMethod::Zlib => CHUNK_ZLIB,
            CompressionMethod::Bzip => CHUNK_BZIP,
            CompressionMethod::Lzma => CHUNK_LZMA,
            _ => CHUNK_COPYCOMP,
        }
    }

    /// The method that a flag word stands for in a description.
    pub fn from_flags(flags: u16) -> (method: CompressionMethod)
        ensures
            method == method_of_flags(flags),
    {
        if flags & CHUNK_ZLIB != 0 {
            CompressionMethod::Zlib
        } else if flags & CHUNK_BZIP != 0 {
            CompressionMethod::Bzip
        } else if flags & CHUNK_COPYCOMP != 0 {
            CompressionMethod::Copy
        } else if flags & CHUNK_ZERO != 0 {
            CompressionMethod::Zero
        } else if flags & crate::format::CHUNK_MP3 != 0 {
            CompressionMethod::Mp3
        } else if flags & crate::format::CHUNK_JPEG != 0 {
            CompressionMethod::Jpeg
        } else if flags & CHUNK_LZMA != 0 {
            CompressionMethod::Lzma
        } else if flags & CHUNK_DZ != 0 {
            CompressionMethod::Dz
        } else if flags & crate::format::CHUNK_COMBUF != 0 {
            CompressionMethod::Combuf
        } else if flags & crate::format::CHUNK_RANDOMACCESS != 0 {
            CompressionMethod::RandomAccess
        } else {
            CompressionMethod::Dz
        }
    }
}

impl std::str::FromStr for CompressionMethod {
    type Err = DzipError;

    /// The method that `s` names, whatever the case of its letters; see
    /// [`CompressionMethod::parse_name`].
    fn from_str(s: &str) -> (r: Result<Self, Self::Err>)
        ensures
            match method_named(lowercased(s@)) {
                Some(method) => r == Ok::<CompressionMethod, DzipError>(method),
                None => r is Err && r->Err_0 is Io,
            },
    {
        CompressionMethod::parse_name(s)
    }
}

/// Stores `data` with `method`: gives the flag of the chunk and its payload.
///
/// Fails with `Compression` where the encoder reports an error.
pub fn compress_data(data: &[u8], method: CompressionMethod) -> (r: Result<(u16, Vec<u8>), DzipError>)
    ensures
        match compressed(data@, stored_flag(method)) {
            Ok(bytes) => r is Ok && r->Ok_0.0 == stored_flag(method) && r->Ok_0.1@ == bytes,
            Err(fault) => r is Err && r->Err_0 is Compression,
        },
{
    let flag = method.flag();
    proof {
        lemma_stored_flag_codec(method);
    }
    match compress(data, flag) {
        Ok(bytes) => Ok((flag, bytes)),
        Err(e) => Err(e),
    }
}

/// The flag of every method names the codec that runs for it.
pub proof fn lemma_stored_flag_codec(method: CompressionMethod)
    ensures
        codec_of(stored_flag(method)) == Some(
            match method {
                CompressionMethod::Zero => Codec::Zero,
                CompressionMethod::Zlib => Codec::Zlib,
                CompressionMethod::Bzip => Codec::Bzip,
                CompressionMethod::Lzma => Codec::Lzma,
                _ => Codec::Copy,
            },
        ),
{
    assert(0x80u16 & 0x39Cu16 == 0x80u16) by (bit_vector);
    assert(0x8u16 & 0x39Cu16 == 0x8u16) by (bit_vector);
    assert(0x10u16 & 0x39Cu16 == 0x10u16) by (bit_vector);
    assert(0x200u16 & 0x39Cu16 == 0x200u16) by (bit_vector);
    assert(0x100u16 & 0x39Cu16 == 0x100u16) by (bit_vector);
}

} // verus!
