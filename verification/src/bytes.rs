//! Little-endian integers and text as bytes, the primitives that every
//! block of the archive header is made of.

use byteorder::{ByteOrder, LittleEndian, WriteBytesExt};
use vstd::arithmetic::div_mod::lemma_fundamental_div_mod_converse;
use vstd::prelude::*;
use vstd::slice::slice_subrange;
use vstd::utf8::{
    decode_utf8, encode_utf8, encode_utf8_decode_utf8, encode_utf8_valid_utf8, valid_utf8,
};

verus! {

/// The two bytes that encode `v`, least significant first.
pub open spec fn u16_le(v: u16) -> Seq<u8> {
    seq![(v % 256) as u8, (v / 256) as u8]
}

/// The four bytes that encode `v`, least significant first.
pub open spec fn u32_le(v: u32) -> Seq<u8> {
    seq![
        (v % 256) as u8,
        ((v / 256) % 256) as u8,
        ((v / 65536) % 256) as u8,
        (v / 16777216) as u8,
    ]
}

/// The 16-bit integer stored little-endian at index `i` of `s`.
pub open spec fn u16_at(s: Seq<u8>, i: int) -> u16
    recommends
        0 <= i,
        i + 2 <= s.len(),
{
    (s[i] as int + 256 * (s[i + 1] as int)) as u16
}

/// The 32-bit integer stored little-endian at index `i` of `s`.
pub open spec fn u32_at(s: Seq<u8>, i: int) -> u32
    recommends
        0 <= i,
        i + 4 <= s.len(),
{
    (s[i] as int + 256 * (s[i + 1] as int) + 65536 * (s[i + 2] as int) + 16777216 * (s[i + 3] as int)) as u32
}

/// Where the two bytes at `i` are the encoding of `v`, reading at `i` gives `v`.
pub proof fn lemma_u16_at_encoded(s: Seq<u8>, i: int, v: u16)
    requires
        0 <= i,
        i + 2 <= s.len(),
        s.subrange(i, i + 2) == u16_le(v),
    ensures
        u16_at(s, i) == v,
{
    let e = s.subrange(i, i + 2);
    assert(s[i] == e[0]);
    assert(s[i + 1] == e[1]);
}

/// Where the four bytes at `i` are the encoding of `v`, reading at `i` gives `v`.
pub proof fn lemma_u32_at_encoded(s: Seq<u8>, i: int, v: u32)
    requires
        0 <= i,
        i + 4 <= s.len(),
        s.subrange(i, i + 4) == u32_le(v),
    ensures
        u32_at(s, i) == v,
{
    let e = s.subrange(i, i + 4);
    assert(s[i] == e[0]);
    assert(s[i + 1] == e[1]);
    assert(s[i + 2] == e[2]);
    assert(s[i + 3] == e[3]);
}

/// Encoding the integer read at `i` gives the two bytes found there.
pub proof fn lemma_u16_le_of_read(s: Seq<u8>, i: int)
    requires
        0 <= i,
        i + 2 <= s.len(),
    ensures
        u16_le(u16_at(s, i)) == s.subrange(i, i + 2),
{
    let b0 = s[i] as int;
    let b1 = s[i + 1] as int;
    lemma_fundamental_div_mod_converse(b0 + 256 * b1, 256, b1, b0);
    assert(u16_le(u16_at(s, i)) =~= s.subrange(i, i + 2));
}

/// Encoding the integer read at `i` gives the four bytes found there.
pub proof fn lemma_u32_le_of_read(s: Seq<u8>, i: int)
    requires
        0 <= i,
        i + 4 <= s.len(),
    ensures
        u32_le(u32_at(s, i)) == s.subrange(i, i + 4),
{
    let b0 = s[i] as int;
    let b1 = s[i + 1] as int;
    let b2 = s[i + 2] as int;
    let b3 = s[i + 3] as int;
    let v = b0 + 256 * b1 + 65536 * b2 + 16777216 * b3;
    lemma_fundamental_div_mod_converse(v, 256, b1 + 256 * b2 + 65536 * b3, b0);
    lemma_fundamental_div_mod_converse(v / 256, 256, b2 + 256 * b3, b1);
    lemma_fundamental_div_mod_converse(v, 65536, b2 + 256 * b3, b0 + 256 * b1);
    lemma_fundamental_div_mod_converse(v / 65536, 256, b3, b2);
    lemma_fundamental_div_mod_converse(v, 16777216, b3, b0 + 256 * b1 + 65536 * b2);
    assert(u32_le(u32_at(s, i)) =~= s.subrange(i, i + 4));
}

/// Reads a 16-bit integer with `byteorder::ByteOrder::read_u16` for
/// `LittleEndian`. The crate takes the first two bytes of the slice and
/// combines them least significant first; it panics on a shorter slice,
/// which the precondition rules out.
#[verifier::external_body]
fn le_u16(bytes: &[u8]) -> (v: u16)
    requires
        bytes@.len() >= 2,
    ensures
        v == u16_at(bytes@, 0),
{
    LittleEndian::read_u16(bytes)
}

/// Reads a 32-bit integer with `byteorder::ByteOrder::read_u32` for
/// `LittleEndian`. The crate takes the first four bytes of the slice and
/// combines them least significant first; it panics on a shorter slice,
/// which the precondition rules out.
#[verifier::external_body]
fn le_u32(bytes: &[u8]) -> (v: u32)
    requires
        bytes@.len() >= 4,
    ensures
        v == u32_at(bytes@, 0),
{
    LittleEndian::read_u32(bytes)
}

/// Appends a 16-bit integer with `byteorder::WriteBytesExt::write_u16` for
/// `LittleEndian`. The crate hands the two encoded bytes to `write_all`,
/// which on a `Vec<u8>` appends them and cannot fail.
#[verifier::external_body]
pub(crate) fn put_u16(out: &mut Vec<u8>, v: u16)
    ensures
        final(out)@ == old(out)@ + u16_le(v),
{
    out.write_u16::<LittleEndian>(v).expect("a Vec<u8> accepts every write")
}

/// Appends a 32-bit integer with `byteorder::WriteBytesExt::write_u32` for
/// `LittleEndian`. The crate hands the four encoded bytes to `write_all`,
/// which on a `Vec<u8>` appends them and cannot fail.
#[verifier::external_body]
pub(crate) fn put_u32(out: &mut Vec<u8>, v: u32)
    ensures
        final(out)@ == old(out)@ + u32_le(v),
{
    out.write_u32::<LittleEndian>(v).expect("a Vec<u8> accepts every write")
}

/// The 16-bit integer stored at `pos`, or `None` where fewer than two bytes
/// are left.
pub fn read_u16_at(data: &[u8], pos: usize) -> (r: Option<u16>)
    ensures
        r == if pos + 2 <= data@.len() {
            Some(u16_at(data@, pos as int))
        } else {
            None
        },
{
    if pos > data.len() || data.len() - pos < 2 {
        return None;
    }
    let field = slice_subrange(data, pos, pos + 2);
    Some(le_u16(field))
}

/// The 32-bit integer stored at `pos`, or `None` where fewer than four bytes
/// are left.
pub fn read_u32_at(data: &[u8], pos: usize) -> (r: Option<u32>)
    ensures
        r == if pos + 4 <= data@.len() {
            Some(u32_at(data@, pos as int))
        } else {
            None
        },
{
    if pos > data.len() || data.len() - pos < 4 {
        return None;
    }
    let field = slice_subrange(data, pos, pos + 4);
    Some(le_u32(field))
}

/// Appends `bytes` to `out`.
pub fn append_bytes(out: &mut Vec<u8>, bytes: &[u8])
    ensures
        final(out)@ == old(out)@ + bytes@,
{
    out.extend_from_slice(bytes);
    assert(out@ =~= old(out)@ + bytes@);
}

/// The text that lossy UTF-8 decoding makes of `bytes`: the decoded text
/// where the bytes are valid UTF-8, and otherwise the text in which every
/// ill-formed part is replaced by U+FFFD.
pub uninterp spec fn utf8_lossy(bytes: Seq<u8>) -> Seq<char>;

/// Decodes bytes with `String::from_utf8_lossy`. Valid UTF-8 comes back
/// as the text it encodes; for other input the result is only named.
#[verifier::external_body]
pub(crate) fn string_from_utf8_lossy(bytes: &[u8]) -> (text: String)
    ensures
        text@ == utf8_lossy(bytes@),
        valid_utf8(bytes@) ==> text@ == decode_utf8(bytes@),
{
    String::from_utf8_lossy(bytes).into_owned()
}

/// The bytes a string is written as.
pub open spec fn text_bytes(text: Seq<char>) -> Seq<u8> {
    encode_utf8(text)
}

/// Text that was written as bytes is read back unchanged.
pub proof fn lemma_text_roundtrip(text: Seq<char>)
    ensures
        valid_utf8(text_bytes(text)),
        decode_utf8(text_bytes(text)) == text,
{
    encode_utf8_valid_utf8(text);
    encode_utf8_decode_utf8(text);
}

} // verus!
