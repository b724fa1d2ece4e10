use dzip_core::codec::{compress, decompress};
use dzip_core::error::DzipError;

#[test]
fn copy_is_byte_identical() {
    let data = b"world".to_vec();
    let stored = compress(&data, 0x100).unwrap();
    assert_eq!(stored, data);
    assert_eq!(decompress(&stored, 0x100, 5).unwrap(), data);
}

#[test]
fn zlib_round_trip() {
    let data = vec![0u8; 10];
    let stored = compress(&data, 0x8).unwrap();
    assert_ne!(stored, data);
    assert_eq!(&stored[..2], &[0x1f, 0x8b]);
    assert_eq!(decompress(&stored, 0x8, 10).unwrap(), data);
}

#[test]
fn bzip_round_trip() {
    let data = b"abcabcabcabcabcabc".to_vec();
    let stored = compress(&data, 0x10).unwrap();
    assert_ne!(stored, data);
    assert_eq!(&stored[..3], b"BZh");
    assert_eq!(decompress(&stored, 0x10, 18).unwrap(), data);
}

#[test]
fn lzma_round_trip() {
    let data = b"abcabcabcabcabcabc".to_vec();
    let stored = compress(&data, 0x200).unwrap();
    assert_ne!(stored, data);
    assert_eq!(decompress(&stored, 0x200, 18).unwrap(), data);
}

#[test]
fn range_coder_is_unsupported_on_read() {
    match decompress(&[1, 2, 3], 0x4, 3) {
        Err(DzipError::UnsupportedCompression(flags)) => assert_eq!(flags, 0x4),
        other => panic!("unexpected outcome {:?}", other),
    }
}
