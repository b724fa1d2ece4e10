use dzip_core::error::DzipError;
use dzip_core::paths::{
    clean_relative_path, sanitize_path, sanitize_path_with, source_relative_path, to_native_path,
    to_native_path_with,
};
use dzip_core::unpack::{join_raw_path, parent_dir};
use dzip_core::utils::{decode_flags, encode_flags, flag_for_name, read_null_term_string};

fn security_text(r: Result<String, DzipError>) -> String {
    match r {
        Err(DzipError::Security(text)) => text,
        other => panic!("unexpected outcome {:?}", other),
    }
}

#[test]
fn decode_flags_names_every_set_bit_in_table_order() {
    assert_eq!(decode_flags(0x8), vec!["ZLIB"]);
    assert_eq!(decode_flags(0x100), vec!["COPY"]);
    assert_eq!(decode_flags(0x409), vec!["COMBUF", "ZLIB", "RANDOM_ACCESS"]);
    assert_eq!(
        decode_flags(0xFFFF),
        vec![
            "COMBUF", "DZ_RANGE", "ZLIB", "BZIP", "MP3", "JPEG", "ZERO", "COPY", "LZMA",
            "RANDOM_ACCESS"
        ]
    );
}

#[test]
fn decode_flags_reads_no_known_bit_as_copy() {
    assert_eq!(decode_flags(0), vec!["COPY"]);
    assert_eq!(decode_flags(0x2), vec!["COPY"]);
    assert_eq!(decode_flags(0xF800), vec!["COPY"]);
}

#[test]
fn encode_flags_joins_the_bits_of_known_names() {
    let names = |list: &[&str]| list.iter().map(|s| s.to_string()).collect::<Vec<_>>();
    assert_eq!(encode_flags(&names(&[])), 0);
    assert_eq!(encode_flags(&names(&["COPY"])), 0x100);
    assert_eq!(encode_flags(&names(&["ZLIB", "COMBUF", "ZLIB"])), 0x9);
    assert_eq!(encode_flags(&names(&["zlib", "NOPE", ""])), 0);
    assert_eq!(encode_flags(&names(&["DZ_RANGE", "RANDOM_ACCESS", "LZMA"])), 0x604);
    assert_eq!(flag_for_name("JPEG"), 0x40);
    assert_eq!(flag_for_name("jpeg"), 0);
}

#[test]
fn encode_undoes_decode_on_known_bits() {
    for bits in [0x1u16, 0x4, 0x8, 0x10, 0x20, 0x40, 0x80, 0x100, 0x200, 0x400, 0x7FD, 0x218, 0xFFFF] {
        assert_eq!(encode_flags(&decode_flags(bits)), bits & 0x7FD);
    }
    assert_eq!(encode_flags(&decode_flags(0)), 0x100);
}

#[test]
fn read_null_term_string_stops_at_the_terminator() {
    let data = b"abc\0de\0\0tail";
    assert_eq!(read_null_term_string(data, 0), ("abc".to_string(), 4));
    assert_eq!(read_null_term_string(data, 4), ("de".to_string(), 7));
    assert_eq!(read_null_term_string(data, 7), ("".to_string(), 8));
    // no terminator is left: the string runs to the end
    assert_eq!(read_null_term_string(data, 8), ("tail".to_string(), 12));
    assert_eq!(read_null_term_string(data, 12), ("".to_string(), 12));
    assert_eq!(read_null_term_string(data, 40), ("".to_string(), 40));
    assert_eq!(read_null_term_string(&[0xFF, 0], 0), ("\u{FFFD}".to_string(), 2));
}

#[test]
fn sanitize_path_joins_below_the_base() {
    assert_eq!(sanitize_path_with("out", "a/b.txt", '/').unwrap(), "out/a/b.txt");
    assert_eq!(sanitize_path_with("out/", "a\\b.txt", '/').unwrap(), "out/a/b.txt");
    assert_eq!(sanitize_path_with("", "a\\b.txt", '\\').unwrap(), "a\\b.txt");
    assert_eq!(sanitize_path_with("out", "./a//./b/", '/').unwrap(), "out/a/b");
    assert_eq!(sanitize_path_with("out", "/etc/passwd", '/').unwrap(), "out/etc/passwd");
    assert_eq!(sanitize_path_with("out", "\\\\server\\share", '/').unwrap(), "out/server/share");
    assert_eq!(sanitize_path_with("out", "...", '/').unwrap(), "out/...");
    let sep = std::path::MAIN_SEPARATOR;
    assert_eq!(sanitize_path("out", "a/b").unwrap(), format!("out{}a{}b", sep, sep));
}

#[test]
fn sanitize_path_refuses_what_leads_outside() {
    assert_eq!(security_text(sanitize_path("out", "../etc/passwd")), "directory traversal");
    assert_eq!(security_text(sanitize_path("out", "a/b/../../..")), "directory traversal");
    assert_eq!(security_text(sanitize_path("out", "a\\..\\b")), "directory traversal");
    assert_eq!(security_text(sanitize_path("out", "C:\\Windows\\x")), "absolute path");
    assert_eq!(security_text(sanitize_path("out", "c:x")), "absolute path");
    assert_eq!(security_text(sanitize_path("out", "z:/../x")), "absolute path");
    assert_eq!(security_text(sanitize_path("out", "")), "empty path");
    assert_eq!(security_text(sanitize_path("out", "././/")), "empty path");
    assert_eq!(security_text(clean_relative_path("..", '/')), "directory traversal");
    // a colon elsewhere is part of a name
    assert_eq!(clean_relative_path("ab:c", '/').unwrap(), "ab:c");
    assert_eq!(clean_relative_path("1:c", '/').unwrap(), "1:c");
}

#[test]
fn native_paths_use_one_separator() {
    assert_eq!(to_native_path_with("a\\b/c", '/'), "a/b/c");
    assert_eq!(to_native_path_with("a\\b/c", '\\'), "a\\b\\c");
    assert_eq!(to_native_path_with("", '/'), "");
    let sep = std::path::MAIN_SEPARATOR;
    assert_eq!(to_native_path("x/y\\z"), format!("x{}y{}z", sep, sep));
}

#[test]
fn source_paths_never_leave_their_directory() {
    assert_eq!(source_relative_path("a/./b//c", '/'), "a/b/c");
    assert_eq!(source_relative_path("a/../b", '/'), "b");
    assert_eq!(source_relative_path("../../etc/passwd", '/'), "etc/passwd");
    assert_eq!(source_relative_path("a\\b\\..\\..\\..\\c", '\\'), "c");
    assert_eq!(source_relative_path("", '/'), "");
}

#[test]
fn raw_paths_put_the_directory_in_front() {
    assert_eq!(join_raw_path(".", "f.txt"), "f.txt");
    assert_eq!(join_raw_path("", "f.txt"), "f.txt");
    assert_eq!(join_raw_path("a\\b", "f.txt"), "a\\b/f.txt");
    assert_eq!(join_raw_path("..", "f"), "../f");
    assert_eq!(parent_dir("a/b/c"), Some("a/b".to_string()));
    assert_eq!(parent_dir("a\\b"), Some("a".to_string()));
    assert_eq!(parent_dir("abc"), None);
    assert_eq!(parent_dir(""), None);
}
