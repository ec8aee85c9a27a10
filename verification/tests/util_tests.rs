use widestring::U16CString;
use winext::util::inode::{
    inode_type_to_windows, requests_directory, windows_to_inode_type, InodeFileType,
    FILE_ATTRIBUTE_DIRECTORY, FILE_ATTRIBUTE_NORMAL, S_IFCHR, S_IFDIR, S_IFIFO, S_IFLNK, S_IFREG,
    S_IFSOCK,
};
use winext::util::u16cstr::{sanitize_basic, sanitize_path, U16CStrExt};
use winext::util::U32Ext;

fn wide_sanitize(s: &str) -> String {
    let w = U16CString::from_str(s).unwrap();
    U16CStrExt::sanitize(w.as_ucstr())
}

fn wide_sanitize_basic(s: &str) -> String {
    let w = U16CString::from_str(s).unwrap();
    winext::util::U16CStrExt::sanitize(w.as_ucstr())
}

#[test]
fn windows_time_of_unix_epoch() {
    assert_eq!(0u32.to_windows_time(), 116_444_736_000_000_000);
}

#[test]
fn windows_time_of_one_second() {
    assert_eq!(1u32.to_windows_time(), 116_444_736_010_000_000);
}

#[test]
fn windows_time_of_max_timestamp() {
    assert_eq!(u32::MAX.to_windows_time(), (4_294_967_295u64 + 11_644_473_600) * 10_000_000);
}

#[test]
fn windows_time_is_monotonic() {
    assert!(100u32.to_windows_time() < 101u32.to_windows_time());
    assert_eq!(101u32.to_windows_time() - 100u32.to_windows_time(), 10_000_000);
}

#[test]
fn sanitize_turns_backslashes_into_slashes() {
    assert_eq!(wide_sanitize("\\foo\\bar"), "/foo/bar");
}

#[test]
fn sanitize_root() {
    assert_eq!(wide_sanitize("\\"), "/");
    assert_eq!(wide_sanitize(""), "/");
    assert_eq!(wide_sanitize("\\\\\\"), "/");
    assert_eq!(wide_sanitize("/"), "/");
}

#[test]
fn sanitize_collapses_runs_of_separators() {
    assert_eq!(wide_sanitize("\\\\a\\\\\\b//c"), "/a/b/c");
}

#[test]
fn sanitize_adds_leading_slash() {
    assert_eq!(wide_sanitize("dir\\file.txt"), "/dir/file.txt");
}

#[test]
fn sanitize_removes_trailing_separators() {
    assert_eq!(wide_sanitize("\\dir\\sub\\"), "/dir/sub");
    assert_eq!(wide_sanitize("dir//"), "/dir");
}

#[test]
fn sanitize_keeps_other_characters() {
    assert_eq!(wide_sanitize("\\Übung\\a b.txt"), "/Übung/a b.txt");
}

#[test]
fn sanitize_path_trims_trailing_nul_characters() {
    assert_eq!(sanitize_path("abc\0\0"), "/abc");
    assert_eq!(sanitize_path("\0"), "/");
}

#[test]
fn sanitize_path_keeps_nul_before_a_separator() {
    assert_eq!(sanitize_path("a\0/"), "/a\0");
    assert_eq!(sanitize_path("/a\0"), "/a");
}

#[test]
fn sanitize_is_idempotent_on_examples() {
    for raw in ["\\a\\\\b\\", "x", "", "\\\\", "a/b\\c//", "//x//y//"] {
        let once = sanitize_path(raw);
        let twice = sanitize_path(&once);
        assert_eq!(once, twice);
    }
}

#[test]
fn sanitize_basic_only_converts_separators_and_trailing_nul() {
    assert_eq!(sanitize_basic("\\a\\\\b\\\0\0"), "/a//b/");
    assert_eq!(sanitize_basic("x"), "x");
    assert_eq!(sanitize_basic(""), "");
}

#[test]
fn basic_sanitize_of_wide_string() {
    assert_eq!(wide_sanitize_basic("\\dir\\\\f"), "/dir//f");
}

#[test]
fn inode_types_to_attributes() {
    assert_eq!(inode_type_to_windows(InodeFileType::from_bits_retain(S_IFDIR)), FILE_ATTRIBUTE_DIRECTORY);
    assert_eq!(inode_type_to_windows(InodeFileType::from_bits_retain(S_IFREG)), FILE_ATTRIBUTE_NORMAL);
    assert_eq!(inode_type_to_windows(InodeFileType::from_bits_retain(S_IFCHR)), FILE_ATTRIBUTE_NORMAL);
    assert_eq!(inode_type_to_windows(InodeFileType::from_bits_retain(S_IFIFO)), FILE_ATTRIBUTE_NORMAL);
    assert_eq!(inode_type_to_windows(InodeFileType::from_bits_retain(S_IFLNK)), FILE_ATTRIBUTE_NORMAL);
    assert_eq!(inode_type_to_windows(InodeFileType::from_bits_retain(0)), FILE_ATTRIBUTE_NORMAL);
}

#[test]
fn socket_bits_include_the_directory_bit() {
    assert_eq!(inode_type_to_windows(InodeFileType::from_bits_retain(S_IFSOCK)), FILE_ATTRIBUTE_DIRECTORY);
}

#[test]
fn attributes_to_inode_types() {
    assert_eq!(windows_to_inode_type(0x10).bits(), S_IFDIR);
    assert_eq!(windows_to_inode_type(0x80).bits(), S_IFREG);
    assert_eq!(windows_to_inode_type(0x11).bits(), S_IFDIR);
    assert_eq!(windows_to_inode_type(0).bits(), S_IFREG);
    assert!(requests_directory(0x30));
    assert!(!requests_directory(0x20));
}

#[test]
fn attribute_round_trip_keeps_directoryness() {
    for attr in [0u32, 0x10, 0x80, 0x90, 0xffff_ffff, 0xffff_ffef] {
        let back = inode_type_to_windows(windows_to_inode_type(attr));
        let expected = if attr & 0x10 != 0 { FILE_ATTRIBUTE_DIRECTORY } else { FILE_ATTRIBUTE_NORMAL };
        assert_eq!(back, expected);
    }
}

#[test]
fn type_round_trip_keeps_directoryness() {
    for bits in [S_IFIFO, S_IFCHR, S_IFDIR, S_IFREG, S_IFSOCK, S_IFLNK, 0] {
        let back = windows_to_inode_type(inode_type_to_windows(InodeFileType::from_bits_retain(bits))).bits();
        let expected = if bits & 0x4000 != 0 { S_IFDIR } else { S_IFREG };
        assert_eq!(back, expected);
    }
}

#[test]
fn sanitized_paths_are_canonical() {
    for raw in ["", "\\", "a", "\\a\\\\b\\", "//x//", "a\\b/c\\\\", "\\\\\\\\"] {
        let p = sanitize_path(raw);
        assert!(p.starts_with('/'));
        assert!(!p.contains('\\'));
        assert!(!p.contains("//"));
        assert!(p == "/" || !p.ends_with('/'));
    }
}

#[test]
fn sanitize_decodes_surrogate_pairs() {
    let w = U16CString::from_vec(vec![0x005C, 0xD83D, 0xDE00, 0x005C]).unwrap();
    assert_eq!(U16CStrExt::sanitize(w.as_ucstr()), "/\u{1F600}");
}

#[test]
fn sanitize_replaces_unpaired_surrogates() {
    let w = U16CString::from_vec(vec![0x0061, 0xD800, 0x0062, 0xDC00]).unwrap();
    assert_eq!(U16CStrExt::sanitize(w.as_ucstr()), "/a\u{FFFD}b\u{FFFD}");
    let w = U16CString::from_vec(vec![0xD800, 0xD800, 0xDC00]).unwrap();
    assert_eq!(U16CStrExt::sanitize(w.as_ucstr()), "/\u{FFFD}\u{10000}");
}

#[test]
fn sanitize_of_reencoded_result_is_unchanged() {
    for raw in ["\\a\\\\b\\", "x", "", "dir//f\\", "\\Übung\\😀\\"] {
        let r = wide_sanitize(raw);
        let w = U16CString::from_str(&r).unwrap();
        assert_eq!(U16CStrExt::sanitize(w.as_ucstr()), r);
    }
}
