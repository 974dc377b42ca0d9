use lab2::cstring::str_to_cstring;
use lab2::mode::{s_isdir, S_IFDIR, S_IFMT};
use lab2::text::str_eq;

#[test]
fn s_isdir_on_directory_modes() {
    assert!(s_isdir(0o040755));
    assert!(s_isdir(0o040000));
    assert!(s_isdir(S_IFDIR));
}

#[test]
fn s_isdir_on_other_file_types() {
    assert!(!s_isdir(0o100644));
    assert!(!s_isdir(0o120777));
    assert!(!s_isdir(0o060660));
    assert!(!s_isdir(0));
    assert!(!s_isdir(S_IFMT));
}

#[test]
fn s_isdir_ignores_permission_bits() {
    for perm in [0u32, 0o7777, 0o755, 0o1000, 0o4000] {
        assert_eq!(s_isdir(0o040000 | perm), s_isdir(0o040000));
        assert_eq!(s_isdir(0o100000 | perm), s_isdir(0o100000));
    }
}

#[test]
fn s_isdir_matches_libc_constants() {
    assert!(s_isdir(libc::S_IFDIR | 0o755));
    assert!(!s_isdir(libc::S_IFREG | 0o755));
    assert!(!s_isdir(libc::S_IFLNK | 0o777));
}

#[test]
fn str_eq_compares_characters() {
    assert!(str_eq("--root", "--root"));
    assert!(!str_eq("--root", "--roo"));
    assert!(!str_eq("--root", "--work"));
    assert!(str_eq("", ""));
    assert!(str_eq("é", "é"));
    assert!(!str_eq("é", "e"));
}

#[test]
fn str_to_cstring_appends_one_nul() {
    assert_eq!(str_to_cstring("abc"), vec![b'a', b'b', b'c', 0]);
    assert_eq!(str_to_cstring(""), vec![0]);
    assert_eq!(str_to_cstring("/"), vec![b'/', 0]);
}

#[test]
fn str_to_cstring_keeps_utf8_bytes() {
    assert_eq!(str_to_cstring("é"), vec![0xC3, 0xA9, 0]);
    assert_eq!(str_to_cstring("日"), vec![0xE6, 0x97, 0xA5, 0]);
}

#[test]
fn str_to_cstring_nul_only_at_end_without_nul_char() {
    let v = str_to_cstring("dir/name");
    assert_eq!(v.last(), Some(&0));
    assert!(!v[..v.len() - 1].contains(&0));
    let w = str_to_cstring("a\0b");
    assert!(w[..w.len() - 1].contains(&0));
    assert_eq!(w, vec![b'a', 0, b'b', 0]);
}
