use nit::utils::{add_extension, bytes_to_hex_string, diff_paths, drain_to_array, is_executable,
    parent_dir, parent_directories};

#[test]
fn relative_paths_between_directories() {
    assert_eq!(
        diff_paths(b"/tmp/repo/a/b.txt", b"/tmp/repo"),
        Some(b"a/b.txt".to_vec())
    );
    assert_eq!(
        diff_paths(b"/tmp/other/c.txt", b"/tmp/repo"),
        Some(b"../other/c.txt".to_vec())
    );
    assert_eq!(diff_paths(b"/abs/file", b"rel"), Some(b"/abs/file".to_vec()));
    assert_eq!(diff_paths(b"rel/file", b"/abs"), None);
    assert_eq!(diff_paths(b"a/b", b"a/../c"), None);
}

#[test]
fn drain_array() {
    let mut v = vec![0, 1, 2, 3, 4, 5];
    let arr: [u8; 3] = drain_to_array(&mut v);

    assert_eq!(arr, [0, 1, 2]);
    assert_eq!(v, vec![3, 4, 5]);

    let arr: [u8; 3] = drain_to_array(&mut v);
    assert_eq!(arr, [3, 4, 5]);
    assert_eq!(v, vec![]);
}

#[test]
fn hex_encodes_lowercase_pairs() {
    assert_eq!(bytes_to_hex_string(&[]), b"".to_vec());
    assert_eq!(bytes_to_hex_string(&[0x00, 0xab, 0x1f]), b"00ab1f".to_vec());
    assert_eq!(bytes_to_hex_string(&[0xff]), b"ff".to_vec());
}

#[test]
fn owner_execute_bit_decides() {
    assert!(is_executable(0o100755));
    assert!(!is_executable(0o100644));
    assert!(!is_executable(0o100010));
    assert!(is_executable(0o100700));
}

#[test]
fn lock_extension_is_appended() {
    let mut path = b"index".to_vec();
    add_extension(&mut path, b"lock");
    assert_eq!(path, b"index.lock".to_vec());
}

#[test]
fn parents_of_nested_path() {
    let parents = parent_directories(b"a/b/c.txt");
    assert_eq!(parents, vec![b"a".to_vec(), b"a/b".to_vec()]);
    assert_eq!(parent_dir(b"a/b/c.txt"), b"a/b".to_vec());
    assert_eq!(parent_dir(b"c.txt"), b"".to_vec());
}
