use nit::lockfile::{Lockfile, LockfileError};
use nit::vfs::MemFs;

fn fs_with_dir() -> MemFs {
    let mut fs = MemFs::new();
    fs.mkdir_p(b"repo");
    fs
}

#[test]
fn second_holder_is_denied_until_rollback() {
    let mut fs = fs_with_dir();
    let mut first = Lockfile::new(b"repo/target");
    let mut second = Lockfile::new(b"repo/target");

    assert!(first.hold_for_update(&mut fs).is_ok());
    match second.hold_for_update(&mut fs) {
        Err(LockfileError::LockDenied(path)) => assert_eq!(path, b"repo/target.lock".to_vec()),
        other => panic!("expected LockDenied, got {:?}", other),
    }

    first.rollback(&mut fs).unwrap();

    let mut third = Lockfile::new(b"repo/target");
    assert!(third.hold_for_update(&mut fs).is_ok());
    third.rollback(&mut fs).unwrap();
}

#[test]
fn missing_parent_directory_is_reported() {
    let mut fs = MemFs::new();
    let mut lock = Lockfile::new(b"absent/target");
    assert!(matches!(
        lock.hold_for_update(&mut fs),
        Err(LockfileError::MissingParent)
    ));
}

#[test]
fn operations_without_a_held_lock_are_stale() {
    let mut fs = fs_with_dir();
    let mut lock = Lockfile::new(b"repo/target");
    assert!(matches!(
        lock.write(&mut fs, b"data"),
        Err(LockfileError::StaleLock)
    ));
    assert!(matches!(lock.commit(&mut fs), Err(LockfileError::StaleLock)));
    assert!(matches!(
        lock.rollback(&mut fs),
        Err(LockfileError::StaleLock)
    ));
}

#[test]
fn commit_publishes_written_bytes_atomically() {
    let mut fs = fs_with_dir();
    let mut lock = Lockfile::new(b"repo/target");
    lock.hold_for_update(&mut fs).unwrap();
    lock.write(&mut fs, b"hello ").unwrap();
    lock.write(&mut fs, b"world").unwrap();
    assert!(fs.read_file(b"repo/target").is_none());
    lock.commit(&mut fs).unwrap();
    assert_eq!(fs.read_file(b"repo/target").unwrap(), b"hello world".to_vec());
    assert!(!fs.exists_file(b"repo/target.lock"));
}
