use nit::database::ObjectId;
use nit::index::checksum::ChecksumError;
use nit::index::entry::{Entry, FileStat};
use nit::index::{Index, IndexError};
use nit::vfs::MemFs;

fn stat() -> FileStat {
    FileStat {
        ctime: 10,
        ctime_nsec: 20,
        mtime: 30,
        mtime_nsec: 40,
        dev: 50,
        ino: 60,
        mode: 0o100644,
        uid: 70,
        gid: 80,
        size: 90,
    }
}

fn oid() -> ObjectId {
    ObjectId::new([12; 20])
}

fn paths(index: &Index) -> Vec<Vec<u8>> {
    index.entries().iter().map(|e| e.path().clone()).collect()
}

#[test]
fn mod_adds_a_single_file() {
    let mut index = Index::new(b".git/index");
    index.add(b"alice.txt", oid(), stat());
    assert_eq!(vec![b"alice.txt".to_vec()], paths(&index));
}

#[test]
fn mod_replaces_a_file_with_a_directory() {
    let mut index = Index::new(b".git/index");
    index.add(b"alice.txt", oid(), stat());
    index.add(b"bob.txt", oid(), stat());

    index.add(b"alice.txt/nested.txt", oid(), stat());

    assert_eq!(
        vec![b"alice.txt/nested.txt".to_vec(), b"bob.txt".to_vec()],
        paths(&index)
    );
}

#[test]
fn replaces_a_directory_with_a_file() {
    let mut index = Index::new(b".git/index");
    index.add(b"alice.txt", oid(), stat());
    index.add(b"nested/bob.txt", oid(), stat());

    index.add(b"nested", oid(), stat());

    assert_eq!(vec![b"alice.txt".to_vec(), b"nested".to_vec()], paths(&index));
}

#[test]
fn recursively_replaces_a_directory_with_a_file() {
    let mut index = Index::new(b".git/index");
    index.add(b"alice.txt", oid(), stat());
    index.add(b"nested/bob.txt", oid(), stat());
    index.add(b"nested/inner/claire.txt", oid(), stat());
    index.add(b"nested/another_inner/eve.txt", oid(), stat());

    index.add(b"nested", oid(), stat());

    assert_eq!(vec![b"alice.txt".to_vec(), b"nested".to_vec()], paths(&index));
}

#[test]
fn written_index_loads_back_identically() {
    let mut fs = MemFs::new();
    fs.mkdir_p(b".git");

    let oid1 = ObjectId::new([1; 20]);
    let oid2 = ObjectId::new([2; 20]);

    let mut index = Index::new(b".git/index");
    index.add(b"a.txt", oid1, stat());
    index.add(b"b.txt", oid2, stat());
    index.write_updates(&mut fs).unwrap();

    let mut fresh = Index::new(b".git/index");
    fresh.load(&fs).unwrap();

    let entries = fresh.entries();
    assert_eq!(entries.len(), 2);
    assert_eq!(entries[0].path(), &b"a.txt".to_vec());
    assert_eq!(entries[0].oid().bytes(), &[1; 20]);
    assert_eq!(entries[0].mode(), 0o100644);
    assert_eq!(entries[1].path(), &b"b.txt".to_vec());
    assert_eq!(entries[1].oid().bytes(), &[2; 20]);
    assert_eq!(entries[1].mode(), 0o100644);
}

#[test]
fn executable_mode_survives_the_round_trip() {
    let mut fs = MemFs::new();
    fs.mkdir_p(b".git");

    let mut exec_stat = stat();
    exec_stat.mode = 0o100755;

    let mut index = Index::new(b".git/index");
    index.add(b"run.sh", oid(), exec_stat);
    index.write_updates(&mut fs).unwrap();

    let mut fresh = Index::new(b".git/index");
    fresh.load(&fs).unwrap();
    assert_eq!(fresh.entries()[0].mode(), 0o100755);
}

#[test]
fn loading_an_absent_index_is_empty() {
    let fs = MemFs::new();
    let mut index = Index::new(b".git/index");
    index.load(&fs).unwrap();
    assert!(index.entries().is_empty());
}

#[test]
fn corrupting_any_byte_fails_the_next_load() {
    let mut fs = MemFs::new();
    fs.mkdir_p(b".git");

    let mut index = Index::new(b".git/index");
    index.add(b"a.txt", ObjectId::new([1; 20]), stat());
    index.add(b"dir/b.txt", ObjectId::new([2; 20]), stat());
    index.write_updates(&mut fs).unwrap();

    let pristine = fs.read_file(b".git/index").unwrap();
    for i in 0..pristine.len() {
        let mut corrupt = pristine.clone();
        corrupt[i] ^= 0x40;
        let mut victim = MemFs::new();
        victim.mkdir_p(b".git");
        victim.write_file(b".git/index", corrupt);

        let mut fresh = Index::new(b".git/index");
        assert!(
            fresh.load(&victim).is_err(),
            "byte {} corrupted but load succeeded",
            i
        );
    }
}

#[test]
fn a_flipped_content_byte_is_a_checksum_error() {
    let mut fs = MemFs::new();
    fs.mkdir_p(b".git");

    let mut index = Index::new(b".git/index");
    index.add(b"a.txt", ObjectId::new([1; 20]), stat());
    index.write_updates(&mut fs).unwrap();

    let mut corrupt = fs.read_file(b".git/index").unwrap();
    // Flip a byte of the entry's identifier, well inside the record.
    corrupt[12 + 41] ^= 0x01;
    let mut victim = MemFs::new();
    victim.mkdir_p(b".git");
    victim.write_file(b".git/index", corrupt);

    let mut fresh = Index::new(b".git/index");
    assert!(matches!(
        fresh.load(&victim),
        Err(IndexError::Checksum(ChecksumError::BadChecksum))
    ));
}

#[test]
fn bad_signature_and_version_are_reported() {
    let mut fs = MemFs::new();
    fs.mkdir_p(b".git");

    let mut index = Index::new(b".git/index");
    index.add(b"a.txt", oid(), stat());
    index.write_updates(&mut fs).unwrap();
    let good = fs.read_file(b".git/index").unwrap();

    let mut wrong_sig = good.clone();
    wrong_sig[0] = b'X';
    fs.write_file(b".git/index", wrong_sig);
    let mut fresh = Index::new(b".git/index");
    match fresh.load(&fs) {
        Err(IndexError::IncorrectSignature(sig)) => assert_eq!(sig, b"XIRC".to_vec()),
        other => panic!("expected IncorrectSignature, got {:?}", other),
    }

    let mut wrong_version = good.clone();
    wrong_version[7] = 3;
    fs.write_file(b".git/index", wrong_version);
    let mut fresh = Index::new(b".git/index");
    match fresh.load(&fs) {
        Err(IndexError::IncorrectVersion(v)) => assert_eq!(v, 3),
        other => panic!("expected IncorrectVersion, got {:?}", other),
    }

    let truncated = good[0..8].to_vec();
    fs.write_file(b".git/index", truncated);
    let mut fresh = Index::new(b".git/index");
    assert!(matches!(
        fresh.load(&fs),
        Err(IndexError::Checksum(ChecksumError::CouldNotReadFile))
    ));
}

#[test]
fn second_writer_is_denied_while_the_lock_is_held() {
    let mut fs = MemFs::new();
    fs.mkdir_p(b".git");

    let mut first = Index::new(b".git/index");
    first.load_for_update(&mut fs).unwrap();

    let mut second = Index::new(b".git/index");
    second.add(b"a.txt", oid(), stat());
    assert!(matches!(
        second.write_updates(&mut fs),
        Err(IndexError::Lockfile(_))
    ));

    first.add(b"b.txt", oid(), stat());
    first.write_updates(&mut fs).unwrap();
    assert!(fs.exists_file(b".git/index"));
    assert!(!fs.exists_file(b".git/index.lock"));
}

#[test]
fn unchanged_index_releases_the_lock_without_writing() {
    let mut fs = MemFs::new();
    fs.mkdir_p(b".git");

    let mut index = Index::new(b".git/index");
    index.load_for_update(&mut fs).unwrap();
    assert!(fs.exists_file(b".git/index.lock"));
    index.write_updates(&mut fs).unwrap();
    assert!(!fs.exists_file(b".git/index.lock"));
    assert!(!fs.exists_file(b".git/index"));
}

#[test]
fn entries_accumulate_across_write_cycles() {
    let mut fs = MemFs::new();
    fs.mkdir_p(b".git");

    let mut index = Index::new(b".git/index");
    index.load_for_update(&mut fs).unwrap();
    index.add(b"hello.txt", ObjectId::new([1; 20]), stat());
    index.write_updates(&mut fs).unwrap();

    let mut index = Index::new(b".git/index");
    index.load_for_update(&mut fs).unwrap();
    assert_eq!(paths(&index), vec![b"hello.txt".to_vec()]);
    index.add(b"hohoho.txt", ObjectId::new([2; 20]), stat());
    index.write_updates(&mut fs).unwrap();

    let mut fresh = Index::new(b".git/index");
    fresh.load(&fs).unwrap();
    assert_eq!(
        paths(&fresh),
        vec![b"hello.txt".to_vec(), b"hohoho.txt".to_vec()]
    );
}

#[test]
fn is_tracked_sees_entries_and_their_directories() {
    let mut index = Index::new(b".git/index");
    index.add(b"a/b/c.txt", oid(), stat());

    assert!(index.is_tracked(b"a/b/c.txt"));
    assert!(index.is_tracked(b"a/b"));
    assert!(index.is_tracked(b"a"));
    assert!(!index.is_tracked(b"a/b/c"));
    assert!(!index.is_tracked(b"b"));
}

#[test]
fn entry_record_round_trips() {
    let e = Entry::new(b"some/file.txt", ObjectId::new([9; 20]), stat());
    let bytes = e.bytes();
    assert_eq!(bytes.len() % 8, 0);
    assert!(bytes.len() >= 64);

    let parsed = nit::index::entry::parse(bytes).unwrap();
    assert_eq!(parsed.path, b"some/file.txt".to_vec());
    assert_eq!(parsed.oid.bytes(), &[9; 20]);
    assert_eq!(parsed.ctime, 10);
    assert_eq!(parsed.size, 90);
    assert_eq!(parsed.flags, 13);
}
