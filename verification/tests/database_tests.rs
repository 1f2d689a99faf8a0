use nit::database::blob::Blob;
use nit::database::{Database, ObjectId};
use nit::vfs::MemFs;

fn setup() -> (MemFs, Database) {
    let mut fs = MemFs::new();
    fs.mkdir_p(b".git/objects");
    (fs, Database::new(b".git/objects"))
}

#[test]
fn empty_blob_gets_the_well_known_identifier() {
    let (mut fs, db) = setup();
    let oid = db.store(&mut fs, &Blob::new(Vec::new())).unwrap();
    assert_eq!(
        oid.as_str(),
        b"e69de29bb2d1d6434b8b29ae775ad8c2e48c5391".to_vec()
    );
}

#[test]
fn storing_twice_is_idempotent() {
    let (mut fs, db) = setup();
    let blob = Blob::new(b"Hello, world".to_vec());
    let oid1 = db.store(&mut fs, &blob).unwrap();
    let snapshot = fs.file_list().clone();

    let again = Blob::new(b"Hello, world".to_vec());
    let oid2 = db.store(&mut fs, &again).unwrap();

    assert_eq!(oid1, oid2);
    assert_eq!(fs.file_list(), &snapshot);
}

#[test]
fn object_file_holds_the_compressed_canonical_content() {
    let (mut fs, db) = setup();
    let oid = db.store(&mut fs, &Blob::new(b"abc".to_vec())).unwrap();

    let hex = oid.as_str();
    let mut path = b".git/objects/".to_vec();
    path.extend_from_slice(&hex[0..2]);
    path.push(b'/');
    path.extend_from_slice(&hex[2..]);

    let stored = fs.read_file(&path).expect("object file missing");
    let mut decoder = flate2::read::ZlibDecoder::new(stored.as_slice());
    let mut decompressed = Vec::new();
    std::io::Read::read_to_end(&mut decoder, &mut decompressed).unwrap();
    assert_eq!(decompressed, b"blob 3\0abc".to_vec());
}

#[test]
fn raw_storage_matches_object_storage() {
    let (mut fs, db) = setup();
    let via_object = db.store(&mut fs, &Blob::new(b"abc".to_vec())).unwrap();
    let via_raw = db.store_raw(&mut fs, b"blob", b"abc").unwrap();
    assert_eq!(via_object, via_raw);

    let commit_oid = db
        .store_raw(&mut fs, b"commit", b"tree 0000\nend")
        .unwrap();
    assert_ne!(commit_oid, via_raw);
    assert!(fs.exists_file(&{
        let hex = commit_oid.as_str();
        let mut path = b".git/objects/".to_vec();
        path.extend_from_slice(&hex[0..2]);
        path.push(b'/');
        path.extend_from_slice(&hex[2..]);
        path
    }));
}

#[test]
fn identifiers_expose_their_bytes() {
    let oid = ObjectId::new([0xab; 20]);
    assert_eq!(oid.bytes(), &[0xab; 20]);
    assert_eq!(oid.as_str()[0..2].to_vec(), b"ab".to_vec());
}
