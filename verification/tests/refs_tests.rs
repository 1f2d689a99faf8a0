use nit::database::ObjectId;
use nit::refs::Refs;
use nit::vfs::MemFs;

#[test]
fn head_is_written_as_hex_and_newline() {
    let mut fs = MemFs::new();
    fs.mkdir_p(b".git");

    let refs = Refs::new(b".git");
    assert_eq!(refs.head_path(), b".git/HEAD".to_vec());
    assert!(refs.read_head(&fs).is_none());

    let oid = ObjectId::new([0xab; 20]);
    refs.update_head(&mut fs, &oid).unwrap();

    let mut expected = oid.as_str();
    expected.push(b'\n');
    assert_eq!(refs.read_head(&fs).unwrap(), expected);
    assert!(!fs.exists_file(b".git/HEAD.lock"));

    // A later head replaces the earlier one through the same lock dance.
    let oid2 = ObjectId::new([0x01; 20]);
    refs.update_head(&mut fs, &oid2).unwrap();
    let mut expected2 = oid2.as_str();
    expected2.push(b'\n');
    assert_eq!(refs.read_head(&fs).unwrap(), expected2);
}
