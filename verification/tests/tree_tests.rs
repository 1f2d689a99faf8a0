use nit::database::tree::{Entry, EntryMode, Tree};
use nit::database::{Database, ObjectId};
use nit::vfs::MemFs;

#[test]
fn tree_parent_directories() {
    let entry = Entry {
        name: b"bin/nested/jit".to_vec(),
        oid: ObjectId::new([0; 20]),
        mode: EntryMode::Executable,
    };

    let parents = entry.parent_directories();

    assert_eq!(parents, vec![b"bin".to_vec(), b"bin/nested".to_vec()]);
}

fn build_and_hash(entries: Vec<Entry>) -> ObjectId {
    let mut fs = MemFs::new();
    fs.mkdir_p(b".git/objects");
    let db = Database::new(b".git/objects");
    let mut root = Tree::build(entries);
    root.traverse(&db, &mut fs).unwrap()
}

#[test]
fn root_identifier_ignores_insertion_order() {
    let oid1 = ObjectId::new([1; 20]);
    let oid2 = ObjectId::new([2; 20]);

    let forward = vec![
        Entry::new(b"a.txt", oid1, EntryMode::Regular),
        Entry::new(b"b/c.txt", oid2, EntryMode::Regular),
    ];
    let backward = vec![
        Entry::new(b"b/c.txt", oid2, EntryMode::Regular),
        Entry::new(b"a.txt", oid1, EntryMode::Regular),
    ];

    assert_eq!(build_and_hash(forward), build_and_hash(backward));
}

#[test]
fn nested_entries_share_their_subtree() {
    let oid = ObjectId::new([7; 20]);
    let entries = vec![
        Entry::new(b"cool/beans/blah.rb", oid, EntryMode::Executable),
        Entry::new(b"cool/beans/more.rb", oid, EntryMode::Regular),
        Entry::new(b"top.rb", oid, EntryMode::Regular),
    ];

    let mut fs = MemFs::new();
    fs.mkdir_p(b".git/objects");
    let db = Database::new(b".git/objects");
    let mut root = Tree::build(entries);
    let first = root.traverse(&db, &mut fs).unwrap();

    // Hashing the same set again stores nothing new and yields the same root.
    let entries2 = vec![
        Entry::new(b"top.rb", oid, EntryMode::Regular),
        Entry::new(b"cool/beans/more.rb", oid, EntryMode::Regular),
        Entry::new(b"cool/beans/blah.rb", oid, EntryMode::Executable),
    ];
    let snapshot = fs.file_list().clone();
    let mut root2 = Tree::build(entries2);
    let second = root2.traverse(&db, &mut fs).unwrap();

    assert_eq!(first, second);
    assert_eq!(fs.file_list(), &snapshot);
}
