use nit::arena::{Arena, Node};

#[test]
fn arena_arena_hmm() {
    let mut arena = Arena::new();
    let entry1 = arena.insert("Hey");
    let entry2 = arena.insert("Hi");
    let entry3 = arena.insert("oh no");

    arena.append(entry2, entry1).unwrap();
    arena.append(entry3, entry1).unwrap();

    assert_eq!(
        arena,
        Arena {
            arena: vec![
                Node {
                    idx: 0,
                    val: "Hey",
                    parent: None,
                    children: vec![1, 2]
                },
                Node {
                    idx: 1,
                    val: "Hi",
                    parent: Some(0),
                    children: vec![]
                },
                Node {
                    idx: 2,
                    val: "oh no",
                    parent: Some(0),
                    children: vec![]
                }
            ]
        }
    );
}

#[test]
fn arena_append_refuses_second_parent() {
    let mut arena = Arena::new();
    let a = arena.insert(1u64);
    let b = arena.insert(2u64);
    let c = arena.insert(3u64);

    arena.append(b, a).unwrap();
    assert!(arena.append(b, c).is_err());
}

#[test]
fn arena_lookup_by_value() {
    let mut arena = Arena::new();
    let key = arena.insert("one");
    assert_eq!(arena.get_token(&"one"), Some(key));
    assert_eq!(arena.get_token(&"two"), None);
    assert_eq!(arena.includes(&"one"), Some(0));
    let node = arena.get_node_from_key(key).unwrap();
    assert_eq!(node.val, "one");
    assert_eq!(arena.get_node(&"one").unwrap().idx, 0);
}
