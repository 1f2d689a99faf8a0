//! A small index-addressed arena of parent/child-linked nodes, keyed by
//! value equality.

use vstd::prelude::*;

use vstd::std_specs::cmp::PartialEqSpec;

verus! {

#[derive(Debug, PartialEq, Eq, Structural)]
pub enum ArenaError {
    /// The child already has a parent.
    ParentAssigned,
    /// A node with that value already exists; insertion reuses such a
    /// node instead, so no operation here produces it.
    NodeExists,
}

/// A ticket naming a node of the arena.
#[derive(Debug, Clone, Copy, PartialEq, Eq, Structural)]
pub struct Key(pub usize);

/// One node: its own index, its value, and links to its parent and
/// children.
#[derive(Debug, PartialEq)]
pub struct Node<T: PartialEq> {
    pub idx: usize,
    pub val: T,
    pub parent: Option<usize>,
    pub children: Vec<usize>,
}

/// An arena of nodes, addressed by index, looked up by value.
#[derive(Debug, PartialEq)]
pub struct Arena<T: PartialEq> {
    pub arena: Vec<Node<T>>,
}

impl<T: PartialEq> Arena<T> {
    pub fn new() -> (r: Arena<T>)
        ensures
            r.arena@ == Seq::<Node<T>>::empty(),
    {
        let r = Arena { arena: Vec::new() };
        proof {
            assert(r.arena@ =~= Seq::<Node<T>>::empty());
        }
        r
    }

    /// Index of the first node holding `val`, adding a fresh parentless
    /// node at the end when none does.
    pub fn node(&mut self, val: T) -> (r: usize)
        ensures
            T::obeys_eq_spec() ==> {
                if exists|i: int|
                    0 <= i < old(self).arena@.len() && (#[trigger] old(self).arena@[i].val).eq_spec(
                        &val,
                    ) {
                    &&& *final(self) == *old(self)
                    &&& r < old(self).arena@.len()
                    &&& old(self).arena@[r as int].val.eq_spec(&val)
                    &&& forall|k: int|
                        0 <= k < r ==> !(#[trigger] old(self).arena@[k].val).eq_spec(&val)
                } else {
                    &&& r == old(self).arena@.len()
                    &&& final(self).arena@.len() == old(self).arena@.len() + 1
                    &&& forall|k: int|
                        0 <= k < old(self).arena@.len() ==> final(self).arena@[k] == old(
                            self,
                        ).arena@[k]
                    &&& final(self).arena@[r as int].idx == r
                    &&& final(self).arena@[r as int].val == val
                    &&& final(self).arena@[r as int].parent is None
                    &&& final(self).arena@[r as int].children@ == Seq::<usize>::empty()
                }
            },
    {
        let mut i: usize = 0;
        while i < self.arena.len()
            invariant
                i <= self.arena@.len(),
                *self == *old(self),
                T::obeys_eq_spec() ==> forall|k: int|
                    0 <= k < i ==> !(#[trigger] self.arena@[k].val).eq_spec(&val),
            decreases self.arena@.len() - i,
        {
            if self.arena[i].val == val {
                return i;
            }
            i = i + 1;
        }
        let idx = self.arena.len();
        let children: Vec<usize> = Vec::new();
        proof {
            assert(children@ =~= Seq::<usize>::empty());
        }
        self.arena.push(Node { idx, val, parent: None, children });
        idx
    }

    /// A ticket for the first node holding `val`, if any does.
    pub fn get_token(&self, val: &T) -> (r: Option<Key>)
        ensures
            r matches Some(key) ==> key.0 < self.arena@.len(),
            T::obeys_eq_spec() ==> match r {
                Some(key) => {
                    &&& key.0 < self.arena@.len()
                    &&& self.arena@[key.0 as int].val.eq_spec(val)
                    &&& forall|k: int|
                        0 <= k < key.0 ==> !(#[trigger] self.arena@[k].val).eq_spec(val)
                },
                None => forall|k: int|
                    0 <= k < self.arena@.len() ==> !(#[trigger] self.arena@[k].val).eq_spec(val),
            },
    {
        let mut i: usize = 0;
        while i < self.arena.len()
            invariant
                i <= self.arena@.len(),
                T::obeys_eq_spec() ==> forall|k: int|
                    0 <= k < i ==> !(#[trigger] self.arena@[k].val).eq_spec(val),
            decreases self.arena@.len() - i,
        {
            if self.arena[i].val == *val {
                return Some(Key(i));
            }
            i = i + 1;
        }
        None
    }

    /// Index of the first node holding `val`, if any does.
    pub fn includes(&self, val: &T) -> (r: Option<usize>)
        ensures
            T::obeys_eq_spec() ==> match r {
                Some(i) => {
                    &&& i < self.arena@.len()
                    &&& self.arena@[i as int].val.eq_spec(val)
                    &&& forall|k: int|
                        0 <= k < i ==> !(#[trigger] self.arena@[k].val).eq_spec(val)
                },
                None => forall|k: int|
                    0 <= k < self.arena@.len() ==> !(#[trigger] self.arena@[k].val).eq_spec(val),
            },
    {
        match self.get_token(val) {
            Some(key) => Some(key.0),
            None => None,
        }
    }

    /// The node a ticket names, when the ticket is in range.
    pub fn get_node_from_key(&self, key: Key) -> (r: Option<&Node<T>>)
        ensures
            match r {
                Some(node) => key.0 < self.arena@.len() && *node == self.arena@[key.0 as int],
                None => key.0 >= self.arena@.len(),
            },
    {
        if key.0 < self.arena.len() {
            Some(&self.arena[key.0])
        } else {
            None
        }
    }

    /// The first node holding `val`, if any does.
    pub fn get_node(&self, val: &T) -> (r: Option<&Node<T>>)
        ensures
            T::obeys_eq_spec() ==> match r {
                Some(node) => exists|i: int|
                    0 <= i < self.arena@.len() && *node == #[trigger] self.arena@[i]
                        && self.arena@[i].val.eq_spec(val),
                None => forall|k: int|
                    0 <= k < self.arena@.len() ==> !(#[trigger] self.arena@[k].val).eq_spec(val),
            },
    {
        match self.get_token(val) {
            Some(key) => {
                proof {
                    if T::obeys_eq_spec() {
                        assert(self.arena@[key.0 as int].val.eq_spec(val));
                    }
                }
                Some(&self.arena[key.0])
            },
            None => None,
        }
    }

    /// Adds (or finds) a node for `val` and hands back its ticket: the
    /// index of the first node holding an equal value, or of the fresh
    /// parentless, childless node appended at the end.
    pub fn insert(&mut self, node: T) -> (r: Key)
        ensures
            T::obeys_eq_spec() ==> {
                if exists|i: int|
                    0 <= i < old(self).arena@.len() && (#[trigger] old(self).arena@[i].val).eq_spec(
                        &node,
                    ) {
                    &&& *final(self) == *old(self)
                    &&& r.0 < old(self).arena@.len()
                    &&& old(self).arena@[r.0 as int].val.eq_spec(&node)
                    &&& forall|k: int|
                        0 <= k < r.0 ==> !(#[trigger] old(self).arena@[k].val).eq_spec(&node)
                } else {
                    &&& r.0 == old(self).arena@.len()
                    &&& final(self).arena@.len() == old(self).arena@.len() + 1
                    &&& forall|k: int|
                        0 <= k < old(self).arena@.len() ==> final(self).arena@[k] == old(
                            self,
                        ).arena@[k]
                    &&& final(self).arena@[r.0 as int].idx == r.0
                    &&& final(self).arena@[r.0 as int].val == node
                    &&& final(self).arena@[r.0 as int].parent is None
                    &&& final(self).arena@[r.0 as int].children@ == Seq::<usize>::empty()
                }
            },
    {
        let node_idx = self.node(node);
        Key(node_idx)
    }

    /// Links a child node under a parent node; a child that already has
    /// a parent is refused.
    pub fn append(&mut self, child: Key, parent: Key) -> (r: Result<(), ArenaError>)
        requires
            child.0 < old(self).arena@.len(),
            parent.0 < old(self).arena@.len(),
        ensures
            match r {
                Ok(()) => {
                    &&& old(self).arena@[child.0 as int].parent is None
                    &&& final(self).arena@ == old(self).arena@.update(
                        child.0 as int,
                        Node {
                            idx: old(self).arena@[child.0 as int].idx,
                            val: old(self).arena@[child.0 as int].val,
                            parent: Some(parent.0),
                            children: old(self).arena@[child.0 as int].children,
                        },
                    ).update(
                        parent.0 as int,
                        Node {
                            idx: final(self).arena@[parent.0 as int].idx,
                            val: final(self).arena@[parent.0 as int].val,
                            parent: final(self).arena@[parent.0 as int].parent,
                            children: final(self).arena@[parent.0 as int].children,
                        },
                    )
                    &&& final(self).arena@[parent.0 as int].children@ == (if child.0 == parent.0 {
                        old(self).arena@[parent.0 as int].children@
                    } else {
                        old(self).arena@[parent.0 as int].children@
                    }).push(child.0)
                    &&& child.0 != parent.0 ==> final(self).arena@[parent.0 as int].idx == old(
                        self,
                    ).arena@[parent.0 as int].idx && final(self).arena@[parent.0 as int].val == old(
                        self,
                    ).arena@[parent.0 as int].val && final(self).arena@[parent.0 as int].parent
                        == old(self).arena@[parent.0 as int].parent
                    &&& final(self).arena@[child.0 as int].parent == Some(parent.0)
                },
                Err(ArenaError::ParentAssigned) => {
                    &&& old(self).arena@[child.0 as int].parent is Some
                    &&& *final(self) == *old(self)
                },
                Err(_) => false,
            },
    {
        let has_parent = self.arena[child.0].parent.is_some();
        if has_parent {
            return Err(ArenaError::ParentAssigned);
        }
        let child_node = vstd::std_specs::vec::vec_index_mut(&mut self.arena, child.0);
        child_node.parent = Some(parent.0);
        let parent_node = vstd::std_specs::vec::vec_index_mut(&mut self.arena, parent.0);
        parent_node.children.push(child.0);
        Ok(())
    }
}

} // verus!
