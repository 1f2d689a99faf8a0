//! An explicit model of the slice of the file system that the storage
//! core touches: a flat map from paths to file contents, plus the set of
//! directories that exist.  The lockfile protocol, the object store and
//! the index are verified against this model; a thin unverified shell can
//! mirror the resulting state onto a real disk.

use vstd::prelude::*;

use crate::utils::{bytes_eq, is_ancestor, parent_directories, parent_of};

verus! {

/// The map described by an association list, later pairs winning.
pub open spec fn assoc_map(s: Seq<(Vec<u8>, Vec<u8>)>) -> Map<Seq<u8>, Seq<u8>>
    decreases s.len(),
{
    if s.len() == 0 {
        Map::empty()
    } else {
        assoc_map(s.drop_last()).insert(s.last().0@, s.last().1@)
    }
}

/// The set of path views held by a list of paths.
pub open spec fn path_set(s: Seq<Vec<u8>>) -> Set<Seq<u8>>
    decreases s.len(),
{
    if s.len() == 0 {
        Set::empty()
    } else {
        path_set(s.drop_last()).insert(s.last()@)
    }
}

/// No two pairs of the association list carry the same key.
pub open spec fn distinct_keys(s: Seq<(Vec<u8>, Vec<u8>)>) -> bool {
    forall|i: int, j: int| 0 <= i < j < s.len() ==> s[i].0@ != s[j].0@
}

/// A directory, all its ancestors, and nothing else.
pub open spec fn dir_closure(p: Seq<u8>) -> Set<Seq<u8>> {
    Set::new(|q: Seq<u8>| q == p || is_ancestor(q, p))
}

proof fn lemma_assoc_map_contains(s: Seq<(Vec<u8>, Vec<u8>)>, k: Seq<u8>)
    ensures
        assoc_map(s).contains_key(k) <==> exists|i: int| 0 <= i < s.len() && s[i].0@ == k,
    decreases s.len(),
{
    if s.len() > 0 {
        lemma_assoc_map_contains(s.drop_last(), k);
        if assoc_map(s).contains_key(k) {
            if s.last().0@ == k {
                assert(s[s.len() - 1].0@ == k);
            } else {
                let i = choose|i: int| 0 <= i < s.drop_last().len() && s.drop_last()[i].0@ == k;
                assert(s[i].0@ == k);
            }
        }
        if exists|i: int| 0 <= i < s.len() && s[i].0@ == k {
            let i = choose|i: int| 0 <= i < s.len() && s[i].0@ == k;
            if i < s.len() - 1 {
                assert(s.drop_last()[i].0@ == k);
            }
        }
    }
}

proof fn lemma_assoc_map_at(s: Seq<(Vec<u8>, Vec<u8>)>, i: int)
    requires
        distinct_keys(s),
        0 <= i < s.len(),
    ensures
        assoc_map(s).contains_key(s[i].0@),
        assoc_map(s)[s[i].0@] == s[i].1@,
    decreases s.len(),
{
    if i == s.len() - 1 {
    } else {
        assert(distinct_keys(s.drop_last())) by {
            assert(forall|x: int, y: int|
                0 <= x < y < s.drop_last().len() ==> s.drop_last()[x].0@ != s.drop_last()[y].0@);
        }
        lemma_assoc_map_at(s.drop_last(), i);
        assert(s[s.len() - 1].0@ != s[i].0@);
    }
}

/// A filesystem value: which files exist with which bytes, and which
/// directories exist.  The root directory (the empty path) always exists.
pub struct MemFs {
    files: Vec<(Vec<u8>, Vec<u8>)>,
    dirs: Vec<Vec<u8>>,
}

impl MemFs {
    /// The files that exist, by path.
    pub closed spec fn files(&self) -> Map<Seq<u8>, Seq<u8>> {
        assoc_map(self.files@)
    }

    /// The directories that exist.
    pub closed spec fn dirs(&self) -> Set<Seq<u8>> {
        path_set(self.dirs@)
    }

    /// Internal consistency: paths are stored once, and the root exists.
    pub closed spec fn wf(&self) -> bool {
        &&& distinct_keys(self.files@)
        &&& (forall|i: int, j: int| 0 <= i < j < self.dirs@.len() ==> self.dirs@[i]@ != self.dirs@[j]@)
        &&& self.dirs().contains(Seq::<u8>::empty())
    }

    /// An empty filesystem: no files, and only the root directory.
    pub fn new() -> (r: MemFs)
        ensures
            r.wf(),
            r.files() == Map::<Seq<u8>, Seq<u8>>::empty(),
            r.dirs() == Set::<Seq<u8>>::empty().insert(Seq::<u8>::empty()),
    {
        let mut dirs: Vec<Vec<u8>> = Vec::new();
        dirs.push(Vec::new());
        let r = MemFs { files: Vec::new(), dirs };
        proof {
            assert(r.dirs@.drop_last() =~= Seq::<Vec<u8>>::empty());
            assert(path_set(Seq::<Vec<u8>>::empty()) =~= Set::<Seq<u8>>::empty());
            assert(r.dirs@.last()@ =~= Seq::<u8>::empty());
            assert(r.dirs() =~= Set::<Seq<u8>>::empty().insert(Seq::<u8>::empty()));
        }
        r
    }

    fn find_file(&self, path: &[u8]) -> (r: Option<usize>)
        ensures
            match r {
                Some(i) => i < self.files@.len() && self.files@[i as int].0@ == path@,
                None => forall|i: int| 0 <= i < self.files@.len() ==> self.files@[i].0@ != path@,
            },
    {
        let mut i: usize = 0;
        while i < self.files.len()
            invariant
                i <= self.files@.len(),
                forall|k: int| 0 <= k < i ==> self.files@[k].0@ != path@,
            decreases self.files@.len() - i,
        {
            if bytes_eq(self.files[i].0.as_slice(), path) {
                return Some(i);
            }
            i = i + 1;
        }
        None
    }

    fn find_dir(&self, path: &[u8]) -> (r: Option<usize>)
        ensures
            match r {
                Some(i) => i < self.dirs@.len() && self.dirs@[i as int]@ == path@,
                None => forall|i: int| 0 <= i < self.dirs@.len() ==> self.dirs@[i]@ != path@,
            },
    {
        let mut i: usize = 0;
        while i < self.dirs.len()
            invariant
                i <= self.dirs@.len(),
                forall|k: int| 0 <= k < i ==> self.dirs@[k]@ != path@,
            decreases self.dirs@.len() - i,
        {
            if bytes_eq(self.dirs[i].as_slice(), path) {
                return Some(i);
            }
            i = i + 1;
        }
        None
    }

    /// Whether a file exists at `path`.
    pub fn exists_file(&self, path: &[u8]) -> (r: bool)
        ensures
            r == self.files().contains_key(path@),
    {
        proof {
            lemma_assoc_map_contains(self.files@, path@);
        }
        self.find_file(path).is_some()
    }

    /// Whether a directory exists at `path`.
    pub fn dir_exists(&self, path: &[u8]) -> (r: bool)
        ensures
            r == self.dirs().contains(path@),
    {
        proof {
            lemma_path_set_contains(self.dirs@, path@);
        }
        self.find_dir(path).is_some()
    }

    /// Reads a file's bytes, or nothing when the file does not exist.
    pub fn read_file(&self, path: &[u8]) -> (r: Option<Vec<u8>>)
        requires
            self.wf(),
        ensures
            match r {
                Some(d) => self.files().contains_key(path@) && d@ == self.files()[path@],
                None => !self.files().contains_key(path@),
            },
    {
        proof {
            lemma_assoc_map_contains(self.files@, path@);
        }
        match self.find_file(path) {
            Some(i) => {
                proof {
                    lemma_assoc_map_at(self.files@, i as int);
                }
                let data = self.files[i].1.clone();
                proof {
                    assert(data@ =~= self.files@[i as int].1@);
                }
                Some(data)
            },
            None => None,
        }
    }

    /// Creates or overwrites the file at `path`, whose directory must exist.
    pub fn write_file(&mut self, path: &[u8], data: Vec<u8>)
        requires
            old(self).wf(),
            old(self).dirs().contains(parent_of(path@)),
        ensures
            final(self).wf(),
            final(self).files() == old(self).files().insert(path@, data@),
            final(self).dirs() == old(self).dirs(),
    {
        proof {
            lemma_assoc_map_contains(self.files@, path@);
        }
        let mut key: Vec<u8> = Vec::new();
        key.extend_from_slice(path);
        proof {
            assert(key@ =~= path@);
        }
        match self.find_file(path) {
            Some(i) => {
                let ghost prev = self.files@;
                self.files.set(i, (key, data));
                proof {
                    lemma_assoc_update(prev, i as int, (key, data));
                }
            },
            None => {
                let ghost prev = self.files@;
                self.files.push((key, data));
                proof {
                    assert(self.files@.drop_last() =~= prev);
                }
            },
        }
    }

    /// Appends bytes to an existing file.
    pub fn append_file(&mut self, path: &[u8], data: &[u8])
        requires
            old(self).wf(),
            old(self).files().contains_key(path@),
        ensures
            final(self).wf(),
            final(self).files() == old(self).files().insert(
                path@,
                old(self).files()[path@] + data@,
            ),
            final(self).dirs() == old(self).dirs(),
    {
        proof {
            lemma_assoc_map_contains(self.files@, path@);
        }
        let i = self.find_file(path).unwrap();
        proof {
            lemma_assoc_map_at(self.files@, i as int);
        }
        let mut content = self.files[i].1.clone();
        proof {
            assert(content@ =~= self.files@[i as int].1@);
        }
        content.extend_from_slice(data);
        proof {
            assert(content@ =~= old(self).files()[path@] + data@);
        }
        let mut key: Vec<u8> = Vec::new();
        key.extend_from_slice(path);
        proof {
            assert(key@ =~= path@);
        }
        let ghost prev = self.files@;
        self.files.set(i, (key, content));
        proof {
            lemma_assoc_update(prev, i as int, (key, content));
        }
    }

    /// Removes the file at `path`.
    pub fn remove_file(&mut self, path: &[u8])
        requires
            old(self).wf(),
            old(self).files().contains_key(path@),
        ensures
            final(self).wf(),
            final(self).files() == old(self).files().remove(path@),
            final(self).dirs() == old(self).dirs(),
    {
        proof {
            lemma_assoc_map_contains(self.files@, path@);
        }
        let i = self.find_file(path).unwrap();
        let ghost prev = self.files@;
        self.files.remove(i);
        proof {
            lemma_assoc_remove(prev, i as int);
        }
    }

    /// Moves the file at `from` onto `to` in one step, replacing any file
    /// already there; the target's directory must exist.
    pub fn rename_file(&mut self, from: &[u8], to: &[u8])
        requires
            old(self).wf(),
            old(self).files().contains_key(from@),
            old(self).dirs().contains(parent_of(to@)),
        ensures
            final(self).wf(),
            final(self).files() == old(self).files().remove(from@).insert(
                to@,
                old(self).files()[from@],
            ),
            final(self).dirs() == old(self).dirs(),
    {
        let data = self.read_file(from).unwrap();
        self.remove_file(from);
        self.write_file(to, data);
    }

    /// Creates the directory at `path` together with all its ancestors.
    pub fn mkdir_p(&mut self, path: &[u8])
        requires
            old(self).wf(),
        ensures
            final(self).wf(),
            final(self).files() == old(self).files(),
            final(self).dirs() == old(self).dirs() + dir_closure(path@),
    {
        let ancestors = parent_directories(path);
        let mut i: usize = 0;
        while i < ancestors.len()
            invariant
                old(self).wf(),
                self.wf(),
                self.files() == old(self).files(),
                forall|q: Seq<u8>| old(self).dirs().contains(q) ==> self.dirs().contains(q),
                forall|q: Seq<u8>|
                    self.dirs().contains(q) ==> old(self).dirs().contains(q) || is_ancestor(
                        q,
                        path@,
                    ),
                forall|k: int|
                    0 <= k < i ==> self.dirs().contains(#[trigger] ancestors@[k]@),
                forall|i2: int| 0 <= i2 < ancestors@.len() ==> is_ancestor(
                    #[trigger] ancestors@[i2]@,
                    path@,
                ),
            decreases ancestors@.len() - i,
        {
            self.push_dir(ancestors[i].as_slice());
            i = i + 1;
        }
        self.push_dir(path);
        proof {
            assert forall|q: Seq<u8>| self.dirs().contains(q) <==> (old(self).dirs() + dir_closure(
                path@,
            )).contains(q) by {
                if is_ancestor(q, path@) {
                    let k = choose|k: int| 0 <= k < ancestors@.len() && ancestors@[k]@ == q;
                }
            }
            assert(self.dirs() =~= old(self).dirs() + dir_closure(path@));
        }
    }

    fn push_dir(&mut self, path: &[u8])
        requires
            old(self).wf(),
        ensures
            final(self).wf(),
            final(self).files() == old(self).files(),
            final(self).dirs() == old(self).dirs().insert(path@),
    {
        proof {
            lemma_path_set_contains(self.dirs@, path@);
        }
        match self.find_dir(path) {
            Some(_) => {
                proof {
                    assert(self.dirs() =~= old(self).dirs().insert(path@));
                }
            },
            None => {
                let mut key: Vec<u8> = Vec::new();
                key.extend_from_slice(path);
                proof {
                    assert(key@ =~= path@);
                }
                let ghost prev = self.dirs@;
                self.dirs.push(key);
                proof {
                    assert(self.dirs@.drop_last() =~= prev);
                }
            },
        }
    }

    /// The stored files as a list of `(path, bytes)` pairs, for shells
    /// that mirror this value onto a real disk.
    pub fn file_list(&self) -> (r: &Vec<(Vec<u8>, Vec<u8>)>)
        ensures
            assoc_map(r@) == self.files(),
    {
        &self.files
    }
}

proof fn lemma_path_set_contains(s: Seq<Vec<u8>>, k: Seq<u8>)
    ensures
        path_set(s).contains(k) <==> exists|i: int| 0 <= i < s.len() && s[i]@ == k,
    decreases s.len(),
{
    if s.len() > 0 {
        lemma_path_set_contains(s.drop_last(), k);
        if path_set(s).contains(k) {
            if s.last()@ == k {
                assert(s[s.len() - 1]@ == k);
            } else {
                let i = choose|i: int| 0 <= i < s.drop_last().len() && s.drop_last()[i]@ == k;
                assert(s[i]@ == k);
            }
        }
        if exists|i: int| 0 <= i < s.len() && s[i]@ == k {
            let i = choose|i: int| 0 <= i < s.len() && s[i]@ == k;
            if i < s.len() - 1 {
                assert(s.drop_last()[i]@ == k);
            }
        }
    }
}

proof fn lemma_assoc_update(s: Seq<(Vec<u8>, Vec<u8>)>, i: int, pair: (Vec<u8>, Vec<u8>))
    requires
        distinct_keys(s),
        0 <= i < s.len(),
        pair.0@ == s[i].0@,
    ensures
        distinct_keys(s.update(i, pair)),
        assoc_map(s.update(i, pair)) == assoc_map(s).insert(pair.0@, pair.1@),
    decreases s.len(),
{
    if i == s.len() - 1 {
        assert(s.update(i, pair).drop_last() =~= s.drop_last());
        assert(s.update(i, pair).last() == pair);
        assert(assoc_map(s.update(i, pair)) =~= assoc_map(s).insert(pair.0@, pair.1@));
    } else {
        assert(distinct_keys(s.drop_last())) by {
            assert(forall|x: int, y: int|
                0 <= x < y < s.drop_last().len() ==> s.drop_last()[x].0@ != s.drop_last()[y].0@);
        }
        lemma_assoc_update(s.drop_last(), i, pair);
        assert(s.update(i, pair).drop_last() =~= s.drop_last().update(i, pair));
        assert(s.update(i, pair).last() == s.last());
        assert(s.last().0@ != pair.0@);
        assert(assoc_map(s.update(i, pair)) =~= assoc_map(s).insert(pair.0@, pair.1@));
    }
}

proof fn lemma_assoc_remove(s: Seq<(Vec<u8>, Vec<u8>)>, i: int)
    requires
        distinct_keys(s),
        0 <= i < s.len(),
    ensures
        distinct_keys(s.remove(i)),
        assoc_map(s.remove(i)) == assoc_map(s).remove(s[i].0@),
    decreases s.len(),
{
    lemma_assoc_map_contains(s, s[i].0@);
    if i == s.len() - 1 {
        assert(s.remove(i) =~= s.drop_last());
        lemma_assoc_map_contains(s.drop_last(), s[i].0@);
        assert(forall|k: int| 0 <= k < s.drop_last().len() ==> s.drop_last()[k].0@ != s[i].0@);
        assert(!assoc_map(s.drop_last()).contains_key(s[i].0@));
        assert(assoc_map(s.remove(i)) =~= assoc_map(s).remove(s[i].0@));
    } else {
        assert(distinct_keys(s.drop_last())) by {
            assert(forall|x: int, y: int|
                0 <= x < y < s.drop_last().len() ==> s.drop_last()[x].0@ != s.drop_last()[y].0@);
        }
        lemma_assoc_remove(s.drop_last(), i);
        assert(s.remove(i).drop_last() =~= s.drop_last().remove(i));
        assert(s.remove(i).last() == s.last());
        assert(s.last().0@ != s[i].0@);
        assert(assoc_map(s.remove(i)) =~= assoc_map(s).remove(s[i].0@));
    }
}

} // verus!
