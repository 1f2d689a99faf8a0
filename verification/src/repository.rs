//! One handle bundling the stores that live under a repository's `.git`
//! directory, each created on first use and kept.

use vstd::prelude::*;

use crate::database::Database;
use crate::index::Index;
use crate::refs::Refs;

verus! {

/// The objects directory under a repository directory.
pub open spec fn objects_dir_of(base: Seq<u8>) -> Seq<u8> {
    base + seq![0x2fu8, 0x6fu8, 0x62u8, 0x6au8, 0x65u8, 0x63u8, 0x74u8, 0x73u8]
}

/// The index file under a repository directory.
pub open spec fn index_file_of(base: Seq<u8>) -> Seq<u8> {
    base + seq![0x2fu8, 0x69u8, 0x6eu8, 0x64u8, 0x65u8, 0x78u8]
}

/// Lazily-created handles on the object database, the ref store and the
/// staging index under one `.git` directory.
pub struct Repository {
    path: Vec<u8>,
    database: Option<Database>,
    refs: Option<Refs>,
    index: Option<Index>,
}

impl Repository {
    /// The `.git` directory this repository works under.
    pub closed spec fn path(&self) -> Seq<u8> {
        self.path@
    }

    /// Each component that exists already sits at its place under the
    /// repository directory.
    pub closed spec fn wf(&self) -> bool {
        &&& (self.database matches Some(db) ==> db.pathname() == objects_dir_of(self.path@))
        &&& (self.refs matches Some(refs) ==> refs.pathname() == self.path@)
        &&& (self.index matches Some(index) ==> index.pathname() == index_file_of(self.path@)
            && index.wf())
    }

    pub fn new(path: &[u8]) -> (r: Repository)
        ensures
            r.path() == path@,
            r.wf(),
    {
        let mut p: Vec<u8> = Vec::new();
        p.extend_from_slice(path);
        proof {
            assert(p@ =~= path@);
        }
        Repository { path: p, database: None, refs: None, index: None }
    }

    /// The object database, under `<path>/objects`.
    pub fn database(&mut self) -> (r: &mut Database)
        requires
            old(self).wf(),
        ensures
            final(self).path() == old(self).path(),
            r.pathname() == objects_dir_of(old(self).path()),
            final(r).pathname() == objects_dir_of(old(self).path()) ==> final(self).wf(),
    {
        if self.database.is_none() {
            let mut objects = self.path.clone();
            proof {
                assert(objects@ =~= self.path@);
            }
            objects.push(0x2f);
            let name: [u8; 7] = [0x6f, 0x62, 0x6a, 0x65, 0x63, 0x74, 0x73];
            objects.extend_from_slice(name.as_slice());
            proof {
                assert(objects@ =~= objects_dir_of(self.path@));
            }
            self.database = Some(Database::new(objects.as_slice()));
        }
        match &mut self.database {
            Some(db) => db,
            None => vstd::pervasive::unreached(),
        }
    }

    /// The ref store, under the repository directory itself.
    pub fn refs(&mut self) -> (r: &mut Refs)
        requires
            old(self).wf(),
        ensures
            final(self).path() == old(self).path(),
            r.pathname() == old(self).path(),
            final(r).pathname() == old(self).path() ==> final(self).wf(),
    {
        if self.refs.is_none() {
            self.refs = Some(Refs::new(self.path.as_slice()));
        }
        match &mut self.refs {
            Some(refs) => refs,
            None => vstd::pervasive::unreached(),
        }
    }

    /// The staging index, at `<path>/index`, kept so staged entries
    /// survive between calls.
    pub fn index(&mut self) -> (r: &mut Index)
        requires
            old(self).wf(),
        ensures
            final(self).path() == old(self).path(),
            r.pathname() == index_file_of(old(self).path()),
            r.wf(),
            final(r).pathname() == index_file_of(old(self).path()) && final(r).wf()
                ==> final(self).wf(),
    {
        if self.index.is_none() {
            let mut index_path = self.path.clone();
            proof {
                assert(index_path@ =~= self.path@);
            }
            index_path.push(0x2f);
            let name: [u8; 5] = [0x69, 0x6e, 0x64, 0x65, 0x78];
            index_path.extend_from_slice(name.as_slice());
            proof {
                assert(index_path@ =~= index_file_of(self.path@));
            }
            self.index = Some(Index::new(index_path.as_slice()));
        }
        match &mut self.index {
            Some(index) => index,
            None => vstd::pervasive::unreached(),
        }
    }
}

} // verus!
