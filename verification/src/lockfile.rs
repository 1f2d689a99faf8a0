//! Single-slot mutual exclusion with atomic publication for one logical
//! file: a guard creates `<target>.lock` with must-not-exist semantics,
//! writes the new content there, and either publishes it onto the target
//! in one rename or discards it.

use vstd::prelude::*;

use crate::utils::{last_slash, parent_of, slash};
use crate::vfs::MemFs;

verus! {

#[derive(Debug, PartialEq, Eq)]
pub enum LockfileError {
    /// Another holder is active: the lock file (whose path is carried
    /// here) already exists.
    LockDenied(Vec<u8>),
    /// The target's directory does not exist.
    MissingParent,
    /// Access to the lock file was denied; the in-memory model has no
    /// permissions, so no operation here produces it.
    NoPermission,
    /// A write, commit or rollback was attempted without a held lock.
    StaleLock,
    /// Any other I/O failure; the in-memory model has none, so no
    /// operation here produces it.
    IoError,
}

/// The sibling path `<target>.lock`.
pub open spec fn lock_path_of(p: Seq<u8>) -> Seq<u8> {
    p + seq![0x2eu8, 0x6cu8, 0x6fu8, 0x63u8, 0x6bu8]
}

/// Appending a dotted extension never changes a path's directory.
pub proof fn lemma_lock_path_parent(p: Seq<u8>)
    ensures
        parent_of(lock_path_of(p)) == parent_of(p),
{
    let ext = seq![0x2eu8, 0x6cu8, 0x6fu8, 0x63u8, 0x6bu8];
    lemma_last_slash_append_no_slash(p, ext);
    crate::utils::lemma_last_slash_range(p);
    if last_slash(p) >= 0 {
        assert((p + ext).take(last_slash(p)) =~= p.take(last_slash(p)));
    }
}

proof fn lemma_last_slash_append_no_slash(p: Seq<u8>, s: Seq<u8>)
    requires
        forall|i: int| 0 <= i < s.len() ==> s[i] != slash(),
    ensures
        last_slash(p + s) == last_slash(p),
    decreases s.len(),
{
    if s.len() == 0 {
        assert(p + s =~= p);
    } else {
        lemma_last_slash_append_no_slash(p, s.drop_last());
        assert((p + s).drop_last() =~= p + s.drop_last());
        assert((p + s).last() == s.last());
        assert(forall|i: int| 0 <= i < s.drop_last().len() ==> s.drop_last()[i] != slash());
    }
}

/// An exclusive guard for one logical file path.  At most one guard per
/// path can be held at a time; every successful `hold_for_update` must be
/// answered by exactly one `commit` or `rollback`.
pub struct Lockfile {
    file_path: Vec<u8>,
    lock_path: Vec<u8>,
    held: bool,
}

impl Lockfile {
    /// The path of the guarded file.
    pub closed spec fn path(&self) -> Seq<u8> {
        self.file_path@
    }

    /// The path of the lock file, `<target>.lock`.
    pub closed spec fn lock_path(&self) -> Seq<u8> {
        self.lock_path@
    }

    /// Whether this guard currently holds the lock.
    pub closed spec fn held(&self) -> bool {
        self.held
    }

    pub open spec fn wf(&self) -> bool {
        self.lock_path() == lock_path_of(self.path())
    }

    /// Both guards aim at the same target and agree on being held.
    pub open spec fn same_target(&self, other: &Lockfile) -> bool {
        self.path() == other.path() && self.lock_path() == other.lock_path()
    }

    /// A new, unheld guard for `path`.
    pub fn new(path: &[u8]) -> (r: Lockfile)
        ensures
            r.wf(),
            r.path() == path@,
            !r.held(),
    {
        let mut file_path: Vec<u8> = Vec::new();
        file_path.extend_from_slice(path);
        let mut lock_path = file_path.clone();
        proof {
            assert(file_path@ =~= path@);
            assert(lock_path@ =~= path@);
        }
        let ext: [u8; 4] = [0x6c, 0x6f, 0x63, 0x6b];
        crate::utils::add_extension(&mut lock_path, ext.as_slice());
        proof {
            assert(lock_path@ =~= lock_path_of(path@));
        }
        Lockfile { file_path, lock_path, held: false }
    }

    /// Tries to take the lock by creating `<target>.lock`, which must not
    /// already exist.  Succeeds at once when this guard already holds it.
    pub fn hold_for_update(&mut self, fs: &mut MemFs) -> (r: Result<(), LockfileError>)
        requires
            old(self).wf(),
            old(fs).wf(),
        ensures
            final(self).wf(),
            final(fs).wf(),
            final(self).same_target(old(self)),
            match r {
                Ok(()) => if old(self).held() {
                    *final(self) == *old(self) && *final(fs) == *old(fs)
                } else {
                    &&& !old(fs).files().contains_key(old(self).lock_path())
                    &&& old(fs).dirs().contains(parent_of(old(self).lock_path()))
                    &&& final(self).held()
                    &&& final(fs).files() == old(fs).files().insert(
                        old(self).lock_path(),
                        Seq::<u8>::empty(),
                    )
                    &&& final(fs).dirs() == old(fs).dirs()
                },
                Err(LockfileError::LockDenied(p)) => {
                    &&& !old(self).held()
                    &&& old(fs).files().contains_key(old(self).lock_path())
                    &&& p@ == old(self).lock_path()
                    &&& *final(self) == *old(self)
                    &&& *final(fs) == *old(fs)
                },
                Err(LockfileError::MissingParent) => {
                    &&& !old(self).held()
                    &&& !old(fs).files().contains_key(old(self).lock_path())
                    &&& !old(fs).dirs().contains(parent_of(old(self).lock_path()))
                    &&& *final(self) == *old(self)
                    &&& *final(fs) == *old(fs)
                },
                Err(_) => false,
            },
    {
        if self.held {
            return Ok(());
        }
        if fs.exists_file(self.lock_path.as_slice()) {
            return Err(LockfileError::LockDenied(self.lock_path.clone()));
        }
        let parent = crate::utils::parent_dir(self.lock_path.as_slice());
        if !fs.dir_exists(parent.as_slice()) {
            return Err(LockfileError::MissingParent);
        }
        fs.write_file(self.lock_path.as_slice(), Vec::new());
        self.held = true;
        Ok(())
    }

    /// Appends bytes to the held lock file.
    pub fn write(&mut self, fs: &mut MemFs, bytes: &[u8]) -> (r: Result<(), LockfileError>)
        requires
            old(self).wf(),
            old(fs).wf(),
            old(self).held() ==> old(fs).files().contains_key(old(self).lock_path()),
        ensures
            *final(self) == *old(self),
            final(fs).wf(),
            match r {
                Ok(()) => {
                    &&& old(self).held()
                    &&& final(fs).files() == old(fs).files().insert(
                        old(self).lock_path(),
                        old(fs).files()[old(self).lock_path()] + bytes@,
                    )
                    &&& final(fs).dirs() == old(fs).dirs()
                },
                Err(LockfileError::StaleLock) => !old(self).held() && *final(fs) == *old(fs),
                Err(_) => false,
            },
    {
        if !self.held {
            return Err(LockfileError::StaleLock);
        }
        fs.append_file(self.lock_path.as_slice(), bytes);
        Ok(())
    }

    /// Publishes the lock file's content by renaming it onto the target
    /// in one step, and releases the lock.
    pub fn commit(&mut self, fs: &mut MemFs) -> (r: Result<(), LockfileError>)
        requires
            old(self).wf(),
            old(fs).wf(),
            old(self).held() ==> old(fs).files().contains_key(old(self).lock_path())
                && old(fs).dirs().contains(parent_of(old(self).path())),
        ensures
            final(self).wf(),
            final(fs).wf(),
            final(self).same_target(old(self)),
            match r {
                Ok(()) => {
                    &&& old(self).held()
                    &&& !final(self).held()
                    &&& final(fs).files() == old(fs).files().remove(
                        old(self).lock_path(),
                    ).insert(old(self).path(), old(fs).files()[old(self).lock_path()])
                    &&& final(fs).dirs() == old(fs).dirs()
                },
                Err(LockfileError::StaleLock) => {
                    &&& !old(self).held()
                    &&& *final(self) == *old(self)
                    &&& *final(fs) == *old(fs)
                },
                Err(_) => false,
            },
    {
        if !self.held {
            return Err(LockfileError::StaleLock);
        }
        proof {
            lemma_lock_path_parent(self.path());
        }
        fs.rename_file(self.lock_path.as_slice(), self.file_path.as_slice());
        self.held = false;
        Ok(())
    }

    /// Deletes the lock file without publishing, and releases the lock.
    pub fn rollback(&mut self, fs: &mut MemFs) -> (r: Result<(), LockfileError>)
        requires
            old(self).wf(),
            old(fs).wf(),
            old(self).held() ==> old(fs).files().contains_key(old(self).lock_path()),
        ensures
            final(self).wf(),
            final(fs).wf(),
            final(self).same_target(old(self)),
            match r {
                Ok(()) => {
                    &&& old(self).held()
                    &&& !final(self).held()
                    &&& final(fs).files() == old(fs).files().remove(old(self).lock_path())
                    &&& final(fs).dirs() == old(fs).dirs()
                },
                Err(LockfileError::StaleLock) => {
                    &&& !old(self).held()
                    &&& *final(self) == *old(self)
                    &&& *final(fs) == *old(fs)
                },
                Err(_) => false,
            },
    {
        if !self.held {
            return Err(LockfileError::StaleLock);
        }
        fs.remove_file(self.lock_path.as_slice());
        self.held = false;
        Ok(())
    }

    /// Whether this guard currently holds the lock.
    pub fn is_held(&self) -> (r: bool)
        ensures
            r == self.held(),
    {
        self.held
    }
}

} // verus!
