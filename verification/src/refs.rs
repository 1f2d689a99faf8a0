//! The ref store: reads and writes the HEAD pointer file, a content
//! identifier as forty hex digits and a newline, through the same
//! lockfile contract as every other writer.

use vstd::prelude::*;

use crate::database::ObjectId;
use crate::lockfile::{lock_path_of, Lockfile, LockfileError};
use crate::utils::{hex_of, parent_of};
use crate::vfs::MemFs;

verus! {

#[derive(Debug)]
pub enum RefError {
    /// The HEAD lock could not be taken or released.
    NoLock(LockfileError),
    /// Writing through the lock failed; a held lock in the in-memory
    /// model always accepts writes, so no operation here produces it.
    CouldNotWrite,
    /// The identifier could not be rendered as text; the hex encoding
    /// cannot fail, so no operation here produces it.
    BadObjectId,
}

/// Where HEAD lives under a repository directory.
pub open spec fn head_path_of(base: Seq<u8>) -> Seq<u8> {
    base + seq![0x2fu8, 0x48u8, 0x45u8, 0x41u8, 0x44u8]
}

/// The text written for an identifier: its hex digits and a newline.
pub open spec fn head_text(oid: Seq<u8>) -> Seq<u8> {
    hex_of(oid) + seq![0x0au8]
}

pub struct Refs {
    pathname: Vec<u8>,
}

impl Refs {
    /// The repository directory this ref store works under.
    pub closed spec fn pathname(&self) -> Seq<u8> {
        self.pathname@
    }

    pub fn new(pathname: &[u8]) -> (r: Refs)
        ensures
            r.pathname() == pathname@,
    {
        let mut p: Vec<u8> = Vec::new();
        p.extend_from_slice(pathname);
        proof {
            assert(p@ =~= pathname@);
        }
        Refs { pathname: p }
    }

    /// The path of the HEAD file.
    pub fn head_path(&self) -> (r: Vec<u8>)
        ensures
            r@ == head_path_of(self.pathname()),
    {
        let mut p: Vec<u8> = Vec::new();
        p.extend_from_slice(self.pathname.as_slice());
        p.push(0x2f);
        p.push(0x48);
        p.push(0x45);
        p.push(0x41);
        p.push(0x44);
        proof {
            assert(p@ =~= head_path_of(self.pathname()));
        }
        p
    }

    /// Publishes a new HEAD: takes the HEAD lock, writes the identifier
    /// as text, and renames the lock file onto HEAD in one step.
    pub fn update_head(&self, fs: &mut MemFs, oid: &ObjectId) -> (r: Result<(), RefError>)
        requires
            old(fs).wf(),
        ensures
            final(fs).wf(),
            match r {
                Ok(()) => {
                    &&& !old(fs).files().contains_key(lock_path_of(head_path_of(self.pathname())))
                    &&& final(fs).files() == old(fs).files().insert(
                        head_path_of(self.pathname()),
                        head_text(oid@),
                    )
                    &&& final(fs).dirs() == old(fs).dirs()
                },
                Err(RefError::NoLock(le)) => {
                    &&& *final(fs) == *old(fs)
                    &&& match le {
                        LockfileError::LockDenied(p) => old(fs).files().contains_key(
                            lock_path_of(head_path_of(self.pathname())),
                        ) && p@ == lock_path_of(head_path_of(self.pathname())),
                        LockfileError::MissingParent => !old(fs).files().contains_key(
                            lock_path_of(head_path_of(self.pathname())),
                        ) && !old(fs).dirs().contains(
                            parent_of(lock_path_of(head_path_of(self.pathname()))),
                        ),
                        _ => false,
                    }
                },
                Err(_) => false,
            },
    {
        let head = self.head_path();
        let mut lock = Lockfile::new(head.as_slice());
        match lock.hold_for_update(fs) {
            Ok(()) => {},
            Err(e) => {
                return Err(RefError::NoLock(e));
            },
        }
        let mut text = oid.as_str();
        text.push(0x0a);
        proof {
            assert(text@ =~= head_text(oid@));
        }
        match lock.write(fs, text.as_slice()) {
            Ok(()) => {},
            Err(_) => {
                proof {
                    assert(false);
                }
                return vstd::pervasive::unreached();
            },
        }
        proof {
            crate::lockfile::lemma_lock_path_parent(head@);
            assert(Seq::<u8>::empty() + text@ =~= text@);
        }
        match lock.commit(fs) {
            Ok(()) => {},
            Err(_) => {
                proof {
                    assert(false);
                }
                return vstd::pervasive::unreached();
            },
        }
        proof {
            let l = lock_path_of(head_path_of(self.pathname()));
            assert(fs.files() =~= old(fs).files().insert(
                head_path_of(self.pathname()),
                head_text(oid@),
            ));
        }
        Ok(())
    }

    /// Reads the current HEAD text, if HEAD exists.
    pub fn read_head(&self, fs: &MemFs) -> (r: Option<Vec<u8>>)
        requires
            fs.wf(),
        ensures
            match r {
                Some(text) => fs.files().contains_key(head_path_of(self.pathname())) && text@
                    == fs.files()[head_path_of(self.pathname())],
                None => !fs.files().contains_key(head_path_of(self.pathname())),
            },
    {
        let head = self.head_path();
        fs.read_file(head.as_slice())
    }
}

} // verus!
