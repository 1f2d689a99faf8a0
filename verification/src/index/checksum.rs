//! A SHA-1-accumulating reader/writer over an in-memory byte buffer: every
//! byte read or written is folded into a running digest, which the index
//! file carries as its trailing twenty bytes.

use vstd::prelude::*;

use crate::database::{sha1_digest, sha1_of};

verus! {

#[derive(Debug, PartialEq, Eq, Structural)]
pub enum ChecksumError {
    /// Reading past the end of the buffer.
    CouldNotReadFile,
    /// Writing to the underlying file failed; a write to the in-memory
    /// buffer cannot fail, so no operation here produces it.
    CouldNotWriteFile,
    /// The trailing digest did not match the bytes before it.
    BadChecksum,
}

/// A byte buffer together with a read position; the digest over the
/// prefix read (or over everything written) is computed on demand.
pub struct Checksum {
    data: Vec<u8>,
    pos: usize,
}

impl Checksum {
    /// The underlying bytes.
    pub closed spec fn data(&self) -> Seq<u8> {
        self.data@
    }

    /// How many bytes have been read (for a writer: written).
    pub closed spec fn pos(&self) -> int {
        self.pos as int
    }

    pub open spec fn wf(&self) -> bool {
        0 <= self.pos() <= self.data().len()
    }

    /// A checksummed reader over `data`; pass an empty buffer to write.
    pub fn new(data: Vec<u8>) -> (r: Checksum)
        ensures
            r.wf(),
            r.data() == data@,
            r.pos() == 0,
    {
        Checksum { data, pos: 0 }
    }

    /// Reads the next `size` bytes, folding them into the digest.
    pub fn read(&mut self, size: usize) -> (r: Result<Vec<u8>, ChecksumError>)
        requires
            old(self).wf(),
        ensures
            final(self).wf(),
            final(self).data() == old(self).data(),
            match r {
                Ok(bytes) => {
                    &&& old(self).pos() + size <= old(self).data().len()
                    &&& bytes@ == old(self).data().subrange(
                        old(self).pos(),
                        old(self).pos() + size,
                    )
                    &&& final(self).pos() == old(self).pos() + size
                },
                Err(ChecksumError::CouldNotReadFile) => {
                    &&& old(self).pos() + size > old(self).data().len()
                    &&& *final(self) == *old(self)
                },
                Err(_) => false,
            },
    {
        if size > self.data.len() - self.pos {
            return Err(ChecksumError::CouldNotReadFile);
        }
        let mut out: Vec<u8> = Vec::new();
        let mut i: usize = 0;
        while i < size
            invariant
                i <= size,
                self.pos + size <= self.data@.len(),
                self.data@.len() <= usize::MAX,
                out@ == self.data@.subrange(self.pos as int, self.pos + i),
            decreases size - i,
        {
            out.push(self.data[self.pos + i]);
            proof {
                assert(out@ =~= self.data@.subrange(self.pos as int, self.pos + i + 1));
            }
            i = i + 1;
        }
        self.pos = self.pos + size;
        Ok(out)
    }

    /// Reads the twenty-byte trailer and compares it against the digest
    /// of every byte read so far.
    pub fn verify_checksum(&mut self) -> (r: Result<(), ChecksumError>)
        requires
            old(self).wf(),
        ensures
            final(self).wf(),
            final(self).data() == old(self).data(),
            match r {
                Ok(()) => {
                    &&& old(self).pos() + 20 <= old(self).data().len()
                    &&& old(self).data().subrange(old(self).pos(), old(self).pos() + 20)
                        == sha1_of(old(self).data().take(old(self).pos()))
                    &&& final(self).pos() == old(self).pos() + 20
                },
                Err(ChecksumError::CouldNotReadFile) => {
                    &&& old(self).pos() + 20 > old(self).data().len()
                    &&& *final(self) == *old(self)
                },
                Err(ChecksumError::BadChecksum) => {
                    &&& old(self).pos() + 20 <= old(self).data().len()
                    &&& old(self).data().subrange(old(self).pos(), old(self).pos() + 20)
                        != sha1_of(old(self).data().take(old(self).pos()))
                    &&& final(self).pos() == old(self).pos() + 20
                },
                Err(_) => false,
            },
    {
        if 20 > self.data.len() - self.pos {
            return Err(ChecksumError::CouldNotReadFile);
        }
        let ghost p = self.pos as int;
        let mut consumed: Vec<u8> = Vec::new();
        let mut i: usize = 0;
        while i < self.pos
            invariant
                i <= self.pos,
                self.pos + 20 <= self.data@.len(),
                consumed@ == self.data@.take(i as int),
            decreases self.pos - i,
        {
            consumed.push(self.data[i]);
            proof {
                assert(consumed@ =~= self.data@.take(i + 1));
            }
            i = i + 1;
        }
        let digest = sha1_digest(consumed.as_slice());
        let mut same = true;
        let mut j: usize = 0;
        proof {
            assert(self.data@.subrange(self.pos as int, self.pos as int) =~= digest@.take(0));
        }
        while j < 20
            invariant
                j <= 20,
                self.pos + 20 <= self.data@.len(),
                self.data@.len() <= usize::MAX,
                digest@ == sha1_of(self.data@.take(self.pos as int)),
                digest@.len() == 20,
                same == (self.data@.subrange(self.pos as int, self.pos + j) == digest@.take(
                    j as int,
                )),
            decreases 20 - j,
    {
            let ghost before = same;
            if self.data[self.pos + j] != digest[j] {
                same = false;
            }
            proof {
                let a = self.data@.subrange(self.pos as int, self.pos + j + 1);
                let b = digest@.take(j + 1);
                if before && self.data@[self.pos + j] == digest@[j as int] {
                    assert(a =~= self.data@.subrange(self.pos as int, self.pos + j).push(
                        self.data@[self.pos + j],
                    ));
                    assert(b =~= digest@.take(j as int).push(digest@[j as int]));
                    assert(same == (a == b));
                } else {
                    assert(a.len() == j + 1 && b.len() == j + 1);
                    if self.data@[self.pos + j] != digest@[j as int] {
                        assert(a[j as int] != b[j as int]);
                        assert(a != b);
                    } else {
                        let c = self.data@.subrange(self.pos as int, self.pos + j);
                        let d = digest@.take(j as int);
                        assert(c != d);
                        if a == b {
                            assert(c =~= a.take(j as int));
                            assert(d =~= b.take(j as int));
                            assert(false);
                        }
                    }
                    assert(same == (a == b));
                }
            }
            j = j + 1;
        }
        proof {
            assert(digest@.take(20) =~= digest@);
            assert(self.data@.take(p) == self.data@.take(self.pos as int));
        }
        self.pos = self.pos + 20;
        if same {
            Ok(())
        } else {
            Err(ChecksumError::BadChecksum)
        }
    }

    /// Appends bytes to the buffer, folding them into the digest.
    pub fn write(&mut self, bytes: &[u8]) -> (r: Result<(), ChecksumError>)
        requires
            old(self).wf(),
            old(self).pos() == old(self).data().len(),
        ensures
            final(self).wf(),
            r is Ok,
            final(self).data() == old(self).data() + bytes@,
            final(self).pos() == final(self).data().len(),
    {
        self.data.extend_from_slice(bytes);
        proof {
            assert(self.data@ =~= old(self).data() + bytes@);
        }
        self.pos = self.data.len();
        Ok(())
    }

    /// Hands back everything written followed by its twenty-byte digest.
    pub fn write_checksum(self) -> (r: Vec<u8>)
        ensures
            r@ == self.data() + sha1_of(self.data()),
    {
        let digest = sha1_digest(self.data.as_slice());
        let mut out = self.data;
        out.extend_from_slice(digest.as_slice());
        proof {
            assert(out@ =~= self.data() + sha1_of(self.data()));
        }
        out
    }
}

} // verus!
