//! Content-addressable object storage: canonical encoding, SHA-1 content
//! identifiers, zlib compression, sharded object paths and write-once
//! dedup.

use vstd::prelude::*;

use crate::utils::{hex_of, lemma_hex_of_digits, lemma_hex_of_len, lemma_last_slash_at, parent_of,
    slash};
use crate::vfs::{dir_closure, MemFs};

pub mod blob;
pub mod tree;

verus! {

/// One byte of the SHA-1 digest of a byte sequence: it depends on the
/// input alone.
pub uninterp spec fn sha1_byte(data: Seq<u8>, i: int) -> u8;

/// The SHA-1 digest of a byte sequence: twenty bytes that depend on the
/// input alone.
#[verifier::opaque]
pub open spec fn sha1_of(data: Seq<u8>) -> Seq<u8> {
    Seq::new(20, |i: int| sha1_byte(data, i))
}

/// Relies on sha1::Sha1::digest: the twenty-byte SHA-1 digest of the
/// input, a function of the input bytes alone.
#[verifier::external_body]
pub(crate) fn sha1_digest(data: &[u8]) -> (r: Vec<u8>)
    ensures
        r@.len() == 20,
        forall|i: int| 0 <= i < 20 ==> r@[i] == sha1_byte(data@, i),
        r@ == sha1_of(data@),
{
    <sha1::Sha1 as sha1::Digest>::digest(data).to_vec()
}

/// The zlib (deflate) encoding of a byte sequence at the fixed fast
/// compression level: a function of the input bytes alone.
pub uninterp spec fn zlib_of(data: Seq<u8>) -> Seq<u8>;

/// Relies on flate2::write::ZlibEncoder at Compression::fast: with the
/// level fixed, the compressed bytes depend on the input alone, and with
/// a Vec as the sink neither writing nor finishing can fail, so the
/// encoder is total.
#[verifier::external_body]
fn zlib_compress(data: &[u8]) -> (r: Vec<u8>)
    ensures
        r@ == zlib_of(data@),
{
    let sink: Vec<u8> = Vec::new();
    let mut encoder = flate2::write::ZlibEncoder::new(sink, flate2::Compression::fast());
    std::io::Write::write_all(&mut encoder, data).expect("a Vec sink cannot fail");
    encoder.finish().expect("a Vec sink cannot fail")
}

/// An alphanumeric ASCII byte; in particular not a slash and not NUL.
pub open spec fn is_alnum_byte(b: u8) -> bool {
    (0x30 <= b <= 0x39) || (0x41 <= b <= 0x5a) || (0x61 <= b <= 0x7a)
}

/// Relies on rand's thread_rng with the Alphanumeric distribution: every
/// outcome is six bytes drawn from [0-9A-Za-z].
#[verifier::external_body]
fn generate_temp_name() -> (r: Vec<u8>)
    ensures
        r@.len() == 6,
        forall|i: int| 0 <= i < r@.len() ==> is_alnum_byte(#[trigger] r@[i]),
{
    rand::Rng::sample_iter(rand::thread_rng(), &rand::distributions::Alphanumeric).take(
        6,
    ).collect()
}

#[derive(Debug)]
pub enum DatabaseError {
    /// The object's identifier could not be rendered as text; the
    /// store's own hex encoding cannot fail, so no operation here
    /// produces it.
    BadObjectId,
    /// The object path has no parent directory; sharded paths always
    /// have one, so no operation here produces it.
    NoParent(Vec<u8>),
    /// Writing the compressed object failed; the in-memory model and
    /// the Vec-backed encoder cannot fail, so no operation here
    /// produces it.
    CouldNotWrite,
}

/// A twenty-byte SHA-1 digest naming stored content.
#[derive(Debug, Clone, Copy, PartialEq, Eq)]
pub struct ObjectId {
    bytes: [u8; 20],
}

impl View for ObjectId {
    type V = Seq<u8>;

    closed spec fn view(&self) -> Seq<u8> {
        self.bytes@
    }
}

impl ObjectId {
    pub fn new(bytes: [u8; 20]) -> (r: ObjectId)
        ensures
            r@ == bytes@,
    {
        ObjectId { bytes }
    }

    /// The identifier as forty lowercase hexadecimal ASCII bytes.
    pub fn as_str(&self) -> (r: Vec<u8>)
        ensures
            r@ == hex_of(self@),
    {
        crate::utils::bytes_to_hex_string(self.bytes.as_slice())
    }

    /// The raw twenty digest bytes.
    pub fn bytes(&self) -> (r: &[u8; 20])
        ensures
            r@ == self@,
    {
        &self.bytes
    }
}

/// Builds an ObjectId from a twenty-byte digest held in a slice.
pub(crate) fn oid_from_slice(v: &[u8]) -> (r: ObjectId)
    requires
        v@.len() == 20,
    ensures
        r@ == v@,
{
    let mut bytes: [u8; 20] = [0; 20];
    let mut i: usize = 0;
    while i < 20
        invariant
            i <= 20,
            v@.len() == 20,
            bytes@.len() == 20,
            forall|k: int| 0 <= k < i ==> bytes@[k] == v@[k],
        decreases 20 - i,
    {
        bytes[i] = v[i];
        i = i + 1;
    }
    proof {
        assert(bytes@ =~= v@);
    }
    ObjectId::new(bytes)
}

/// The decimal ASCII digits of a number, most significant first.
pub open spec fn dec_of(n: nat) -> Seq<u8>
    decreases n,
{
    if n < 10 {
        seq![(0x30 + n) as u8]
    } else {
        dec_of(n / 10).push((0x30 + n % 10) as u8)
    }
}

/// Appends the decimal digits of `n` to `out`.
pub(crate) fn push_dec(n: usize, out: &mut Vec<u8>)
    ensures
        final(out)@ == old(out)@ + dec_of(n as nat),
    decreases n,
{
    if n < 10 {
        out.push(0x30 + (n as u8));
        proof {
            assert(out@ =~= old(out)@ + dec_of(n as nat));
        }
    } else {
        push_dec(n / 10, out);
        out.push(0x30 + ((n % 10) as u8));
        proof {
            assert(out@ =~= old(out)@ + dec_of(n as nat));
        }
    }
}

/// The canonical bytes that are hashed and stored for an object:
/// `<kind> <payload-length>\0<payload>`.
pub open spec fn object_content(kind: Seq<u8>, data: Seq<u8>) -> Seq<u8> {
    kind + seq![0x20u8] + dec_of(data.len() as nat) + seq![0u8] + data
}

/// The identifier that storing an object yields: the SHA-1 digest of its
/// canonical content.
pub open spec fn stored_oid(kind: Seq<u8>, data: Seq<u8>) -> Seq<u8> {
    sha1_of(object_content(kind, data))
}

/// Anything the store can persist: it can report a kind tag and produce
/// its canonical payload bytes.
pub trait Object {
    /// The kind tag, as bytes ("blob", "tree", "commit").
    spec fn kind_spec(&self) -> Seq<u8>;

    /// The canonical payload bytes.
    spec fn data_spec(&self) -> Seq<u8>;

    /// Whether the payload can be produced right now (a tree, for one,
    /// must have its children hashed first).
    spec fn data_ready(&self) -> bool;

    fn kind(&self) -> (r: Vec<u8>)
        ensures
            r@ == self.kind_spec(),
    ;

    fn data(&self) -> (r: Vec<u8>)
        requires
            self.data_ready(),
        ensures
            r@ == self.data_spec(),
    ;
}

/// The shard directory for an identifier: `<base>/<hex[0:2]>`.
pub open spec fn shard_dir_of(base: Seq<u8>, oid: Seq<u8>) -> Seq<u8> {
    base + seq![slash()] + hex_of(oid).take(2)
}

/// Where an object lives: `<base>/<hex[0:2]>/<hex[2:]>`.
pub open spec fn object_path_of(base: Seq<u8>, oid: Seq<u8>) -> Seq<u8> {
    shard_dir_of(base, oid) + seq![slash()] + hex_of(oid).skip(2)
}

/// What a successful store leaves behind when the object was absent: the
/// shard directory exists, the object file holds the compressed content,
/// and at most one six-character temporary file has gone.
pub open spec fn store_wrote(
    files0: Map<Seq<u8>, Seq<u8>>,
    files1: Map<Seq<u8>, Seq<u8>>,
    base: Seq<u8>,
    oid: Seq<u8>,
    content: Seq<u8>,
) -> bool {
    exists|tname: Seq<u8>|
        {
            &&& #[trigger] tname.len() == 6
            &&& files1 == files0.remove(
                shard_dir_of(base, oid) + seq![slash()] + tname,
            ).insert(object_path_of(base, oid), zlib_of(content))
        }
}

/// Idempotent store: two objects with the same canonical content always
/// hash to the same identifier, and once a store has written the object
/// its path is occupied, so a second store of the same content finds it
/// and, by the store contract, leaves the filesystem exactly as it was.
pub proof fn lemma_store_idempotent(
    files0: Map<Seq<u8>, Seq<u8>>,
    files1: Map<Seq<u8>, Seq<u8>>,
    base: Seq<u8>,
    kind: Seq<u8>,
    data: Seq<u8>,
)
    requires
        store_wrote(files0, files1, base, stored_oid(kind, data), object_content(kind, data)),
    ensures
        files1.contains_key(object_path_of(base, stored_oid(kind, data))),
        files1[object_path_of(base, stored_oid(kind, data))] == zlib_of(
            object_content(kind, data),
        ),
{
}

/// The object database under one `objects` directory.
pub struct Database {
    pathname: Vec<u8>,
}

impl Database {
    /// The directory all objects live under.
    pub closed spec fn pathname(&self) -> Seq<u8> {
        self.pathname@
    }

    pub fn new(pathname: &[u8]) -> (r: Database)
        ensures
            r.pathname() == pathname@,
    {
        let mut p: Vec<u8> = Vec::new();
        p.extend_from_slice(pathname);
        proof {
            assert(p@ =~= pathname@);
        }
        Database { pathname: p }
    }

    /// Stores an object: hashes its canonical content, then persists the
    /// compressed bytes under the sharded object path unless an object
    /// with that identifier is already there.  Always succeeds.
    pub fn store<O: Object>(&self, fs: &mut MemFs, object: &O) -> (r: Result<
        ObjectId,
        DatabaseError,
    >)
        requires
            old(fs).wf(),
            object.data_ready(),
        ensures
            final(fs).wf(),
            r matches Ok(oid) && {
                &&& oid@ == stored_oid(object.kind_spec(), object.data_spec())
                &&& oid@.len() == 20
                &&& if old(fs).files().contains_key(object_path_of(self.pathname(), oid@)) {
                    *final(fs) == *old(fs)
                } else {
                    &&& final(fs).dirs() == old(fs).dirs() + dir_closure(
                        shard_dir_of(self.pathname(), oid@),
                    )
                    &&& store_wrote(
                        old(fs).files(),
                        final(fs).files(),
                        self.pathname(),
                        oid@,
                        object_content(object.kind_spec(), object.data_spec()),
                    )
                }
            },
    {
        let data = object.data();
        let kind = object.kind();
        self.store_raw(fs, kind.as_slice(), data.as_slice())
    }

    /// Stores content given directly as a kind tag and payload bytes —
    /// the same canonical encoding, hashing and persistence as `store`,
    /// for object kinds assembled outside the library.  Always succeeds.
    pub fn store_raw(&self, fs: &mut MemFs, kind: &[u8], data: &[u8]) -> (r: Result<
        ObjectId,
        DatabaseError,
    >)
        requires
            old(fs).wf(),
        ensures
            final(fs).wf(),
            r matches Ok(oid) && {
                &&& oid@ == stored_oid(kind@, data@)
                &&& oid@.len() == 20
                &&& if old(fs).files().contains_key(object_path_of(self.pathname(), oid@)) {
                    *final(fs) == *old(fs)
                } else {
                    &&& final(fs).dirs() == old(fs).dirs() + dir_closure(
                        shard_dir_of(self.pathname(), oid@),
                    )
                    &&& store_wrote(
                        old(fs).files(),
                        final(fs).files(),
                        self.pathname(),
                        oid@,
                        object_content(kind@, data@),
                    )
                }
            },
    {
        let mut content: Vec<u8> = Vec::new();
        content.extend_from_slice(kind);
        content.push(0x20);
        push_dec(data.len(), &mut content);
        content.push(0);
        content.extend_from_slice(data);
        proof {
            assert(content@ =~= object_content(kind@, data@));
        }
        let hash = sha1_digest(content.as_slice());
        let oid = oid_from_slice(hash.as_slice());
        match self.write_object(fs, &oid, content.as_slice()) {
            Ok(()) => Ok(oid),
            Err(_) => {
                proof {
                    assert(false);
                }
                vstd::pervasive::unreached()
            },
        }
    }

    /// Persists already-canonical content under its identifier's sharded
    /// path; an object that is already present is never rewritten.
    /// Always succeeds.
    fn write_object(&self, fs: &mut MemFs, oid: &ObjectId, content: &[u8]) -> (r: Result<
        (),
        DatabaseError,
    >)
        requires
            old(fs).wf(),
            oid@.len() == 20,
        ensures
            final(fs).wf(),
            r matches Ok(()) && if old(fs).files().contains_key(
                object_path_of(self.pathname(), oid@),
            ) {
                *final(fs) == *old(fs)
            } else {
                &&& final(fs).dirs() == old(fs).dirs() + dir_closure(
                    shard_dir_of(self.pathname(), oid@),
                )
                &&& store_wrote(
                    old(fs).files(),
                    final(fs).files(),
                    self.pathname(),
                    oid@,
                    content@,
                )
            },
    {
        let hex = oid.as_str();
        proof {
            lemma_hex_of_len(oid@);
            lemma_hex_of_digits(oid@);
        }
        let mut shard: Vec<u8> = self.pathname.clone();
        proof {
            assert(shard@ =~= self.pathname@);
        }
        shard.push(47);
        shard.push(hex[0]);
        shard.push(hex[1]);
        proof {
            assert(shard@ =~= shard_dir_of(self.pathname(), oid@));
        }
        let mut object_path: Vec<u8> = shard.clone();
        proof {
            assert(object_path@ =~= shard@);
        }
        object_path.push(47);
        let mut i: usize = 2;
        while i < hex.len()
            invariant
                2 <= i <= hex@.len(),
                hex@ == hex_of(oid@),
                hex@.len() == 40,
                object_path@ == shard_dir_of(self.pathname(), oid@) + seq![slash()]
                    + hex@.subrange(2, i as int),
            decreases hex@.len() - i,
        {
            object_path.push(hex[i]);
            proof {
                assert(object_path@ =~= shard_dir_of(self.pathname(), oid@) + seq![slash()]
                    + hex@.subrange(2, i + 1));
            }
            i = i + 1;
        }
        proof {
            assert(hex@.subrange(2, 40) =~= hex@.skip(2));
            assert(object_path@ =~= object_path_of(self.pathname(), oid@));
        }
        if fs.exists_file(object_path.as_slice()) {
            return Ok(());
        }
        let compressed = zlib_compress(content);
        let temp_name = generate_temp_name();
        let mut temp_path: Vec<u8> = shard.clone();
        proof {
            assert(temp_path@ =~= shard@);
        }
        temp_path.push(47);
        let mut j: usize = 0;
        while j < temp_name.len()
            invariant
                j <= temp_name@.len(),
                temp_name@.len() == 6,
                forall|k: int| 0 <= k < temp_name@.len() ==> is_alnum_byte(#[trigger] temp_name@[k]),
                temp_path@ == shard_dir_of(self.pathname(), oid@) + seq![slash()]
                    + temp_name@.take(j as int),
            decreases temp_name@.len() - j,
        {
            temp_path.push(temp_name[j]);
            proof {
                assert(temp_path@ =~= shard_dir_of(self.pathname(), oid@) + seq![slash()]
                    + temp_name@.take(j + 1));
            }
            j = j + 1;
        }
        proof {
            assert(temp_name@.take(6) =~= temp_name@);
        }
        fs.mkdir_p(shard.as_slice());
        proof {
            let sd = shard_dir_of(self.pathname(), oid@);
            assert(temp_path@[sd.len() as int] == slash());
            assert forall|k: int| sd.len() < k < temp_path@.len() implies temp_path@[k] != slash()
                by {
                assert(temp_path@[k] == temp_name@[k - sd.len() - 1]);
                assert(is_alnum_byte(temp_name@[k - sd.len() - 1]));
            }
            lemma_last_slash_at(temp_path@, sd.len() as int);
            assert(sd.take(sd.len() as int) =~= sd);
            assert(temp_path@.take(sd.len() as int) =~= sd);
            assert(parent_of(temp_path@) == sd);
            assert(fs.dirs().contains(sd));
        }
        fs.write_file(temp_path.as_slice(), compressed);
        proof {
            let sd = shard_dir_of(self.pathname(), oid@);
            assert(object_path@[sd.len() as int] == slash());
            assert forall|k: int| sd.len() < k < object_path@.len() implies object_path@[k]
                != slash() by {
                assert(object_path@[k] == hex_of(oid@).skip(2)[k - sd.len() - 1]);
                assert(hex_of(oid@).skip(2)[k - sd.len() - 1] == hex_of(oid@)[k - sd.len() + 1]);
            }
            lemma_last_slash_at(object_path@, sd.len() as int);
            assert(object_path@.take(sd.len() as int) =~= sd);
            assert(parent_of(object_path@) == sd);
        }
        fs.rename_file(temp_path.as_slice(), object_path.as_slice());
        proof {
            let sd = shard_dir_of(self.pathname(), oid@);
            let t = temp_name@;
            assert(fs.files() == old(fs).files().remove(sd + seq![slash()] + t).insert(
                object_path_of(self.pathname(), oid@),
                zlib_of(content@),
            ));
            assert(store_wrote(
                old(fs).files(),
                fs.files(),
                self.pathname(),
                oid@,
                content@,
            ));
        }
        Ok(())
    }
}

} // verus!
