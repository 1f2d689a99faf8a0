//! One staged path: truncated filesystem metadata, a mode, a content
//! identifier, a flags field and the path itself, serialized big-endian
//! into NUL-padded records whose length is always a multiple of eight.

use vstd::prelude::*;

use crate::database::ObjectId;
use crate::utils::is_ancestor;

verus! {

pub const MAX_PATH_SIZE: u16 = 0xfff;

pub const REGULAR_MODE: u32 = 0o100644;

pub const EXECUTABLE_MODE: u32 = 0o100755;

/// The filesystem metadata an entry is built from, as plain values; a
/// shell fills one in from a real stat call.
#[derive(Debug, Clone, Copy)]
pub struct FileStat {
    pub ctime: i64,
    pub ctime_nsec: i64,
    pub mtime: i64,
    pub mtime_nsec: i64,
    pub dev: u64,
    pub ino: u64,
    pub mode: u32,
    pub uid: u32,
    pub gid: u32,
    pub size: u64,
}

/// One staged path.
#[derive(Debug, Clone)]
pub struct Entry {
    pub ctime: u32,
    pub ctime_nsec: u32,
    pub mtime: u32,
    pub mtime_nsec: u32,
    pub dev: u32,
    pub ino: u32,
    pub mode: u32,
    pub uid: u32,
    pub gid: u32,
    pub size: u32,
    pub oid: ObjectId,
    pub flags: u16,
    pub path: Vec<u8>,
}

/// The mathematical image of an index entry.
pub ghost struct GIndexEntry {
    pub ctime: u32,
    pub ctime_nsec: u32,
    pub mtime: u32,
    pub mtime_nsec: u32,
    pub dev: u32,
    pub ino: u32,
    pub mode: u32,
    pub uid: u32,
    pub gid: u32,
    pub size: u32,
    pub oid: Seq<u8>,
    pub flags: u16,
    pub path: Seq<u8>,
}

impl View for Entry {
    type V = GIndexEntry;

    open spec fn view(&self) -> GIndexEntry {
        GIndexEntry {
            ctime: self.ctime,
            ctime_nsec: self.ctime_nsec,
            mtime: self.mtime,
            mtime_nsec: self.mtime_nsec,
            dev: self.dev,
            ino: self.ino,
            mode: self.mode,
            uid: self.uid,
            gid: self.gid,
            size: self.size,
            oid: self.oid@,
            flags: self.flags,
            path: self.path@,
        }
    }
}

/// The big-endian bytes of a 32-bit number.
pub open spec fn be32(n: u32) -> Seq<u8> {
    seq![(n >> 24) as u8, (n >> 16) as u8, (n >> 8) as u8, n as u8]
}

/// The big-endian bytes of a 16-bit number.
pub open spec fn be16(n: u16) -> Seq<u8> {
    seq![(n >> 8) as u8, n as u8]
}

/// The 32-bit number read big-endian from four bytes.
pub open spec fn be32_val(b0: u8, b1: u8, b2: u8, b3: u8) -> u32 {
    (((b0 as u32) << 24) | ((b1 as u32) << 16) | ((b2 as u32) << 8) | (b3 as u32)) as u32
}

/// The 16-bit number read big-endian from two bytes.
pub open spec fn be16_val(b0: u8, b1: u8) -> u16 {
    (((b0 as u16) << 8) | (b1 as u16)) as u16
}

pub proof fn lemma_be32_roundtrip(n: u32)
    ensures
        be32_val((n >> 24) as u8, (n >> 16) as u8, (n >> 8) as u8, n as u8) == n,
{
    assert(((((n >> 24) as u8) as u32) << 24) | ((((n >> 16) as u8) as u32) << 16) | ((((n
        >> 8) as u8) as u32) << 8) | ((n as u8) as u32) == n) by (bit_vector);
}

pub proof fn lemma_be16_roundtrip(n: u16)
    ensures
        be16_val((n >> 8) as u8, n as u8) == n,
{
    assert(((((n >> 8) as u8) as u16) << 8) | ((n as u8) as u16) == n) by (bit_vector);
}

/// Appends the big-endian bytes of `n`.
pub(crate) fn push_be32(n: u32, out: &mut Vec<u8>)
    ensures
        final(out)@ == old(out)@ + be32(n),
{
    proof {
        assert((n >> 24) < 256 && (n >> 16) < 0x1000000 && (n >> 8) < 0x1000000) by (bit_vector);
    }
    out.push(#[verifier::truncate] ((n >> 24) as u8));
    out.push(#[verifier::truncate] ((n >> 16) as u8));
    out.push(#[verifier::truncate] ((n >> 8) as u8));
    out.push(#[verifier::truncate] (n as u8));
    proof {
        assert(out@ =~= old(out)@ + be32(n));
    }
}

pub(crate) fn push_be16(n: u16, out: &mut Vec<u8>)
    ensures
        final(out)@ == old(out)@ + be16(n),
{
    out.push(#[verifier::truncate] ((n >> 8) as u8));
    out.push(#[verifier::truncate] (n as u8));
    proof {
        assert(out@ =~= old(out)@ + be16(n));
    }
}

/// Reads the big-endian 32-bit number at `off`.
pub(crate) fn read_be32(data: &[u8], off: usize) -> (r: u32)
    requires
        off + 4 <= data@.len(),
    ensures
        r == be32_val(data@[off as int], data@[off + 1], data@[off + 2], data@[off + 3]),
{
    ((data[off] as u32) << 24) | ((data[off + 1] as u32) << 16) | ((data[off + 2] as u32) << 8) | (
    data[off + 3] as u32)
}

pub(crate) fn read_be16(data: &[u8], off: usize) -> (r: u16)
    requires
        off + 2 <= data@.len(),
    ensures
        r == be16_val(data@[off as int], data@[off + 1]),
{
    ((data[off] as u16) << 8) | (data[off + 1] as u16)
}

/// The ten metadata numbers, identifier and flags of an entry: the fixed
/// 62-byte prefix of its record.
pub open spec fn entry_fixed(e: GIndexEntry) -> Seq<u8> {
    be32(e.ctime) + be32(e.ctime_nsec) + be32(e.mtime) + be32(e.mtime_nsec) + be32(e.dev) + be32(
        e.ino,
    ) + be32(e.mode) + be32(e.uid) + be32(e.gid) + be32(e.size) + e.oid + be16(e.flags)
}

/// A run of NUL bytes.
pub open spec fn zeros(n: int) -> Seq<u8> {
    Seq::new(n as nat, |i: int| 0u8)
}

/// The record length of an entry with an `l`-byte path: at least one NUL
/// terminator after the path, then NUL padding to a multiple of eight.
pub open spec fn entry_total(l: int) -> int {
    ((63 + l + 7) / 8) * 8
}

pub proof fn lemma_entry_total(l: int)
    requires
        l >= 0,
    ensures
        entry_total(l) >= 63 + l,
        entry_total(l) % 8 == 0,
        entry_total(l) - 8 < 63 + l,
        entry_total(l) >= 64,
{
}

/// The full serialized record of an entry.
pub open spec fn entry_bytes(e: GIndexEntry) -> Seq<u8> {
    entry_fixed(e) + e.path + zeros(entry_total(e.path.len() as int) - 62 - e.path.len())
}

/// A path the index can hold: non-empty, free of NUL bytes, and short
/// enough that its record length fits in memory.
pub open spec fn valid_entry_path(p: Seq<u8>) -> bool {
    &&& p.len() > 0
    &&& forall|i: int| 0 <= i < p.len() ==> p[i] != 0
}

impl Entry {
    /// Builds an entry from a path, a content identifier and filesystem
    /// metadata, truncating the 64-bit metadata numbers to 32 bits as the
    /// on-disk format requires.
    pub fn new(path: &[u8], oid: ObjectId, stat: FileStat) -> (r: Entry)
        ensures
            r@.ctime == stat.ctime as u32,
            r@.ctime_nsec == stat.ctime_nsec as u32,
            r@.mtime == stat.mtime as u32,
            r@.mtime_nsec == stat.mtime_nsec as u32,
            r@.dev == stat.dev as u32,
            r@.ino == stat.ino as u32,
            r@.mode == if stat.mode & 0o100 != 0 {
                EXECUTABLE_MODE
            } else {
                REGULAR_MODE
            },
            r@.uid == stat.uid,
            r@.gid == stat.gid,
            r@.size == stat.size as u32,
            r@.oid == oid@,
            r@.flags == if path@.len() <= 0xfff {
                path@.len() as u16
            } else {
                0xfffu16
            },
            r@.path == path@,
    {
        let mode = if crate::utils::is_executable(stat.mode) {
            EXECUTABLE_MODE
        } else {
            REGULAR_MODE
        };
        let flags: u16 = if path.len() <= 0xfff {
            #[verifier::truncate] (path.len() as u16)
        } else {
            0xfff
        };
        let mut p: Vec<u8> = Vec::new();
        p.extend_from_slice(path);
        proof {
            assert(p@ =~= path@);
        }
        Entry {
            ctime: #[verifier::truncate] (stat.ctime as u32),
            ctime_nsec: #[verifier::truncate] (stat.ctime_nsec as u32),
            mtime: #[verifier::truncate] (stat.mtime as u32),
            mtime_nsec: #[verifier::truncate] (stat.mtime_nsec as u32),
            dev: #[verifier::truncate] (stat.dev as u32),
            ino: #[verifier::truncate] (stat.ino as u32),
            mode,
            uid: stat.uid,
            gid: stat.gid,
            size: #[verifier::truncate] (stat.size as u32),
            oid,
            flags,
            path: p,
        }
    }

    /// The ancestor directories of this entry's path, nearest the root
    /// first.
    pub fn parent_directories(&self) -> (r: Vec<Vec<u8>>)
        ensures
            forall|i: int| 0 <= i < r@.len() ==> is_ancestor(#[trigger] r@[i]@, self@.path),
            forall|q: Seq<u8>|
                is_ancestor(q, self@.path) ==> exists|i: int| 0 <= i < r@.len() && r@[i]@ == q,
            forall|i: int, j: int| 0 <= i < j < r@.len() ==> r@[i]@.len() < r@[j]@.len(),
    {
        crate::utils::parent_directories(self.path.as_slice())
    }

    /// The serialized record of this entry.
    pub fn bytes(&self) -> (r: Vec<u8>)
        ensures
            r@ == entry_bytes(self@),
    {
        let mut out: Vec<u8> = Vec::new();
        push_be32(self.ctime, &mut out);
        push_be32(self.ctime_nsec, &mut out);
        push_be32(self.mtime, &mut out);
        push_be32(self.mtime_nsec, &mut out);
        push_be32(self.dev, &mut out);
        push_be32(self.ino, &mut out);
        push_be32(self.mode, &mut out);
        push_be32(self.uid, &mut out);
        push_be32(self.gid, &mut out);
        push_be32(self.size, &mut out);
        out.extend_from_slice(self.oid.bytes().as_slice());
        push_be16(self.flags, &mut out);
        proof {
            assert(out@ =~= entry_fixed(self@));
            assert(out@.len() == 62);
        }
        out.extend_from_slice(self.path.as_slice());
        out.push(0);
        proof {
            lemma_entry_total(self@.path.len() as int);
            assert(out@ =~= entry_fixed(self@) + self@.path + zeros(1));
        }
        let ghost l = self@.path.len() as int;
        while out.len() % 8 != 0
            invariant
                l == self@.path.len() as int,
                out@.len() >= 63 + l,
                out@.len() <= entry_total(l),
                out@ == entry_fixed(self@) + self@.path + zeros(out@.len() - 62 - l),
            decreases entry_total(l) - out@.len(),
        {
            proof {
                lemma_entry_total(l);
                assert(out@.len() < entry_total(l));
            }
            out.push(0);
            proof {
                assert(out@ =~= entry_fixed(self@) + self@.path + zeros(out@.len() - 62 - l));
            }
        }
        proof {
            lemma_entry_total(l);
            assert(out@.len() == entry_total(l));
        }
        out
    }

    /// The entry's path.
    pub fn path(&self) -> (r: &Vec<u8>)
        ensures
            r@ == self@.path,
    {
        &self.path
    }

    /// The entry's file mode.
    pub fn mode(&self) -> (r: u32)
        ensures
            r == self@.mode,
    {
        self.mode
    }

    /// The entry's content identifier.
    pub fn oid(&self) -> (r: &ObjectId)
        ensures
            r@ == self@.oid,
    {
        &self.oid
    }
}

/// Position of the first NUL byte of `b` at or after `off`, or the end.
pub open spec fn nul_end(b: Seq<u8>, off: int) -> int
    decreases b.len() - off,
{
    if off < 0 || off >= b.len() {
        b.len() as int
    } else if b[off] == 0 {
        off
    } else {
        nul_end(b, off + 1)
    }
}

pub proof fn lemma_nul_end(b: Seq<u8>, off: int)
    requires
        0 <= off <= b.len(),
    ensures
        off <= nul_end(b, off) <= b.len(),
        forall|j: int| off <= j < nul_end(b, off) ==> b[j] != 0,
        nul_end(b, off) < b.len() ==> b[nul_end(b, off)] == 0,
    decreases b.len() - off,
{
    if off < b.len() && b[off] != 0 {
        lemma_nul_end(b, off + 1);
    }
}

/// The entry described by one full record.
pub open spec fn parse_entry(data: Seq<u8>) -> GIndexEntry {
    GIndexEntry {
        ctime: be32_val(data[0], data[1], data[2], data[3]),
        ctime_nsec: be32_val(data[4], data[5], data[6], data[7]),
        mtime: be32_val(data[8], data[9], data[10], data[11]),
        mtime_nsec: be32_val(data[12], data[13], data[14], data[15]),
        dev: be32_val(data[16], data[17], data[18], data[19]),
        ino: be32_val(data[20], data[21], data[22], data[23]),
        mode: be32_val(data[24], data[25], data[26], data[27]),
        uid: be32_val(data[28], data[29], data[30], data[31]),
        gid: be32_val(data[32], data[33], data[34], data[35]),
        size: be32_val(data[36], data[37], data[38], data[39]),
        oid: data.subrange(40, 60),
        flags: be16_val(data[60], data[61]),
        path: data.subrange(62, nul_end(data, 62)),
    }
}

/// Parses one full record back into an entry.
pub fn parse(data: Vec<u8>) -> (r: Result<Entry, crate::index::IndexError>)
    requires
        data@.len() >= 64,
    ensures
        r matches Ok(e) && e@ == parse_entry(data@),
{
    let ctime = read_be32(data.as_slice(), 0);
    let ctime_nsec = read_be32(data.as_slice(), 4);
    let mtime = read_be32(data.as_slice(), 8);
    let mtime_nsec = read_be32(data.as_slice(), 12);
    let dev = read_be32(data.as_slice(), 16);
    let ino = read_be32(data.as_slice(), 20);
    let mode = read_be32(data.as_slice(), 24);
    let uid = read_be32(data.as_slice(), 28);
    let gid = read_be32(data.as_slice(), 32);
    let size = read_be32(data.as_slice(), 36);
    let mut oid_bytes: Vec<u8> = Vec::new();
    let mut i: usize = 40;
    while i < 60
        invariant
            40 <= i <= 60,
            data@.len() >= 64,
            oid_bytes@ == data@.subrange(40, i as int),
        decreases 60 - i,
    {
        oid_bytes.push(data[i]);
        proof {
            assert(oid_bytes@ =~= data@.subrange(40, i + 1));
        }
        i = i + 1;
    }
    let oid = crate::database::oid_from_slice(oid_bytes.as_slice());
    let flags = read_be16(data.as_slice(), 60);
    let mut path: Vec<u8> = Vec::new();
    let mut j: usize = 62;
    proof {
        lemma_nul_end(data@, 62);
    }
    while j < data.len() && data[j] != 0
        invariant
            62 <= j <= data@.len(),
            path@ == data@.subrange(62, j as int),
            forall|k: int| 62 <= k < j ==> data@[k] != 0,
        decreases data@.len() - j,
    {
        path.push(data[j]);
        proof {
            assert(path@ =~= data@.subrange(62, j + 1));
        }
        j = j + 1;
    }
    proof {
        crate::index::entry::lemma_nul_end_at(data@, 62, j as int);
    }
    Ok(Entry {
        ctime,
        ctime_nsec,
        mtime,
        mtime_nsec,
        dev,
        ino,
        mode,
        uid,
        gid,
        size,
        oid,
        flags,
        path,
    })
}

/// The fixed prefix lays its pieces out back to back.
pub proof fn lemma_fixed_layout(e: GIndexEntry)
    requires
        e.oid.len() == 20,
    ensures
        entry_fixed(e).len() == 62,
        entry_fixed(e).subrange(0, 4) == be32(e.ctime),
        entry_fixed(e).subrange(4, 8) == be32(e.ctime_nsec),
        entry_fixed(e).subrange(8, 12) == be32(e.mtime),
        entry_fixed(e).subrange(12, 16) == be32(e.mtime_nsec),
        entry_fixed(e).subrange(16, 20) == be32(e.dev),
        entry_fixed(e).subrange(20, 24) == be32(e.ino),
        entry_fixed(e).subrange(24, 28) == be32(e.mode),
        entry_fixed(e).subrange(28, 32) == be32(e.uid),
        entry_fixed(e).subrange(32, 36) == be32(e.gid),
        entry_fixed(e).subrange(36, 40) == be32(e.size),
        entry_fixed(e).subrange(40, 60) == e.oid,
        entry_fixed(e).subrange(60, 62) == be16(e.flags),
{
    let f = entry_fixed(e);
    assert(f.len() == 62);
    assert(f.subrange(0, 4) =~= be32(e.ctime));
    assert(f.subrange(4, 8) =~= be32(e.ctime_nsec));
    assert(f.subrange(8, 12) =~= be32(e.mtime));
    assert(f.subrange(12, 16) =~= be32(e.mtime_nsec));
    assert(f.subrange(16, 20) =~= be32(e.dev));
    assert(f.subrange(20, 24) =~= be32(e.ino));
    assert(f.subrange(24, 28) =~= be32(e.mode));
    assert(f.subrange(28, 32) =~= be32(e.uid));
    assert(f.subrange(32, 36) =~= be32(e.gid));
    assert(f.subrange(36, 40) =~= be32(e.size));
    assert(f.subrange(40, 60) =~= e.oid);
    assert(f.subrange(60, 62) =~= be16(e.flags));
}

/// A record serializes and parses back to the entry it came from, its
/// non-path tail is NUL, and its path bytes are the path.
pub proof fn lemma_entry_record(e: GIndexEntry)
    requires
        valid_entry_path(e.path),
        e.oid.len() == 20,
    ensures
        entry_bytes(e).len() == entry_total(e.path.len() as int),
        parse_entry(entry_bytes(e)) == e,
        forall|j: int|
            62 <= j < 62 + e.path.len() ==> #[trigger] entry_bytes(e)[j] == e.path[j - 62]
                && entry_bytes(e)[j] != 0,
        forall|j: int|
            62 + e.path.len() <= j < entry_bytes(e).len() ==> #[trigger] entry_bytes(e)[j] == 0,
{
    let l = e.path.len() as int;
    let tt = entry_total(l);
    lemma_entry_total(l);
    lemma_fixed_layout(e);
    let data = entry_bytes(e);
    assert(data.len() == tt);
    assert forall|j: int| 62 <= j < 62 + l implies #[trigger] data[j] == e.path[j - 62] && data[j]
        != 0 by {
        assert(data[j] == e.path[j - 62]);
    }
    assert forall|j: int| 62 + l <= j < tt implies #[trigger] data[j] == 0 by {
        assert(data[j] == zeros(tt - 62 - l)[j - 62 - l]);
    }
    assert(data.subrange(0, 4) =~= entry_fixed(e).subrange(0, 4));
    assert(data.subrange(4, 8) =~= entry_fixed(e).subrange(4, 8));
    assert(data.subrange(8, 12) =~= entry_fixed(e).subrange(8, 12));
    assert(data.subrange(12, 16) =~= entry_fixed(e).subrange(12, 16));
    assert(data.subrange(16, 20) =~= entry_fixed(e).subrange(16, 20));
    assert(data.subrange(20, 24) =~= entry_fixed(e).subrange(20, 24));
    assert(data.subrange(24, 28) =~= entry_fixed(e).subrange(24, 28));
    assert(data.subrange(28, 32) =~= entry_fixed(e).subrange(28, 32));
    assert(data.subrange(32, 36) =~= entry_fixed(e).subrange(32, 36));
    assert(data.subrange(36, 40) =~= entry_fixed(e).subrange(36, 40));
    assert(data.subrange(40, 60) =~= entry_fixed(e).subrange(40, 60));
    assert(data.subrange(60, 62) =~= entry_fixed(e).subrange(60, 62));
    lemma_be32_roundtrip(e.ctime);
    lemma_be32_roundtrip(e.ctime_nsec);
    lemma_be32_roundtrip(e.mtime);
    lemma_be32_roundtrip(e.mtime_nsec);
    lemma_be32_roundtrip(e.dev);
    lemma_be32_roundtrip(e.ino);
    lemma_be32_roundtrip(e.mode);
    lemma_be32_roundtrip(e.uid);
    lemma_be32_roundtrip(e.gid);
    lemma_be32_roundtrip(e.size);
    lemma_be16_roundtrip(e.flags);
    let p = parse_entry(data);
    assert(p.ctime == e.ctime) by {
        assert(data[0] == be32(e.ctime)[0] && data[1] == be32(e.ctime)[1] && data[2] == be32(
            e.ctime,
        )[2] && data[3] == be32(e.ctime)[3]);
    }
    assert(p.ctime_nsec == e.ctime_nsec) by {
        assert(data[4] == be32(e.ctime_nsec)[0] && data[5] == be32(e.ctime_nsec)[1] && data[6]
            == be32(e.ctime_nsec)[2] && data[7] == be32(e.ctime_nsec)[3]);
    }
    assert(p.mtime == e.mtime) by {
        assert(data[8] == be32(e.mtime)[0] && data[9] == be32(e.mtime)[1] && data[10] == be32(
            e.mtime,
        )[2] && data[11] == be32(e.mtime)[3]);
    }
    assert(p.mtime_nsec == e.mtime_nsec) by {
        assert(data[12] == be32(e.mtime_nsec)[0] && data[13] == be32(e.mtime_nsec)[1] && data[14]
            == be32(e.mtime_nsec)[2] && data[15] == be32(e.mtime_nsec)[3]);
    }
    assert(p.dev == e.dev) by {
        assert(data[16] == be32(e.dev)[0] && data[17] == be32(e.dev)[1] && data[18] == be32(
            e.dev,
        )[2] && data[19] == be32(e.dev)[3]);
    }
    assert(p.ino == e.ino) by {
        assert(data[20] == be32(e.ino)[0] && data[21] == be32(e.ino)[1] && data[22] == be32(
            e.ino,
        )[2] && data[23] == be32(e.ino)[3]);
    }
    assert(p.mode == e.mode) by {
        assert(data[24] == be32(e.mode)[0] && data[25] == be32(e.mode)[1] && data[26] == be32(
            e.mode,
        )[2] && data[27] == be32(e.mode)[3]);
    }
    assert(p.uid == e.uid) by {
        assert(data[28] == be32(e.uid)[0] && data[29] == be32(e.uid)[1] && data[30] == be32(
            e.uid,
        )[2] && data[31] == be32(e.uid)[3]);
    }
    assert(p.gid == e.gid) by {
        assert(data[32] == be32(e.gid)[0] && data[33] == be32(e.gid)[1] && data[34] == be32(
            e.gid,
        )[2] && data[35] == be32(e.gid)[3]);
    }
    assert(p.size == e.size) by {
        assert(data[36] == be32(e.size)[0] && data[37] == be32(e.size)[1] && data[38] == be32(
            e.size,
        )[2] && data[39] == be32(e.size)[3]);
    }
    assert(p.oid == e.oid) by {
        assert(data.subrange(40, 60) == e.oid);
    }
    assert(p.flags == e.flags) by {
        assert(data[60] == be16(e.flags)[0] && data[61] == be16(e.flags)[1]);
    }
    assert(p.path == e.path) by {
        lemma_nul_end_at(data, 62, 62 + l);
        assert(data.subrange(62, 62 + l) =~= e.path);
    }
}

/// A position after which scanning stopped, either at a NUL or at the
/// end, is where the path ends.
pub proof fn lemma_nul_end_at(b: Seq<u8>, off: int, j: int)
    requires
        0 <= off <= j <= b.len(),
        forall|k: int| off <= k < j ==> b[k] != 0,
        j < b.len() ==> b[j] == 0,
    ensures
        nul_end(b, off) == j,
    decreases j - off,
{
    if off < j {
        lemma_nul_end_at(b, off + 1, j);
    }
}

} // verus!
