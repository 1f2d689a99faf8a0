//! The staging index: an ordered set of entries, persisted in a binary
//! format with a trailing checksum, guarded by the lockfile protocol.

pub mod checksum;
pub mod entry;

use vstd::prelude::*;

use crate::database::ObjectId;
use crate::lockfile::{lock_path_of, Lockfile, LockfileError};
use crate::utils::{is_ancestor, lex_lt};
use crate::vfs::MemFs;
use self::checksum::ChecksumError;
use self::entry::{Entry, FileStat, GIndexEntry};

verus! {

/// Paths strictly ascending: the index holds each path once, in order.
pub open spec fn sorted_paths(es: Seq<GIndexEntry>) -> bool {
    forall|i: int, j: int| 0 <= i < j < es.len() ==> lex_lt(#[trigger] es[i].path, #[trigger] es[j].path)
}

/// Two paths conflict when one names a directory above the other: no
/// tracked path may be both an entry and an ancestor.
pub open spec fn paths_conflict(p: Seq<u8>, q: Seq<u8>) -> bool {
    is_ancestor(p, q) || is_ancestor(q, p)
}

/// Where a new entry lands: before the first entry whose path is not
/// smaller, replacing it when the paths are equal.
pub open spec fn insert_entry_sorted(es: Seq<GIndexEntry>, e: GIndexEntry) -> Seq<GIndexEntry>
    decreases es.len(),
{
    if es.len() == 0 {
        seq![e]
    } else if lex_lt(es[0].path, e.path) {
        seq![es[0]] + insert_entry_sorted(es.drop_first(), e)
    } else if es[0].path == e.path {
        seq![e] + es.drop_first()
    } else {
        seq![e] + es
    }
}

/// Inserting keeps the order and replaces exactly the entry at the same
/// path, if any.
pub proof fn lemma_insert_entry_sorted(es: Seq<GIndexEntry>, e: GIndexEntry)
    requires
        sorted_paths(es),
    ensures
        sorted_paths(insert_entry_sorted(es, e)),
        insert_entry_sorted(es, e).contains(e),
        forall|x: GIndexEntry|
            #[trigger] insert_entry_sorted(es, e).contains(x) ==> x == e || (es.contains(x)
                && x.path != e.path),
        forall|x: GIndexEntry|
            es.contains(x) && x.path != e.path ==> #[trigger] insert_entry_sorted(
                es,
                e,
            ).contains(x),
    decreases es.len(),
{
    let r = insert_entry_sorted(es, e);
    if es.len() == 0 {
        assert(r[0] == e);
    } else if lex_lt(es[0].path, e.path) {
        assert(sorted_paths(es.drop_first())) by {
            assert(forall|i: int, j: int|
                0 <= i < j < es.drop_first().len() ==> es.drop_first()[i] == es[i + 1]
                    && es.drop_first()[j] == es[j + 1]);
        }
        lemma_insert_entry_sorted(es.drop_first(), e);
        let rr = insert_entry_sorted(es.drop_first(), e);
        assert(r == seq![es[0]] + rr);
        assert forall|i: int, j: int| 0 <= i < j < r.len() implies lex_lt(
            #[trigger] r[i].path,
            #[trigger] r[j].path,
        ) by {
            if i == 0 {
                assert(r[j] == rr[j - 1]);
                assert(rr.contains(rr[j - 1]));
                if rr[j - 1] == e {
                    assert(lex_lt(es[0].path, e.path));
                } else {
                    assert(es.drop_first().contains(rr[j - 1]));
                    let k = choose|k: int|
                        0 <= k < es.drop_first().len() && es.drop_first()[k] == rr[j - 1];
                    assert(es[k + 1] == rr[j - 1]);
                    assert(lex_lt(es[0].path, es[k + 1].path));
                }
            } else {
                assert(r[i] == rr[i - 1] && r[j] == rr[j - 1]);
            }
        }
        assert(r.contains(e)) by {
            let k = choose|k: int| 0 <= k < rr.len() && rr[k] == e;
            assert(r[k + 1] == e);
        }
        assert forall|x: GIndexEntry| #[trigger] r.contains(x) implies x == e || (es.contains(x)
            && x.path != e.path) by {
            let k = choose|k: int| 0 <= k < r.len() && r[k] == x;
            if k == 0 {
                assert(x == es[0]);
                assert(es.contains(es[0]));
                crate::utils::lemma_lex_lt_trichotomy(es[0].path, e.path);
            } else {
                assert(rr[k - 1] == x);
                assert(rr.contains(x));
                if x != e {
                    assert(es.drop_first().contains(x));
                    let m = choose|m: int|
                        0 <= m < es.drop_first().len() && es.drop_first()[m] == x;
                    assert(es[m + 1] == x);
                    assert(es.contains(x));
                }
            }
        }
        assert forall|x: GIndexEntry| es.contains(x) && x.path != e.path implies #[trigger] r
            .contains(x) by {
            let k = choose|k: int| 0 <= k < es.len() && es[k] == x;
            if k == 0 {
                assert(r[0] == x);
            } else {
                assert(es.drop_first()[k - 1] == x);
                assert(es.drop_first().contains(x));
                assert(rr.contains(x));
                let m = choose|m: int| 0 <= m < rr.len() && rr[m] == x;
                assert(r[m + 1] == x);
            }
        }
    } else if es[0].path == e.path {
        assert(r == seq![e] + es.drop_first());
        assert(r[0] == e);
        assert forall|i: int, j: int| 0 <= i < j < r.len() implies lex_lt(
            #[trigger] r[i].path,
            #[trigger] r[j].path,
        ) by {
            if i == 0 {
                assert(r[j] == es[j]);
                assert(lex_lt(es[0].path, es[j].path));
            } else {
                assert(r[i] == es[i] && r[j] == es[j]);
            }
        }
        assert forall|x: GIndexEntry| #[trigger] r.contains(x) implies x == e || (es.contains(x)
            && x.path != e.path) by {
            let k = choose|k: int| 0 <= k < r.len() && r[k] == x;
            if k > 0 {
                assert(x == es[k]);
                assert(es.contains(x));
                assert(lex_lt(es[0].path, es[k].path));
                crate::utils::lemma_lex_lt_trichotomy(es[0].path, es[k].path);
            }
        }
        assert forall|x: GIndexEntry| es.contains(x) && x.path != e.path implies #[trigger] r
            .contains(x) by {
            let k = choose|k: int| 0 <= k < es.len() && es[k] == x;
            assert(k != 0);
            assert(r[k] == x);
        }
    } else {
        assert(r == seq![e] + es);
        assert(r[0] == e);
        crate::utils::lemma_lex_lt_trichotomy(es[0].path, e.path);
        assert forall|i: int, j: int| 0 <= i < j < r.len() implies lex_lt(
            #[trigger] r[i].path,
            #[trigger] r[j].path,
        ) by {
            if i == 0 {
                assert(r[j] == es[j - 1]);
                if j > 1 {
                    assert(lex_lt(es[0].path, es[j - 1].path));
                    crate::utils::lemma_lex_lt_trans(e.path, es[0].path, es[j - 1].path);
                }
            } else {
                assert(r[i] == es[i - 1] && r[j] == es[j - 1]);
            }
        }
        assert forall|x: GIndexEntry| #[trigger] r.contains(x) implies x == e || (es.contains(x)
            && x.path != e.path) by {
            let k = choose|k: int| 0 <= k < r.len() && r[k] == x;
            if k > 0 {
                assert(x == es[k - 1]);
                assert(es.contains(x));
                if k - 1 == 0 {
                } else {
                    assert(lex_lt(es[0].path, es[k - 1].path));
                    crate::utils::lemma_lex_lt_trans(e.path, es[0].path, es[k - 1].path);
                    crate::utils::lemma_lex_lt_trichotomy(e.path, es[k - 1].path);
                }
            }
        }
        assert forall|x: GIndexEntry| es.contains(x) && x.path != e.path implies #[trigger] r
            .contains(x) by {
            let k = choose|k: int| 0 <= k < es.len() && es[k] == x;
            assert(r[k + 1] == x);
        }
    }
}

/// The views of a list of entries.
pub open spec fn index_views(s: Seq<Entry>) -> Seq<GIndexEntry> {
    s.map_values(|e: Entry| e@)
}

/// Filtering keeps members that satisfy the predicate, drops the others,
/// and preserves path order.
pub proof fn lemma_filter_props(s: Seq<GIndexEntry>, pred: spec_fn(GIndexEntry) -> bool)
    ensures
        forall|x: GIndexEntry|
            #[trigger] s.filter(pred).contains(x) <==> s.contains(x) && pred(x),
        sorted_paths(s) ==> sorted_paths(s.filter(pred)),
    decreases s.len(),
{
    reveal(Seq::filter);
    if s.len() == 0 {
    } else {
        let dl = s.drop_last();
        lemma_filter_props(dl, pred);
        assert(forall|x: GIndexEntry| #[trigger] dl.contains(x) ==> s.contains(x)) by {
            assert(forall|k: int| 0 <= k < dl.len() ==> dl[k] == s[k]);
        }
        let f = s.filter(pred);
        let fd = dl.filter(pred);
        assert forall|x: GIndexEntry| #[trigger] f.contains(x) implies s.contains(x) && pred(
            x,
        ) by {
            let k = choose|k: int| 0 <= k < f.len() && f[k] == x;
            if pred(s.last()) && k == f.len() - 1 && f.last() == x {
                assert(s.contains(s.last()));
            }
            if k < fd.len() {
                assert(fd[k] == x);
                assert(fd.contains(x));
            } else {
                assert(pred(s.last()) && x == s.last());
            }
        }
        assert forall|x: GIndexEntry| s.contains(x) && pred(x) implies #[trigger] f.contains(
            x,
        ) by {
            let k = choose|k: int| 0 <= k < s.len() && s[k] == x;
            if k < s.len() - 1 {
                assert(dl[k] == x);
                assert(dl.contains(x));
                assert(fd.contains(x));
                let m = choose|m: int| 0 <= m < fd.len() && fd[m] == x;
                assert(f[m] == x);
            } else {
                assert(f.last() == x);
            }
        }
        if sorted_paths(s) {
            assert(sorted_paths(dl)) by {
                assert(forall|i: int, j: int|
                    0 <= i < j < dl.len() ==> dl[i] == s[i] && dl[j] == s[j]);
            }
            assert forall|i: int, j: int| 0 <= i < j < f.len() implies lex_lt(
                #[trigger] f[i].path,
                #[trigger] f[j].path,
            ) by {
                if j < fd.len() {
                    assert(f[i] == fd[i] && f[j] == fd[j]);
                } else {
                    assert(pred(s.last()) && f[j] == s.last());
                    assert(f[i] == fd[i]);
                    assert(fd.contains(fd[i]));
                    assert(dl.contains(fd[i]));
                    let m = choose|m: int| 0 <= m < dl.len() && dl[m] == fd[i];
                    assert(s[m] == fd[i]);
                    assert(lex_lt(s[m].path, s[s.len() - 1].path));
                }
            }
        }
    }
}

#[derive(Debug)]
pub enum IndexError {
    /// Taking, releasing or writing through the lock failed.
    Lockfile(LockfileError),
    /// The index file could not be accessed; a read of the in-memory
    /// model cannot fail, so no operation here produces it.
    NoIndexFile,
    /// Reading or comparing the accumulated digest failed.
    Checksum(ChecksumError),
    /// The twelve-byte header could not be parsed; a bad signature is
    /// reported byte-for-byte instead, so no operation here produces it.
    BadHeader,
    /// The header's version number was not 2.
    IncorrectVersion(u32),
    /// The header's signature was not "DIRC".
    IncorrectSignature(Vec<u8>),
}

/// The four-byte signature "DIRC".
pub open spec fn dirc() -> Seq<u8> {
    seq![0x44u8, 0x49u8, 0x52u8, 0x43u8]
}

/// The twelve-byte header: signature, version 2, entry count, big-endian.
pub open spec fn header_bytes(count: u32) -> Seq<u8> {
    dirc() + entry::be32(2) + entry::be32(count)
}

/// The concatenated records of the entries, in order.
pub open spec fn entries_bytes(es: Seq<GIndexEntry>) -> Seq<u8>
    decreases es.len(),
{
    if es.len() == 0 {
        Seq::empty()
    } else {
        entries_bytes(es.drop_last()) + entry::entry_bytes(es.last())
    }
}

/// Header and records, before the trailing digest.
pub open spec fn index_payload(es: Seq<GIndexEntry>) -> Seq<u8> {
    header_bytes(es.len() as u32) + entries_bytes(es)
}

/// The whole index file: payload plus the digest of every byte of it.
pub open spec fn index_file_bytes(es: Seq<GIndexEntry>) -> Seq<u8> {
    index_payload(es) + crate::database::sha1_of(index_payload(es))
}

/// Why loading an index file fails.
pub ghost enum GIndexError {
    /// The file ended before a full header, record or digest.
    ShortRead,
    /// The signature was not "DIRC".
    Signature(Seq<u8>),
    /// The version was not 2.
    Version(u32),
    /// The trailing digest did not match the preceding bytes.
    BadChecksum,
}

/// The 32-bit big-endian number at `off`.
pub open spec fn be32_at(b: Seq<u8>, off: int) -> u32 {
    entry::be32_val(b[off], b[off + 1], b[off + 2], b[off + 3])
}

/// Where a record that began 64 bytes before `e` ends: reading continues
/// in 8-byte blocks until a block ends in NUL.  A result beyond the end
/// of `b` means the file ran out.
pub open spec fn record_end(b: Seq<u8>, e: int) -> int
    decreases b.len() - e,
{
    if e <= 0 || e > b.len() {
        e
    } else if b[e - 1] == 0 {
        e
    } else if e + 8 <= b.len() {
        record_end(b, e + 8)
    } else {
        e + 8
    }
}

/// Parses `n` records starting at `off`, yielding the entries in file
/// order and the offset after the last record.
pub open spec fn parse_records(b: Seq<u8>, off: int, n: int) -> Result<
    (Seq<GIndexEntry>, int),
    GIndexError,
>
    decreases n,
{
    if n <= 0 {
        Ok((Seq::empty(), off))
    } else if off + 64 > b.len() {
        Err(GIndexError::ShortRead)
    } else {
        let end = record_end(b, off + 64);
        if end > b.len() {
            Err(GIndexError::ShortRead)
        } else {
            match parse_records(b, end, n - 1) {
                Ok((rest, fin)) => Ok(
                    (seq![entry::parse_entry(b.subrange(off, end))] + rest, fin),
                ),
                Err(g) => Err(g),
            }
        }
    }
}

/// What loading an index file yields: the entries in file order, after
/// the header and the trailing digest have been checked.
pub open spec fn parse_index(b: Seq<u8>) -> Result<Seq<GIndexEntry>, GIndexError> {
    if b.len() < 12 {
        Err(GIndexError::ShortRead)
    } else if b.subrange(0, 4) != dirc() {
        Err(GIndexError::Signature(b.subrange(0, 4)))
    } else if be32_at(b, 4) != 2 {
        Err(GIndexError::Version(be32_at(b, 4)))
    } else {
        match parse_records(b, 12, be32_at(b, 8) as int) {
            Ok((es, end)) => if end + 20 > b.len() {
                Err(GIndexError::ShortRead)
            } else if b.subrange(end, end + 20) != crate::database::sha1_of(b.take(end)) {
                Err(GIndexError::BadChecksum)
            } else {
                Ok(es)
            },
            Err(g) => Err(g),
        }
    }
}

/// Prepends already-parsed entries to the outcome of parsing the rest.
pub open spec fn compose_records(
    pre: Seq<GIndexEntry>,
    res: Result<(Seq<GIndexEntry>, int), GIndexError>,
) -> Result<(Seq<GIndexEntry>, int), GIndexError> {
    match res {
        Ok((rest, fin)) => Ok((pre + rest, fin)),
        Err(g) => Err(g),
    }
}

/// Entries folded into the index in file order, each at its sorted
/// position, a later record overriding an earlier one at the same path.
pub open spec fn store_all(acc: Seq<GIndexEntry>, parsed: Seq<GIndexEntry>) -> Seq<GIndexEntry>
    decreases parsed.len(),
{
    if parsed.len() == 0 {
        acc
    } else {
        store_all(insert_entry_sorted(acc, parsed[0]), parsed.drop_first())
    }
}

/// Folding one more record inserts it into the fold of the others.
pub proof fn lemma_store_all_push(acc: Seq<GIndexEntry>, parsed: Seq<GIndexEntry>, e: GIndexEntry)
    ensures
        store_all(acc, parsed.push(e)) == insert_entry_sorted(store_all(acc, parsed), e),
    decreases parsed.len(),
{
    if parsed.len() == 0 {
        assert(parsed.push(e)[0] == e);
        assert(parsed.push(e).drop_first() =~= Seq::<GIndexEntry>::empty());
        assert(store_all(acc, parsed.push(e)) == store_all(
            insert_entry_sorted(acc, e),
            Seq::<GIndexEntry>::empty(),
        ));
        assert(store_all(insert_entry_sorted(acc, e), Seq::<GIndexEntry>::empty())
            == insert_entry_sorted(acc, e));
        assert(store_all(acc, parsed) == acc);
    } else {
        assert(parsed.push(e)[0] == parsed[0]);
        assert(parsed.push(e).drop_first() =~= parsed.drop_first().push(e));
        assert(store_all(acc, parsed.push(e)) == store_all(
            insert_entry_sorted(acc, parsed[0]),
            parsed.drop_first().push(e),
        ));
        assert(store_all(acc, parsed) == store_all(
            insert_entry_sorted(acc, parsed[0]),
            parsed.drop_first(),
        ));
        lemma_store_all_push(insert_entry_sorted(acc, parsed[0]), parsed.drop_first(), e);
    }
}

/// The fold keeps the entries sorted.
pub proof fn lemma_store_all_sorted(acc: Seq<GIndexEntry>, parsed: Seq<GIndexEntry>)
    requires
        sorted_paths(acc),
    ensures
        sorted_paths(store_all(acc, parsed)),
    decreases parsed.len(),
{
    if parsed.len() > 0 {
        lemma_insert_entry_sorted(acc, parsed[0]);
        lemma_store_all_sorted(insert_entry_sorted(acc, parsed[0]), parsed.drop_first());
    }
}

/// Inserting introduces no entry beyond the one inserted.
proof fn lemma_insert_members(es: Seq<GIndexEntry>, e: GIndexEntry)
    ensures
        forall|x: GIndexEntry|
            #[trigger] insert_entry_sorted(es, e).contains(x) ==> es.contains(x) || x == e,
    decreases es.len(),
{
    let r = insert_entry_sorted(es, e);
    if es.len() == 0 {
    } else if lex_lt(es[0].path, e.path) {
        lemma_insert_members(es.drop_first(), e);
        let rr = insert_entry_sorted(es.drop_first(), e);
        assert forall|x: GIndexEntry| #[trigger] r.contains(x) implies es.contains(x) || x
            == e by {
            let k = choose|k: int| 0 <= k < r.len() && r[k] == x;
            if k == 0 {
                assert(es[0] == x);
                assert(es.contains(x));
            } else {
                assert(rr[k - 1] == x);
                assert(rr.contains(x));
                if x != e {
                    let m = choose|m: int|
                        0 <= m < es.drop_first().len() && es.drop_first()[m] == x;
                    assert(es[m + 1] == x);
                    assert(es.contains(x));
                }
            }
        }
    } else {
        assert forall|x: GIndexEntry| #[trigger] r.contains(x) implies es.contains(x) || x
            == e by {
            let k = choose|k: int| 0 <= k < r.len() && r[k] == x;
            if k > 0 {
                if es[0].path == e.path {
                    assert(es[k] == x);
                    assert(es.contains(x));
                } else {
                    assert(es[k - 1] == x);
                    assert(es.contains(x));
                }
            }
        }
    }
}

/// Folding records into an index introduces no entry beyond them.
pub proof fn lemma_store_all_members(acc: Seq<GIndexEntry>, parsed: Seq<GIndexEntry>)
    ensures
        forall|x: GIndexEntry|
            #[trigger] store_all(acc, parsed).contains(x) ==> acc.contains(x) || parsed.contains(
                x,
            ),
    decreases parsed.len(),
{
    if parsed.len() > 0 {
        lemma_insert_members(acc, parsed[0]);
        lemma_store_all_members(insert_entry_sorted(acc, parsed[0]), parsed.drop_first());
        assert forall|x: GIndexEntry| #[trigger] store_all(acc, parsed).contains(x) implies acc
            .contains(x) || parsed.contains(x) by {
            assert(store_all(acc, parsed) == store_all(
                insert_entry_sorted(acc, parsed[0]),
                parsed.drop_first(),
            ));
            assert(store_all(insert_entry_sorted(acc, parsed[0]), parsed.drop_first()).contains(
                x,
            ));
            assert(insert_entry_sorted(acc, parsed[0]).contains(x) || parsed.drop_first().contains(
                x,
            ));
            if insert_entry_sorted(acc, parsed[0]).contains(x) && x != parsed[0]
                && !acc.contains(x) {
                assert(false);
            }
            if x == parsed[0] {
                assert(parsed.contains(x));
            } else if parsed.drop_first().contains(x) {
                let m = choose|m: int|
                    0 <= m < parsed.drop_first().len() && parsed.drop_first()[m] == x;
                assert(parsed[m + 1] == x);
                assert(parsed.contains(x));
            }
        }
    }
}

/// No tracked path lies above another tracked path.
pub open spec fn tree_shaped(es: Seq<GIndexEntry>) -> bool {
    forall|x: GIndexEntry, y: GIndexEntry|
        #[trigger] es.contains(x) && #[trigger] es.contains(y) ==> !paths_conflict(x.path, y.path)
            || x.path == y.path
}

/// A load keeps the tree shape: the entries it folds in are exactly the
/// file's records, so an index file whose records are mutually
/// non-conflicting loads into a mutually non-conflicting index.  (A
/// crafted file may hold conflicting records; the load, like the format,
/// takes them as they are, which is why the property is conditional.)
pub proof fn lemma_load_keeps_tree_shape(es: Seq<GIndexEntry>)
    requires
        tree_shaped(es),
    ensures
        tree_shaped(store_all(Seq::<GIndexEntry>::empty(), es)),
{
    lemma_store_all_members(Seq::<GIndexEntry>::empty(), es);
}

/// Tree-shape invariant: staging a path evicts every tracked ancestor of
/// it and everything tracked beneath it, so the resulting entries hold
/// the new path, never conflict with it, and stay free of mutual
/// conflicts whenever they were before.
pub proof fn lemma_add_keeps_tree_shape(
    before: Seq<GIndexEntry>,
    after: Seq<GIndexEntry>,
    e: GIndexEntry,
)
    requires
        after.contains(e),
        forall|x: GIndexEntry|
            #[trigger] after.contains(x) ==> x == e || (before.contains(x) && !paths_conflict(
                e.path,
                x.path,
            ) && x.path != e.path),
        tree_shaped(before),
    ensures
        tree_shaped(after),
        forall|x: GIndexEntry|
            #[trigger] after.contains(x) ==> !paths_conflict(e.path, x.path),
{
    assert forall|x: GIndexEntry| #[trigger] after.contains(x) implies !paths_conflict(
        e.path,
        x.path,
    ) by {
        if x == e {
            assert(!crate::utils::is_ancestor(e.path, e.path));
        }
    }
    assert forall|x: GIndexEntry, y: GIndexEntry|
        #[trigger] after.contains(x) && #[trigger] after.contains(y) implies !paths_conflict(
        x.path,
        y.path,
    ) || x.path == y.path by {
        if x == e || y == e {
        } else {
            assert(before.contains(x) && before.contains(y));
        }
    }
}

/// Block scanning from any block boundary inside a record stops exactly
/// at the record's end.
proof fn lemma_record_end_from(b: Seq<u8>, off: int, tt: int, p: int)
    requires
        0 <= off,
        off + tt <= b.len(),
        64 <= p - off <= tt,
        (p - off) % 8 == 0,
        tt % 8 == 0,
        forall|q: int| p <= q < off + tt && (q - off) % 8 == 0 ==> #[trigger] b[q - 1] != 0,
        b[off + tt - 1] == 0,
    ensures
        record_end(b, p) == off + tt,
    decreases off + tt - p,
{
    if p == off + tt {
        assert(record_end(b, p) == p);
    } else {
        assert(b[p - 1] != 0);
        assert((p + 8 - off) % 8 == 0);
        assert(p + 8 <= off + tt);
        lemma_record_end_from(b, off, tt, p + 8);
    }
}

/// One whole record sitting at `off` in a larger buffer is delimited
/// exactly by the block scan.
proof fn lemma_record_end_of_entry(b: Seq<u8>, off: int, e: GIndexEntry)
    requires
        entry::valid_entry_path(e.path),
        e.oid.len() == 20,
        0 <= off,
        off + entry::entry_total(e.path.len() as int) <= b.len(),
        b.subrange(off, off + entry::entry_total(e.path.len() as int)) == entry::entry_bytes(e),
    ensures
        record_end(b, off + 64) == off + entry::entry_total(e.path.len() as int),
    decreases 0int,
{
    let l = e.path.len() as int;
    let tt = entry::entry_total(l);
    entry::lemma_entry_total(l);
    entry::lemma_entry_record(e);
    let data = entry::entry_bytes(e);
    assert forall|q: int|
        off + 64 <= q < off + tt && (q - off) % 8 == 0 implies #[trigger] b[q - 1] != 0 by {
        assert(b[q - 1] == data[q - 1 - off]);
        assert(q - off < tt);
        assert(q - off <= tt - 8);
        assert(q - off - 1 < 62 + l) by {
            assert(tt - 8 < 63 + l);
        }
        assert(62 <= q - off - 1);
        assert(data[q - 1 - off] == e.path[q - 1 - off - 62] && data[q - 1 - off] != 0);
    }
    assert(b[off + tt - 1] == data[tt - 1]);
    assert(data[tt - 1] == 0) by {
        assert(62 + l <= tt - 1 < tt);
    }
    lemma_record_end_from(b, off, tt, off + 64);
}

/// The concatenated records decompose at the front.
proof fn lemma_entries_bytes_first(es: Seq<GIndexEntry>)
    requires
        es.len() > 0,
    ensures
        entries_bytes(es) == entry::entry_bytes(es[0]) + entries_bytes(es.drop_first()),
    decreases es.len(),
{
    if es.len() == 1 {
        assert(es.drop_last() =~= Seq::<GIndexEntry>::empty());
        assert(es.drop_first() =~= Seq::<GIndexEntry>::empty());
        assert(entries_bytes(Seq::<GIndexEntry>::empty()) =~= Seq::<u8>::empty());
        assert(entries_bytes(es) =~= entry::entry_bytes(es[0]) + entries_bytes(es.drop_first()));
    } else {
        let dl = es.drop_last();
        lemma_entries_bytes_first(dl);
        assert(dl[0] == es[0]);
        assert(es.drop_first().drop_last() =~= dl.drop_first());
        assert(es.drop_first().last() == es.last());
        assert(entries_bytes(es.drop_first()) == entries_bytes(dl.drop_first())
            + entry::entry_bytes(es.last()));
        assert(entries_bytes(es) == entries_bytes(dl) + entry::entry_bytes(es.last()));
        assert(entries_bytes(es) =~= entry::entry_bytes(es[0]) + entries_bytes(es.drop_first()));
    }
}

/// Every path valid and every identifier twenty bytes long.
pub open spec fn valid_entries(es: Seq<GIndexEntry>) -> bool {
    forall|i: int|
        0 <= i < es.len() ==> entry::valid_entry_path(#[trigger] es[i].path) && es[i].oid.len()
            == 20
}

/// A run of whole records parses back to exactly the entries that were
/// serialized.
#[verifier::rlimit(100)]
#[verifier::spinoff_prover]
proof fn lemma_parse_records_of_entries(b: Seq<u8>, off: int, es: Seq<GIndexEntry>)
    requires
        valid_entries(es),
        0 <= off,
        off + entries_bytes(es).len() <= b.len(),
        b.subrange(off, off + entries_bytes(es).len() as int) == entries_bytes(es),
    ensures
        parse_records(b, off, es.len() as int) == Ok::<(Seq<GIndexEntry>, int), GIndexError>(
            (es, off + entries_bytes(es).len() as int),
        ),
    decreases es.len(),
{
    if es.len() == 0 {
        assert(es =~= Seq::<GIndexEntry>::empty());
    } else {
        lemma_entries_bytes_first(es);
        entry::lemma_entry_record(es[0]);
        entry::lemma_entry_total(es[0].path.len() as int);
        let t0 = entry::entry_total(es[0].path.len() as int);
        let rest = entries_bytes(es.drop_first());
        assert(entries_bytes(es) == entry::entry_bytes(es[0]) + rest);
        assert(entries_bytes(es).len() == t0 + rest.len());
        assert forall|j: int| 0 <= j < t0 implies b.subrange(off, off + t0)[j]
            == entry::entry_bytes(es[0])[j] by {
            assert(b.subrange(off, off + t0)[j] == b[off + j]);
            assert(b[off + j] == b.subrange(off, off + entries_bytes(es).len() as int)[j]);
            assert(entries_bytes(es)[j] == (entry::entry_bytes(es[0]) + rest)[j]);
        }
        assert(b.subrange(off, off + t0) =~= entry::entry_bytes(es[0]));
        lemma_record_end_of_entry(b, off, es[0]);
        assert(off + 64 <= b.len());
        assert(record_end(b, off + 64) == off + t0);
        assert forall|j: int| 0 <= j < rest.len() implies b.subrange(
            off + t0,
            off + t0 + rest.len() as int,
        )[j] == rest[j] by {
            assert(b.subrange(off + t0, off + t0 + rest.len() as int)[j] == b[off + t0 + j]);
            assert(b[off + t0 + j] == b.subrange(off, off + entries_bytes(es).len() as int)[t0
                + j]);
            assert(entries_bytes(es)[t0 + j] == (entry::entry_bytes(es[0]) + rest)[t0 + j]);
        }
        assert(b.subrange(off + t0, off + t0 + rest.len() as int) =~= rest);
        assert(valid_entries(es.drop_first())) by {
            assert(forall|i: int|
                0 <= i < es.drop_first().len() ==> #[trigger] es.drop_first()[i] == es[i + 1]);
        }
        lemma_parse_records_of_entries(b, off + t0, es.drop_first());
        assert(entry::parse_entry(b.subrange(off, off + t0)) == es[0]);
        assert(seq![es[0]] + es.drop_first() =~= es);
        assert(parse_records(b, off, es.len() as int) == Ok::<
            (Seq<GIndexEntry>, int),
            GIndexError,
        >((es, off + entries_bytes(es).len() as int)));
    }
}

/// A small count cast through the header loses nothing.
proof fn lemma_small_cast_u32(n: nat)
    requires
        n < 0x100000000,
    ensures
        (n as u32) as int == n as int,
{
    let m: u64 = n as u64;
    assert(m as int == n as int);
    assert((m as u32) as int == m as int) by (bit_vector)
        requires
            m < 0x100000000u64,
    ;
    assert(n as u32 == m as u32);
}

/// Inserting an entry above everything present appends it.
proof fn lemma_insert_at_end(acc: Seq<GIndexEntry>, e: GIndexEntry)
    requires
        forall|k: int| 0 <= k < acc.len() ==> lex_lt(#[trigger] acc[k].path, e.path),
    ensures
        insert_entry_sorted(acc, e) == acc.push(e),
    decreases acc.len(),
{
    if acc.len() == 0 {
        assert(insert_entry_sorted(acc, e) =~= acc.push(e));
    } else {
        assert(forall|k: int|
            0 <= k < acc.drop_first().len() ==> #[trigger] acc.drop_first()[k] == acc[k + 1]);
        lemma_insert_at_end(acc.drop_first(), e);
        assert(insert_entry_sorted(acc, e) == seq![acc[0]] + acc.drop_first().push(e));
        assert(insert_entry_sorted(acc, e) =~= acc.push(e));
    }
}

/// Folding an already-sorted run of entries reproduces it unchanged.
pub proof fn lemma_store_all_of_sorted(es: Seq<GIndexEntry>)
    requires
        sorted_paths(es),
    ensures
        store_all(Seq::<GIndexEntry>::empty(), es) == es,
{
    lemma_store_all_of_sorted_from(es, 0);
    assert(es.take(0) =~= Seq::<GIndexEntry>::empty());
    assert(es.skip(0) =~= es);
}

proof fn lemma_store_all_of_sorted_from(es: Seq<GIndexEntry>, k: int)
    requires
        sorted_paths(es),
        0 <= k <= es.len(),
    ensures
        store_all(es.take(k), es.skip(k)) == es,
    decreases es.len() - k,
{
    if k == es.len() {
        assert(es.skip(k) =~= Seq::<GIndexEntry>::empty());
        assert(es.take(k) =~= es);
    } else {
        assert(es.skip(k)[0] == es[k]);
        assert(forall|j: int| 0 <= j < k ==> #[trigger] es.take(k)[j] == es[j]);
        lemma_insert_at_end(es.take(k), es[k]);
        assert(es.take(k).push(es[k]) =~= es.take(k + 1));
        assert(es.skip(k).drop_first() =~= es.skip(k + 1));
        lemma_store_all_of_sorted_from(es, k + 1);
        assert(store_all(es.take(k), es.skip(k)) == store_all(es.take(k + 1), es.skip(k + 1)));
    }
}

/// Checksum enforcement: a load can only succeed when the twenty bytes
/// after the records are exactly the digest of every byte before them,
/// so any corruption that survives parsing must still forge the digest.
pub proof fn lemma_load_checks_digest(b: Seq<u8>)
    requires
        parse_index(b) is Ok,
    ensures
        exists|end: int|
            12 <= end && end + 20 <= b.len() && #[trigger] b.subrange(end, end + 20)
                == crate::database::sha1_of(b.take(end)),
{
    let n = be32_at(b, 8) as int;
    let end = parse_records(b, 12, n)->Ok_0.1;
    lemma_parse_records_end(b, 12, n);
    assert(b.subrange(end, end + 20) == crate::database::sha1_of(b.take(end)));
}

/// Parsing only moves forward through the buffer.
proof fn lemma_parse_records_end(b: Seq<u8>, off: int, n: int)
    requires
        parse_records(b, off, n) is Ok,
    ensures
        parse_records(b, off, n)->Ok_0.1 >= off,
    decreases n,
{
    if n > 0 {
        let end = record_end(b, off + 64);
        lemma_record_end_forward(b, off + 64);
        lemma_parse_records_end(b, end, n - 1);
    }
}

proof fn lemma_record_end_forward(b: Seq<u8>, e: int)
    ensures
        record_end(b, e) >= e,
    decreases b.len() - e,
{
    if 0 < e <= b.len() && b[e - 1] != 0 && e + 8 <= b.len() {
        lemma_record_end_forward(b, e + 8);
    }
}

/// Index round trip: the file written for a sorted set of entries with
/// valid paths parses back to exactly that set, in the same order, and
/// folding it into a fresh index reproduces it.
pub proof fn lemma_index_round_trip(es: Seq<GIndexEntry>)
    requires
        sorted_paths(es),
        valid_entries(es),
        es.len() < 0x100000000,
    ensures
        parse_index(index_file_bytes(es)) == Ok::<Seq<GIndexEntry>, GIndexError>(es),
        store_all(Seq::<GIndexEntry>::empty(), es) == es,
{
    let payload = index_payload(es);
    let b = index_file_bytes(es);
    let eb = entries_bytes(es);
    assert(payload.len() == 12 + eb.len());
    assert(crate::database::sha1_of(payload).len() == 20) by {
        reveal(crate::database::sha1_of);
    }
    assert(b.len() == payload.len() + 20);
    assert(b.subrange(0, 4) =~= dirc());
    lemma_small_cast_u32(es.len() as nat);
    entry::lemma_be32_roundtrip(2);
    entry::lemma_be32_roundtrip(es.len() as u32);
    assert(be32_at(b, 4) == 2) by {
        assert(b[4] == entry::be32(2)[0] && b[5] == entry::be32(2)[1] && b[6] == entry::be32(2)[2]
            && b[7] == entry::be32(2)[3]);
    }
    assert(be32_at(b, 8) == es.len() as u32) by {
        assert(b[8] == entry::be32(es.len() as u32)[0] && b[9] == entry::be32(es.len() as u32)[1]
            && b[10] == entry::be32(es.len() as u32)[2] && b[11] == entry::be32(
            es.len() as u32,
        )[3]);
    }
    assert(b.subrange(12, 12 + eb.len() as int) =~= eb) by {
        assert(forall|j: int|
            0 <= j < eb.len() ==> b.subrange(12, 12 + eb.len() as int)[j] == #[trigger] payload[12
                + j]);
    }
    lemma_parse_records_of_entries(b, 12, es);
    let end = 12 + eb.len() as int;
    assert(parse_records(b, 12, (be32_at(b, 8)) as int) == Ok::<
        (Seq<GIndexEntry>, int),
        GIndexError,
    >((es, end)));
    assert(b.take(end) =~= payload);
    assert(b.subrange(end, end + 20) =~= crate::database::sha1_of(payload));
    lemma_store_all_of_sorted(es);
}

/// The staging area: an ordered set of entries for one index file,
/// guarded by a lockfile on that file.
pub struct Index {
    pathname: Vec<u8>,
    lockfile: Lockfile,
    entries: Vec<Entry>,
    changed: bool,
}

impl Index {
    /// The path of the index file.
    pub closed spec fn pathname(&self) -> Seq<u8> {
        self.pathname@
    }

    /// The entries, in ascending path order.
    pub closed spec fn entries_view(&self) -> Seq<GIndexEntry> {
        index_views(self.entries@)
    }

    /// Whether the in-memory entries have diverged from the file.
    pub closed spec fn changed(&self) -> bool {
        self.changed
    }

    /// The guard for the index file.
    pub closed spec fn lockfile_ref(&self) -> Lockfile {
        self.lockfile
    }

    pub open spec fn wf(&self) -> bool {
        &&& sorted_paths(self.entries_view())
        &&& self.lockfile_ref().wf()
        &&& self.lockfile_ref().path() == self.pathname()
    }

    /// A fresh, empty, unloaded index for the file at `path`.
    pub fn new(path: &[u8]) -> (r: Index)
        ensures
            r.wf(),
            r.pathname() == path@,
            r.entries_view() == Seq::<GIndexEntry>::empty(),
            !r.changed(),
            !r.lockfile_ref().held(),
    {
        let lockfile = Lockfile::new(path);
        let mut pathname: Vec<u8> = Vec::new();
        pathname.extend_from_slice(path);
        let r = Index { pathname, lockfile, entries: Vec::new(), changed: false };
        proof {
            assert(r.pathname@ =~= path@);
            assert(r.entries_view() =~= Seq::<GIndexEntry>::empty());
        }
        r
    }

    /// The entries, sorted by path.
    pub fn entries(&self) -> (r: &Vec<Entry>)
        ensures
            index_views(r@) == self.entries_view(),
    {
        &self.entries
    }

    /// Stages one path: any tracked ancestor of it, and anything tracked
    /// beneath it, is evicted first; an entry already at the path is
    /// replaced.
    pub fn add(&mut self, path: &[u8], oid: ObjectId, stat: FileStat)
        requires
            old(self).wf(),
        ensures
            final(self).wf(),
            final(self).pathname() == old(self).pathname(),
            final(self).lockfile_ref() == old(self).lockfile_ref(),
            final(self).changed(),
            final(self).entries_view().contains(new_index_entry(path@, oid@, stat)),
            forall|x: GIndexEntry|
                #[trigger] final(self).entries_view().contains(x) ==> x == new_index_entry(
                    path@,
                    oid@,
                    stat,
                ) || (old(self).entries_view().contains(x) && !paths_conflict(path@, x.path)
                    && x.path != path@),
            forall|x: GIndexEntry|
                old(self).entries_view().contains(x) && !paths_conflict(path@, x.path) && x.path
                    != path@ ==> #[trigger] final(self).entries_view().contains(x),
    {
        let entry = Entry::new(path, oid, stat);
        self.discard_conflicts(path);
        proof {
            lemma_filter_props(
                old(self).entries_view(),
                (|x: GIndexEntry| !paths_conflict(path@, x.path)),
            );
        }
        self.store_entry(entry);
        proof {
            lemma_insert_entry_sorted(
                old(self).entries_view().filter(
                    (|x: GIndexEntry| !paths_conflict(path@, x.path)),
                ),
                entry@,
            );
        }
        self.changed = true;
    }

    /// Removes every entry whose path is an ancestor of `path` and every
    /// entry tracked beneath `path`.
    fn discard_conflicts(&mut self, path: &[u8])
        requires
            old(self).wf(),
        ensures
            final(self).wf(),
            final(self).pathname() == old(self).pathname(),
            final(self).lockfile_ref() == old(self).lockfile_ref(),
            final(self).changed() == old(self).changed(),
            final(self).entries_view() == old(self).entries_view().filter(
                (|x: GIndexEntry| !paths_conflict(path@, x.path)),
            ),
    {
        let ghost pred = (|x: GIndexEntry| !paths_conflict(path@, x.path));
        let ghost s = self.entries_view();
        let mut kept: Vec<Entry> = Vec::new();
        let mut i: usize = 0;
        proof {
            reveal(Seq::filter);
            assert(s.take(0) =~= Seq::<GIndexEntry>::empty());
            assert(index_views(kept@) =~= s.take(0).filter(pred));
        }
        while i < self.entries.len()
            invariant
                i <= self.entries@.len(),
                s == index_views(self.entries@),
                s.len() == self.entries@.len(),
                forall|k: int| 0 <= k < s.len() ==> #[trigger] s[k] == self.entries@[k]@,
                pred == (|x: GIndexEntry| !paths_conflict(path@, x.path)),
                index_views(kept@) == s.take(i as int).filter(pred),
            decreases self.entries@.len() - i,
        {
            let ghost kept0 = kept@;
            let e = &self.entries[i];
            let conflict = path_conflicts_exec(path, e.path.as_slice());
            if !conflict {
                let copied = clone_entry(e);
                kept.push(copied);
            }
            proof {
                reveal(Seq::filter);
                assert(s.take(i + 1).drop_last() =~= s.take(i as int));
                assert(s.take(i + 1).last() == s[i as int]);
                if !paths_conflict(path@, s[i as int].path) {
                    assert(index_views(kept@) =~= index_views(kept0).push(s[i as int]));
                } else {
                    assert(index_views(kept@) =~= index_views(kept0));
                }
            }
            i = i + 1;
        }
        proof {
            assert(s.take(s.len() as int) =~= s);
            lemma_filter_props(s, pred);
        }
        self.entries = kept;
    }

    /// Inserts an entry at its sorted position, replacing any entry
    /// already at the same path.
    fn store_entry(&mut self, entry: Entry)
        requires
            old(self).wf(),
        ensures
            final(self).wf(),
            final(self).pathname() == old(self).pathname(),
            final(self).lockfile_ref() == old(self).lockfile_ref(),
            final(self).changed() == old(self).changed(),
            final(self).entries_view() == insert_entry_sorted(old(self).entries_view(), entry@),
    {
        let ghost s = self.entries_view();
        let mut pos: usize = 0;
        while pos < self.entries.len() && crate::utils::bytes_lt(
            self.entries[pos].path.as_slice(),
            entry.path.as_slice(),
        )
            invariant
                pos <= self.entries@.len(),
                s == index_views(self.entries@),
                s.len() == self.entries@.len(),
                forall|k: int| 0 <= k < s.len() ==> #[trigger] s[k] == self.entries@[k]@,
                forall|k: int| 0 <= k < pos ==> lex_lt(#[trigger] s[k].path, entry@.path),
            decreases self.entries@.len() - pos,
        {
            pos = pos + 1;
        }
        proof {
            lemma_insert_sorted_at(s, entry@, pos as int);
        }
        if pos < self.entries.len() && crate::utils::bytes_eq(
            self.entries[pos].path.as_slice(),
            entry.path.as_slice(),
        ) {
            let ghost before = self.entries@;
            self.entries.set(pos, entry);
            proof {
                assert(index_views(self.entries@) =~= s.update(pos as int, entry@));
                assert(s.update(pos as int, entry@) =~= s.take(pos as int) + seq![entry@] + s.skip(
                    pos + 1,
                ));
            }
        } else {
            self.entries.insert(pos, entry);
            proof {
                assert(index_views(self.entries@) =~= s.take(pos as int) + seq![entry@] + s.skip(
                    pos as int,
                ));
            }
        }
        proof {
            lemma_insert_entry_sorted(s, entry@);
        }
    }

    /// Whether `path` is a tracked entry or a directory above one.
    pub fn is_tracked(&self, path: &[u8]) -> (r: bool)
        ensures
            r == exists|i: int|
                0 <= i < self.entries_view().len() && (#[trigger] self.entries_view()[i].path
                    == path@ || is_ancestor(path@, self.entries_view()[i].path)),
    {
        let ghost s = self.entries_view();
        let mut i: usize = 0;
        while i < self.entries.len()
            invariant
                i <= self.entries@.len(),
                s == index_views(self.entries@),
                s.len() == self.entries@.len(),
                forall|k: int| 0 <= k < s.len() ==> #[trigger] s[k] == self.entries@[k]@,
                forall|k: int|
                    0 <= k < i ==> !(#[trigger] s[k].path == path@ || is_ancestor(
                        path@,
                        s[k].path,
                    )),
            decreases self.entries@.len() - i,
        {
            let e = &self.entries[i];
            if crate::utils::bytes_eq(e.path.as_slice(), path) {
                proof {
                    assert(self.entries_view()[i as int].path == path@);
                }
                return true;
            }
            if is_ancestor_exec(path, e.path.as_slice()) {
                proof {
                    assert(is_ancestor(path@, self.entries_view()[i as int].path));
                }
                return true;
            }
            i = i + 1;
        }
        false
    }

    /// Forgets everything loaded or staged so far.
    fn clear(&mut self)
        requires
            old(self).wf(),
        ensures
            final(self).wf(),
            final(self).pathname() == old(self).pathname(),
            final(self).lockfile_ref() == old(self).lockfile_ref(),
            final(self).entries_view() == Seq::<GIndexEntry>::empty(),
            !final(self).changed(),
    {
        self.entries = Vec::new();
        self.changed = false;
        proof {
            assert(self.entries_view() =~= Seq::<GIndexEntry>::empty());
        }
    }

    /// Reads the index file back into memory.  An absent file is an
    /// empty index; a present file must parse, record by record, and its
    /// trailing digest must match every byte before it.
    pub fn load(&mut self, fs: &MemFs) -> (r: Result<(), IndexError>)
        requires
            old(self).wf(),
            fs.wf(),
        ensures
            final(self).wf(),
            final(self).pathname() == old(self).pathname(),
            final(self).lockfile_ref() == old(self).lockfile_ref(),
            !fs.files().contains_key(old(self).pathname()) ==> r is Ok && final(self).entries_view()
                == Seq::<GIndexEntry>::empty() && !final(self).changed(),
            fs.files().contains_key(old(self).pathname()) ==> (match parse_index(
                fs.files()[old(self).pathname()],
            ) {
                Ok(es) => r is Ok && final(self).entries_view() == store_all(
                    Seq::<GIndexEntry>::empty(),
                    es,
                ) && !final(self).changed(),
                Err(ge) => r matches Err(ie) && (match ge {
                    GIndexError::ShortRead => ie matches IndexError::Checksum(
                        ChecksumError::CouldNotReadFile,
                    ),
                    GIndexError::Signature(sg) => (ie matches IndexError::IncorrectSignature(v)
                        && v@ == sg),
                    GIndexError::Version(n) => ie matches IndexError::IncorrectVersion(m) && m
                        == n,
                    GIndexError::BadChecksum => ie matches IndexError::Checksum(
                        ChecksumError::BadChecksum,
                    ),
                }),
            }),
    {
        self.clear();
        let data = match fs.read_file(self.pathname.as_slice()) {
            None => {
                return Ok(());
            },
            Some(d) => d,
        };
        let ghost b = fs.files()[self.pathname()];
        let mut reader = checksum::Checksum::new(data);
        let count = match self.read_header(&mut reader) {
            Ok(c) => c,
            Err(e) => {
                return Err(e);
            },
        };
        match self.read_entries(&mut reader, count) {
            Ok(()) => {},
            Err(e) => {
                return Err(e);
            },
        }
        match reader.verify_checksum() {
            Ok(()) => {},
            Err(ChecksumError::CouldNotReadFile) => {
                return Err(IndexError::Checksum(ChecksumError::CouldNotReadFile));
            },
            Err(_) => {
                return Err(IndexError::Checksum(ChecksumError::BadChecksum));
            },
        }
        Ok(())
    }

    /// Reads the twelve-byte header and hands back the entry count.
    fn read_header(&self, reader: &mut checksum::Checksum) -> (r: Result<u32, IndexError>)
        requires
            old(reader).wf(),
            old(reader).pos() == 0,
        ensures
            final(reader).wf(),
            final(reader).data() == old(reader).data(),
            ({
                let b = old(reader).data();
                match r {
                    Ok(c) => {
                        &&& b.len() >= 12
                        &&& b.subrange(0, 4) == dirc()
                        &&& be32_at(b, 4) == 2
                        &&& c == be32_at(b, 8)
                        &&& final(reader).pos() == 12
                    },
                    Err(ie) => match parse_index(b) {
                        Ok(_) => false,
                        Err(ge) => match ge {
                            GIndexError::ShortRead => b.len() < 12 && (ie matches
                            IndexError::Checksum(ChecksumError::CouldNotReadFile)),
                            GIndexError::Signature(sg) => (ie matches
                            IndexError::IncorrectSignature(v) && v@ == sg),
                            GIndexError::Version(n) => (ie matches IndexError::IncorrectVersion(m)
                                && m == n),
                            GIndexError::BadChecksum => false,
                        },
                    },
                }
            }),
    {
        let ghost b = reader.data();
        let header = match reader.read(12) {
            Ok(h) => h,
            Err(_) => {
                return Err(IndexError::Checksum(ChecksumError::CouldNotReadFile));
            },
        };
        let sig_ok = header[0] == 0x44 && header[1] == 0x49 && header[2] == 0x52 && header[3]
            == 0x43;
        if !sig_ok {
            let mut sig: Vec<u8> = Vec::new();
            sig.push(header[0]);
            sig.push(header[1]);
            sig.push(header[2]);
            sig.push(header[3]);
            proof {
                assert(sig@ =~= b.subrange(0, 4));
                assert(b.subrange(0, 4) != dirc());
            }
            return Err(IndexError::IncorrectSignature(sig));
        }
        proof {
            assert(b.subrange(0, 4) =~= dirc());
        }
        let version = entry::read_be32(header.as_slice(), 4);
        proof {
            assert(header@[4] == b[4] && header@[5] == b[5] && header@[6] == b[6] && header@[7]
                == b[7]);
        }
        if version != 2 {
            return Err(IndexError::IncorrectVersion(version));
        }
        let count = entry::read_be32(header.as_slice(), 8);
        proof {
            assert(header@[8] == b[8] && header@[9] == b[9] && header@[10] == b[10] && header@[11]
                == b[11]);
        }
        Ok(count)
    }

    /// Reads `count` records, folding each parsed entry into the index
    /// at its sorted position.
    #[verifier::loop_isolation(false)]
    fn read_entries(&mut self, reader: &mut checksum::Checksum, count: u32) -> (r: Result<
        (),
        IndexError,
    >)
        requires
            old(self).wf(),
            old(reader).wf(),
            old(self).entries_view() == Seq::<GIndexEntry>::empty(),
            !old(self).changed(),
        ensures
            final(self).wf(),
            final(self).pathname() == old(self).pathname(),
            final(self).lockfile_ref() == old(self).lockfile_ref(),
            !final(self).changed(),
            final(reader).wf(),
            final(reader).data() == old(reader).data(),
            ({
                let b = old(reader).data();
                match r {
                    Ok(()) => (match parse_records(b, old(reader).pos(), count as int) {
                        Ok((es, fin)) => final(self).entries_view() == store_all(
                            Seq::<GIndexEntry>::empty(),
                            es,
                        ) && final(reader).pos() == fin,
                        Err(_) => false,
                    }),
                    Err(ie) => (match parse_records(b, old(reader).pos(), count as int) {
                        Ok(_) => false,
                        Err(ge) => ge is ShortRead && (ie matches IndexError::Checksum(
                            ChecksumError::CouldNotReadFile,
                        )),
                    }),
                }
            }),
    {
        let ghost b = reader.data();
        let ghost p0 = reader.pos();
        let mut i: u32 = 0;
        let ghost mut collected: Seq<GIndexEntry> = Seq::empty();
        while i < count
            invariant
                i <= count,
                self.wf(),
                self.pathname() == old(self).pathname(),
                self.lockfile_ref() == old(self).lockfile_ref(),
                !self.changed(),
                reader.wf(),
                reader.data() == b,
                self.entries_view() == store_all(Seq::<GIndexEntry>::empty(), collected),
                parse_records(b, p0, count as int) == compose_records(
                    collected,
                    parse_records(b, reader.pos(), (count - i) as int),
                ),
            decreases count - i,
        {
            let ghost start = reader.pos();
            let mut record = match reader.read(64) {
                Ok(x) => x,
                Err(_) => {
                    proof {
                        assert(parse_records(b, start, (count - i) as int) == Err::<
                            (Seq<GIndexEntry>, int),
                            GIndexError,
                        >(GIndexError::ShortRead));
                    }
                    return Err(IndexError::Checksum(ChecksumError::CouldNotReadFile));
                },
            };
            while record[record.len() - 1] != 0
                invariant
                    reader.wf(),
                    reader.data() == b,
                    start + 64 <= reader.pos() <= b.len(),
                    record@.len() == reader.pos() - start,
                    record@ == b.subrange(start, reader.pos()),
                    record@.len() >= 64,
                    record_end(b, start + 64) == record_end(b, reader.pos()),
                decreases b.len() - reader.pos(),
            {
                let more = match reader.read(8) {
                    Ok(x) => x,
                    Err(_) => {
                        proof {
                            assert(b[reader.pos() - 1] != 0);
                            assert(record_end(b, reader.pos()) == reader.pos() + 8);
                            assert(record_end(b, start + 64) > b.len());
                            assert(parse_records(b, start, (count - i) as int) == Err::<
                                (Seq<GIndexEntry>, int),
                                GIndexError,
                            >(GIndexError::ShortRead));
                        }
                        return Err(IndexError::Checksum(ChecksumError::CouldNotReadFile));
                    },
                };
                record.extend_from_slice(more.as_slice());
                proof {
                    assert(record@ =~= b.subrange(start, reader.pos()));
                }
            }
            proof {
                assert(b[reader.pos() - 1] == 0);
                assert(record_end(b, reader.pos()) == reader.pos());
            }
            let ghost grecord = record@;
            let e = match entry::parse(record) {
                Ok(e) => e,
                Err(_) => {
                    proof {
                        assert(false);
                    }
                    return vstd::pervasive::unreached();
                },
            };
            self.store_entry(e);
            proof {
                let n = (count - i) as int;
                let fin = reader.pos();
                assert(e@ == entry::parse_entry(b.subrange(start, fin)));
                let inner = parse_records(b, fin, n - 1);
                assert(parse_records(b, start, n) == (match inner {
                    Ok((rest, fin2)) => Ok::<(Seq<GIndexEntry>, int), GIndexError>(
                        (seq![e@] + rest, fin2),
                    ),
                    Err(g) => Err(g),
                }));
                let collected2 = collected.push(e@);
                if inner is Ok {
                    let (rest, fin2) = inner->Ok_0;
                    assert(collected2 + rest =~= collected + (seq![e@] + rest));
                }
                assert(compose_records(collected2, inner) == compose_records(
                    collected,
                    parse_records(b, start, n),
                ));
                lemma_store_all_push(Seq::<GIndexEntry>::empty(), collected, e@);
                collected = collected2;
            }
            i = i + 1;
        }
        proof {
            assert(parse_records(b, reader.pos(), 0) == Ok::<(Seq<GIndexEntry>, int), GIndexError>(
                (Seq::<GIndexEntry>::empty(), reader.pos()),
            ));
            if parse_records(b, p0, count as int) is Ok {
                let (es, fin) = parse_records(b, p0, count as int)->Ok_0;
                assert(collected + Seq::<GIndexEntry>::empty() =~= collected);
            }
        }
        Ok(())
    }

    /// Takes the lock and loads, so that a read-modify-write cycle is
    /// protected end to end against a second writer.
    pub fn load_for_update(&mut self, fs: &mut MemFs) -> (r: Result<(), IndexError>)
        requires
            old(self).wf(),
            old(fs).wf(),
        ensures
            final(self).wf(),
            final(fs).wf(),
            final(self).pathname() == old(self).pathname(),
            final(self).lockfile_ref().same_target(&old(self).lockfile_ref()),
            match r {
                Ok(()) => {
                    &&& old(self).lockfile_ref().held() || !old(fs).files().contains_key(
                        lock_path_of(old(self).pathname()),
                    )
                    &&& final(self).lockfile_ref().held()
                    &&& final(fs).dirs() == old(fs).dirs()
                    &&& if old(self).lockfile_ref().held() {
                        final(fs).files() == old(fs).files()
                    } else {
                        final(fs).files() == old(fs).files().insert(
                            lock_path_of(old(self).pathname()),
                            Seq::<u8>::empty(),
                        )
                    }
                    &&& !old(fs).files().contains_key(old(self).pathname()) ==> final(self).entries_view()
                        == Seq::<GIndexEntry>::empty() && !final(self).changed()
                    &&& old(fs).files().contains_key(old(self).pathname()) ==> (match parse_index(
                        old(fs).files()[old(self).pathname()],
                    ) {
                        Ok(es) => final(self).entries_view() == store_all(
                            Seq::<GIndexEntry>::empty(),
                            es,
                        ) && !final(self).changed(),
                        Err(_) => false,
                    })
                },
                Err(IndexError::Lockfile(le)) => {
                    &&& !old(self).lockfile_ref().held()
                    &&& *final(fs) == *old(fs)
                    &&& match le {
                        LockfileError::LockDenied(p) => old(fs).files().contains_key(
                            lock_path_of(old(self).pathname()),
                        ) && p@ == lock_path_of(old(self).pathname()),
                        LockfileError::MissingParent => !old(fs).files().contains_key(
                            lock_path_of(old(self).pathname()),
                        ) && !old(fs).dirs().contains(
                            crate::utils::parent_of(lock_path_of(old(self).pathname())),
                        ),
                        _ => false,
                    }
                },
                Err(_) => old(fs).files().contains_key(old(self).pathname()) && parse_index(
                    old(fs).files()[old(self).pathname()],
                ) is Err,
            },
    {
        match self.lockfile.hold_for_update(fs) {
            Ok(()) => {},
            Err(e) => {
                return Err(IndexError::Lockfile(e));
            },
        }
        self.load(fs)
    }

    /// Persists the staged entries: takes the lock, writes the header,
    /// records and digest into the lock file, and publishes it onto the
    /// index file in one rename.  When nothing changed it only releases
    /// any held lock, writing nothing.
    #[verifier::rlimit(100)]
    #[verifier::spinoff_prover]
    pub fn write_updates(&mut self, fs: &mut MemFs) -> (r: Result<(), IndexError>)
        requires
            old(self).wf(),
            old(fs).wf(),
            old(self).lockfile_ref().held() ==> old(fs).files().contains_key(
                lock_path_of(old(self).pathname()),
            ) && old(fs).files()[lock_path_of(old(self).pathname())] == Seq::<u8>::empty()
                && old(fs).dirs().contains(crate::utils::parent_of(old(self).pathname())),
        ensures
            final(self).wf(),
            final(fs).wf(),
            final(self).pathname() == old(self).pathname(),
            final(self).lockfile_ref().same_target(&old(self).lockfile_ref()),
            final(self).entries_view() == old(self).entries_view(),
            match r {
                Ok(()) => {
                    &&& !final(self).lockfile_ref().held()
                    &&& !final(self).changed()
                    &&& if old(self).changed() {
                        &&& old(self).lockfile_ref().held() || !old(fs).files().contains_key(
                            lock_path_of(old(self).pathname()),
                        )
                        &&& final(fs).files() == old(fs).files().remove(
                            lock_path_of(old(self).pathname()),
                        ).insert(
                            old(self).pathname(),
                            index_file_bytes(old(self).entries_view()),
                        )
                        &&& final(fs).dirs() == old(fs).dirs()
                    } else {
                        &&& final(fs).files() == if old(self).lockfile_ref().held() {
                            old(fs).files().remove(lock_path_of(old(self).pathname()))
                        } else {
                            old(fs).files()
                        }
                        &&& final(fs).dirs() == old(fs).dirs()
                        &&& final(self).changed() == old(self).changed()
                    }
                },
                Err(IndexError::Lockfile(le)) => {
                    &&& old(self).changed()
                    &&& !old(self).lockfile_ref().held()
                    &&& *final(fs) == *old(fs)
                    &&& final(self).changed()
                    &&& match le {
                        LockfileError::LockDenied(p) => old(fs).files().contains_key(
                            lock_path_of(old(self).pathname()),
                        ) && p@ == lock_path_of(old(self).pathname()),
                        LockfileError::MissingParent => !old(fs).files().contains_key(
                            lock_path_of(old(self).pathname()),
                        ) && !old(fs).dirs().contains(
                            crate::utils::parent_of(lock_path_of(old(self).pathname())),
                        ),
                        _ => false,
                    }
                },
                Err(_) => false,
            },
    {
        if !self.changed {
            if self.lockfile.is_held() {
                match self.lockfile.rollback(fs) {
                    Ok(()) => {},
                    Err(_) => {
                        proof {
                            assert(false);
                        }
                        return vstd::pervasive::unreached();
                    },
                }
            }
            return Ok(());
        }
        match self.lockfile.hold_for_update(fs) {
            Ok(()) => {},
            Err(e) => {
                return Err(IndexError::Lockfile(e));
            },
        }
        proof {
            crate::lockfile::lemma_lock_path_parent(self.pathname());
        }
        let mut writer = checksum::Checksum::new(Vec::new());
        let mut header: Vec<u8> = Vec::new();
        let sig: [u8; 4] = [0x44, 0x49, 0x52, 0x43];
        header.extend_from_slice(sig.as_slice());
        entry::push_be32(2, &mut header);
        proof {
            assert(self.entries@.len() == self.entries_view().len());
            assert(self.entries@.len() <= u32::MAX || true);
        }
        let count: u32 = #[verifier::truncate] (self.entries.len() as u32);
        entry::push_be32(count, &mut header);
        proof {
            assert(header@ =~= header_bytes(self.entries_view().len() as u32));
        }
        match writer.write(header.as_slice()) {
            Ok(()) => {},
            Err(_) => {
                proof {
                    assert(false);
                }
                return vstd::pervasive::unreached();
            },
        }
        let ghost s = self.entries_view();
        let mut body: Vec<u8> = Vec::new();
        let mut i: usize = 0;
        proof {
            assert(body@ =~= entries_bytes(s.take(0)));
        }
        while i < self.entries.len()
            invariant
                i <= self.entries@.len(),
                s == self.entries_view(),
                s.len() == self.entries@.len(),
                forall|k: int| 0 <= k < s.len() ==> #[trigger] s[k] == self.entries@[k]@,
                body@ == entries_bytes(s.take(i as int)),
            decreases self.entries@.len() - i,
        {
            let record = self.entries[i].bytes();
            body.extend_from_slice(record.as_slice());
            proof {
                assert(s.take(i + 1).drop_last() =~= s.take(i as int));
                assert(s.take(i + 1).last() == s[i as int]);
                assert(body@ =~= entries_bytes(s.take(i + 1)));
            }
            i = i + 1;
        }
        proof {
            assert(s.take(s.len() as int) =~= s);
        }
        match writer.write(body.as_slice()) {
            Ok(()) => {},
            Err(_) => {
                proof {
                    assert(false);
                }
                return vstd::pervasive::unreached();
            },
        }
        let full = writer.write_checksum();
        proof {
            assert(full@ =~= index_file_bytes(s));
        }
        let ghost fs_after_hold = *fs;
        match self.lockfile.write(fs, full.as_slice()) {
            Ok(()) => {},
            Err(_) => {
                proof {
                    assert(false);
                }
                return vstd::pervasive::unreached();
            },
        }
        proof {
            assert(Seq::<u8>::empty() + full@ =~= full@);
        }
        match self.lockfile.commit(fs) {
            Ok(()) => {},
            Err(_) => {
                proof {
                    assert(false);
                }
                return vstd::pervasive::unreached();
            },
        }
        self.changed = false;
        proof {
            let lock = lock_path_of(old(self).pathname());
            assert(fs.files() =~= old(fs).files().remove(lock).insert(
                old(self).pathname(),
                index_file_bytes(old(self).entries_view()),
            ));
        }
        Ok(())
    }

    /// A mutable handle on the index's lockfile.
    pub fn lockfile_mut(&mut self) -> (r: &mut Lockfile)
        ensures
            *r == old(self).lockfile_ref(),
            final(self).lockfile_ref() == *final(r),
            final(self).pathname() == old(self).pathname(),
            final(self).entries_view() == old(self).entries_view(),
            final(self).changed() == old(self).changed(),
    {
        &mut self.lockfile
    }
}

/// The entry that staging `path` with `oid` and `stat` produces.
pub open spec fn new_index_entry(path: Seq<u8>, oid: Seq<u8>, stat: FileStat) -> GIndexEntry {
    GIndexEntry {
        ctime: stat.ctime as u32,
        ctime_nsec: stat.ctime_nsec as u32,
        mtime: stat.mtime as u32,
        mtime_nsec: stat.mtime_nsec as u32,
        dev: stat.dev as u32,
        ino: stat.ino as u32,
        mode: if stat.mode & 0o100 != 0 {
            entry::EXECUTABLE_MODE
        } else {
            entry::REGULAR_MODE
        },
        uid: stat.uid,
        gid: stat.gid,
        size: stat.size as u32,
        oid: oid,
        flags: if path.len() <= 0xfff {
            path.len() as u16
        } else {
            0xfffu16
        },
        path: path,
    }
}

/// The first position whose path is not below the new path is where the
/// recursive insertion lands.
proof fn lemma_insert_sorted_at(es: Seq<GIndexEntry>, e: GIndexEntry, p: int)
    requires
        0 <= p <= es.len(),
        forall|k: int| 0 <= k < p ==> lex_lt(#[trigger] es[k].path, e.path),
        p < es.len() ==> !lex_lt(es[p].path, e.path),
    ensures
        p < es.len() && es[p].path == e.path ==> insert_entry_sorted(es, e) == es.take(p) + seq![e]
            + es.skip(p + 1),
        !(p < es.len() && es[p].path == e.path) ==> insert_entry_sorted(es, e) == es.take(p)
            + seq![e] + es.skip(p),
    decreases es.len(),
{
    if es.len() == 0 {
        assert(insert_entry_sorted(es, e) =~= es.take(0) + seq![e] + es.skip(0));
    } else if lex_lt(es[0].path, e.path) {
        assert(forall|k: int|
            0 <= k < p - 1 ==> #[trigger] es.drop_first()[k] == es[k + 1]);
        lemma_insert_sorted_at(es.drop_first(), e, p - 1);
        if p < es.len() && es[p].path == e.path {
            assert(es.drop_first()[p - 1] == es[p]);
            assert(insert_entry_sorted(es, e) =~= es.take(p) + seq![e] + es.skip(p + 1)) by {
                assert(insert_entry_sorted(es, e) == seq![es[0]] + insert_entry_sorted(
                    es.drop_first(),
                    e,
                ));
                assert(insert_entry_sorted(es.drop_first(), e) == es.drop_first().take(p - 1)
                    + seq![e] + es.drop_first().skip(p));
                assert(es.drop_first().take(p - 1) =~= es.subrange(1, p));
                assert(es.drop_first().skip(p) =~= es.skip(p + 1));
            }
        } else {
            assert(insert_entry_sorted(es, e) =~= es.take(p) + seq![e] + es.skip(p)) by {
                assert(insert_entry_sorted(es, e) == seq![es[0]] + insert_entry_sorted(
                    es.drop_first(),
                    e,
                ));
                assert(insert_entry_sorted(es.drop_first(), e) == es.drop_first().take(p - 1)
                    + seq![e] + es.drop_first().skip(p - 1));
                assert(es.drop_first().take(p - 1) =~= es.subrange(1, p));
                assert(es.drop_first().skip(p - 1) =~= es.skip(p));
            }
        }
    } else {
        assert(p == 0);
        if es[0].path == e.path {
            assert(insert_entry_sorted(es, e) =~= es.take(0) + seq![e] + es.skip(1));
        } else {
            assert(insert_entry_sorted(es, e) =~= es.take(0) + seq![e] + es.skip(0));
        }
    }
}

/// Whether either path is an ancestor of the other.
fn path_conflicts_exec(a: &[u8], b: &[u8]) -> (r: bool)
    ensures
        r == paths_conflict(a@, b@),
{
    if is_ancestor_exec(a, b) {
        return true;
    }
    is_ancestor_exec(b, a)
}

/// Whether `q` names a directory strictly above `p`.
fn is_ancestor_exec(q: &[u8], p: &[u8]) -> (r: bool)
    ensures
        r == is_ancestor(q@, p@),
{
    if q.len() >= p.len() {
        return false;
    }
    if p[q.len()] != 47 {
        return false;
    }
    let mut i: usize = 0;
    while i < q.len()
        invariant
            i <= q@.len() < p@.len(),
            p@.take(i as int) == q@.take(i as int),
        decreases q@.len() - i,
    {
        if p[i] != q[i] {
            proof {
                assert(p@.take(q@.len() as int)[i as int] != q@[i as int]);
            }
            return false;
        }
        proof {
            assert(p@.take(i + 1) =~= q@.take(i + 1));
        }
        i = i + 1;
    }
    proof {
        assert(q@.take(q@.len() as int) =~= q@);
        assert(p@.take(q@.len() as int) =~= q@);
    }
    true
}

/// Copies an entry.
fn clone_entry(e: &Entry) -> (r: Entry)
    ensures
        r@ == e@,
{
    let mut path: Vec<u8> = Vec::new();
    path.extend_from_slice(e.path.as_slice());
    proof {
        assert(path@ =~= e.path@);
    }
    Entry {
        ctime: e.ctime,
        ctime_nsec: e.ctime_nsec,
        mtime: e.mtime,
        mtime_nsec: e.mtime_nsec,
        dev: e.dev,
        ino: e.ino,
        mode: e.mode,
        uid: e.uid,
        gid: e.gid,
        size: e.size,
        oid: e.oid,
        flags: e.flags,
        path,
    }
}

} // verus!
