//! The tree builder: turns a flat, sorted set of staged entries into a
//! directory trie and assigns content identifiers bottom-up, each parent's
//! canonical bytes embedding its children's already-computed identifiers.

use vstd::prelude::*;

use crate::database::{
    object_content, object_path_of, sha1_of, shard_dir_of, stored_oid, store_wrote, zlib_of,
    Database, DatabaseError, Object, ObjectId,
};
use crate::utils::{lex_lt, slash};
use vstd::multiset::Multiset;
use crate::vfs::MemFs;

verus! {

/// Whether a staged file is executable or a regular file.
#[derive(Debug, PartialEq, Eq, Structural, Copy, Clone)]
pub enum EntryMode {
    Executable,
    Regular,
}

/// One staged file handed to the tree builder: its repo-relative path,
/// its content identifier, and its mode.
pub struct Entry {
    pub name: Vec<u8>,
    pub oid: ObjectId,
    pub mode: EntryMode,
}

/// The mathematical image of an `Entry`.
pub ghost struct GEntry {
    pub name: Seq<u8>,
    pub oid: Seq<u8>,
    pub mode: EntryMode,
}

impl View for Entry {
    type V = GEntry;

    open spec fn view(&self) -> GEntry {
        GEntry { name: self.name@, oid: self.oid@, mode: self.mode }
    }
}

impl Entry {
    pub fn new(path: &[u8], oid: ObjectId, mode: EntryMode) -> (r: Entry)
        ensures
            r@.name == path@,
            r@.oid == oid@,
            r@.mode == mode,
    {
        let mut name: Vec<u8> = Vec::new();
        name.extend_from_slice(path);
        proof {
            assert(name@ =~= path@);
        }
        Entry { name, oid, mode }
    }

    /// The ancestor directories of this entry's path, nearest the root
    /// first.
    pub fn parent_directories(&self) -> (r: Vec<Vec<u8>>)
        ensures
            forall|i: int|
                0 <= i < r@.len() ==> crate::utils::is_ancestor(#[trigger] r@[i]@, self@.name),
            forall|q: Seq<u8>|
                crate::utils::is_ancestor(q, self@.name) ==> exists|i: int|
                    0 <= i < r@.len() && r@[i]@ == q,
            forall|i: int, j: int| 0 <= i < j < r@.len() ==> r@[i]@.len() < r@[j]@.len(),
    {
        crate::utils::parent_directories(self.name.as_slice())
    }
}

/// The mathematical image of a tree node's child list.
pub ghost enum GTreeEntry {
    Object { mode: EntryMode, oid: Seq<u8> },
    Tree { tree: GTree, stored: Option<Seq<u8>> },
}

pub ghost struct GTree {
    pub entries: Seq<(Seq<u8>, GTreeEntry)>,
}

/// One child of a tree node: a staged file, or a nested subtree whose
/// identifier is filled in only once that subtree has been stored.
pub enum TreeEntry {
    Tree(Tree, Option<ObjectId>),
    Object(Entry),
}

/// A transient directory node: children keyed by segment name, kept in
/// ascending byte order without duplicates.
pub struct Tree {
    entries: Vec<(Vec<u8>, TreeEntry)>,
}

impl View for TreeEntry {
    type V = GTreeEntry;

    open spec fn view(&self) -> GTreeEntry
        decreases self,
    {
        match self {
            TreeEntry::Object(e) => GTreeEntry::Object { mode: e.mode, oid: e.oid@ },
            TreeEntry::Tree(t, oid) => GTreeEntry::Tree {
                tree: t@,
                stored: match oid {
                    Some(o) => Some(o@),
                    None => None,
                },
            },
        }
    }
}

impl View for Tree {
    type V = GTree;

    closed spec fn view(&self) -> GTree
        decreases self,
    {
        GTree { entries: view_entries(self.entries@) }
    }
}

/// The views of a tree node's child list.
pub open spec fn view_entries(s: Seq<(Vec<u8>, TreeEntry)>) -> Seq<(Seq<u8>, GTreeEntry)>
    decreases s,
{
    if s.len() == 0 {
        Seq::empty()
    } else {
        view_entries(s.drop_last()).push((s.last().0@, s.last().1@))
    }
}

pub proof fn lemma_view_entries(s: Seq<(Vec<u8>, TreeEntry)>)
    ensures
        view_entries(s).len() == s.len(),
        forall|i: int|
            0 <= i < s.len() ==> #[trigger] view_entries(s)[i] == (s[i].0@, s[i].1@),
    decreases s.len(),
{
    if s.len() == 0 {
        assert(view_entries(s) =~= Seq::<(Seq<u8>, GTreeEntry)>::empty());
    } else {
        lemma_view_entries(s.drop_last());
        assert(view_entries(s) == view_entries(s.drop_last()).push((s.last().0@, s.last().1@)));
        assert forall|i: int| 0 <= i < s.len() implies #[trigger] view_entries(s)[i] == (
            s[i].0@,
            s[i].1@,
        ) by {
            if i < s.len() - 1 {
                assert(view_entries(s)[i] == view_entries(s.drop_last())[i]);
                assert(s.drop_last()[i] == s[i]);
            }
        }
    }
}

/// Index of the first slash of a path, or -1 when it has none.
pub open spec fn first_slash(p: Seq<u8>) -> int
    decreases p.len(),
{
    if p.len() == 0 {
        -1
    } else if p[0] == slash() {
        0
    } else if first_slash(p.drop_first()) < 0 {
        -1
    } else {
        1 + first_slash(p.drop_first())
    }
}

pub proof fn lemma_first_slash_range(p: Seq<u8>)
    ensures
        -1 <= first_slash(p) < p.len(),
        first_slash(p) >= 0 ==> p[first_slash(p)] == slash(),
        forall|j: int| 0 <= j < first_slash(p) ==> p[j] != slash(),
        first_slash(p) < 0 ==> forall|j: int| 0 <= j < p.len() ==> p[j] != slash(),
    decreases p.len(),
{
    if p.len() > 0 && p[0] != slash() {
        lemma_first_slash_range(p.drop_first());
        assert forall|j: int| 0 <= j < first_slash(p) implies p[j] != slash() by {
            if j > 0 {
                assert(p[j] == p.drop_first()[j - 1]);
            }
        }
        if first_slash(p) < 0 {
            assert forall|j: int| 0 <= j < p.len() implies p[j] != slash() by {
                if j > 0 {
                    assert(p[j] == p.drop_first()[j - 1]);
                }
            }
        }
    }
}

/// The slash-separated segments of a path.
pub open spec fn segments_of(p: Seq<u8>) -> Seq<Seq<u8>>
    decreases p.len(),
    via segments_of_decreases
{
    let f = first_slash(p);
    if f < 0 {
        seq![p]
    } else {
        seq![p.take(f)] + segments_of(p.skip(f + 1))
    }
}

#[via_fn]
proof fn segments_of_decreases(p: Seq<u8>) {
    lemma_first_slash_range(p);
}

/// The views of a list of byte vectors.
pub open spec fn seq_views(s: Seq<Vec<u8>>) -> Seq<Seq<u8>> {
    s.map_values(|v: Vec<u8>| v@)
}

/// Splits a path into its slash-separated segments.
pub fn split_path(p: &[u8]) -> (r: Vec<Vec<u8>>)
    ensures
        seq_views(r@) == segments_of(p@),
        r@.len() >= 1,
    decreases p@.len(),
{
    proof {
        lemma_first_slash_range(p@);
    }
    let mut f: usize = 0;
    loop
        invariant
            f <= p@.len(),
            forall|j: int| 0 <= j < f ==> p@[j] != slash(),
        ensures
            f <= p@.len(),
            forall|j: int| 0 <= j < f ==> p@[j] != slash(),
            f < p@.len() ==> p@[f as int] == slash(),
        decreases p@.len() - f,
    {
        if f == p.len() {
            break ;
        }
        if p[f] == 47 {
            break ;
        }
        f = f + 1;
    }
    if f == p.len() {
        proof {
            if first_slash(p@) >= 0 {
                assert(p@[first_slash(p@)] == slash());
            }
        }
        let mut whole: Vec<u8> = Vec::new();
        whole.extend_from_slice(p);
        let mut out: Vec<Vec<u8>> = Vec::new();
        out.push(whole);
        proof {
            assert(whole@ =~= p@);
            assert(seq_views(out@) =~= segments_of(p@));
        }
        return out;
    }
    proof {
        crate::database::tree::lemma_first_slash_at(p@, f as int);
    }
    let mut head: Vec<u8> = Vec::new();
    let mut i: usize = 0;
    while i < f
        invariant
            i <= f <= p@.len(),
            head@ == p@.take(i as int),
        decreases f - i,
    {
        head.push(p[i]);
        proof {
            assert(head@ =~= p@.take(i + 1));
        }
        i = i + 1;
    }
    let mut tail: Vec<u8> = Vec::new();
    let mut j: usize = f + 1;
    while j < p.len()
        invariant
            f + 1 <= j <= p@.len(),
            tail@ == p@.subrange(f + 1, j as int),
        decreases p@.len() - j,
    {
        tail.push(p[j]);
        proof {
            assert(tail@ =~= p@.subrange(f + 1, j + 1));
        }
        j = j + 1;
    }
    proof {
        assert(tail@ =~= p@.skip(f + 1));
    }
    let mut out = split_path(tail.as_slice());
    out.insert(0, head);
    proof {
        assert(seq_views(out@) =~= segments_of(p@));
    }
    out
}

/// First position whose name is not below `name` in byte order; the
/// place where `name` lives or belongs.
pub open spec fn gpos(s: Seq<(Seq<u8>, GTreeEntry)>, name: Seq<u8>) -> int
    decreases s.len(),
{
    if s.len() == 0 {
        0
    } else if lex_lt(s[0].0, name) {
        1 + gpos(s.drop_first(), name)
    } else {
        0
    }
}

/// Any position below which every name is smaller and at which the name
/// is not smaller is the insertion position.
pub proof fn lemma_gpos_at(s: Seq<(Seq<u8>, GTreeEntry)>, name: Seq<u8>, p: int)
    requires
        0 <= p <= s.len(),
        forall|k: int| 0 <= k < p ==> lex_lt(#[trigger] s[k].0, name),
        p < s.len() ==> !lex_lt(s[p].0, name),
    ensures
        gpos(s, name) == p,
    decreases s.len(),
{
    if s.len() > 0 && lex_lt(s[0].0, name) {
        assert(forall|k: int|
            0 <= k < p - 1 ==> #[trigger] s.drop_first()[k].0 == s[k + 1].0);
        lemma_gpos_at(s.drop_first(), name, p - 1);
    }
}

/// Descends the trie along the remaining segments and attaches the leaf
/// at the last one, creating subtrees on the way; a leaf met where a
/// subtree is needed leaves the tree unchanged.
pub open spec fn gtrie_insert(
    t: GTree,
    segs: Seq<Seq<u8>>,
    i: int,
    mode: EntryMode,
    oid: Seq<u8>,
) -> GTree
    decreases segs.len() - i,
{
    let s = t.entries;
    let name = segs[i];
    let p = gpos(s, name);
    if i >= segs.len() - 1 {
        if p < s.len() && s[p].0 == name {
            GTree { entries: s.update(p, (name, GTreeEntry::Object { mode, oid })) }
        } else {
            GTree { entries: s.take(p) + seq![(name, GTreeEntry::Object { mode, oid })] + s.skip(p) }
        }
    } else {
        if p < s.len() && s[p].0 == name {
            match s[p].1 {
                GTreeEntry::Tree { tree, stored } => GTree {
                    entries: s.update(
                        p,
                        (name, GTreeEntry::Tree { tree: gtrie_insert(tree, segs, i + 1, mode, oid), stored }),
                    ),
                },
                GTreeEntry::Object { .. } => t,
            }
        } else {
            GTree {
                entries: s.take(p) + seq![
                    (
                        name,
                        GTreeEntry::Tree {
                            tree: gtrie_insert(GTree { entries: Seq::empty() }, segs, i + 1, mode, oid),
                            stored: None,
                        },
                    ),
                ] + s.skip(p),
            }
        }
    }
}

impl Tree {
    /// An empty tree node.
    pub fn new() -> (r: Tree)
        ensures
            r@.entries == Seq::<(Seq<u8>, GTreeEntry)>::empty(),
    {
        let r = Tree { entries: Vec::new() };
        proof {
            assert(r@.entries =~= Seq::<(Seq<u8>, GTreeEntry)>::empty());
        }
        r
    }

    /// Stages one entry into this tree, descending along its path's
    /// segments; children stay in ascending byte order.
    pub fn add_entry(&mut self, entry: Entry)
        ensures
            final(self)@ == gtrie_insert(
                old(self)@,
                segments_of(entry@.name),
                0,
                entry@.mode,
                entry@.oid,
            ),
            gtree_sorted(old(self)@) ==> gtree_sorted(final(self)@),
    {
        proof {
            if gtree_sorted(self@) {
                lemma_first_slash_range(entry@.name);
                assert(segments_of(entry@.name).len() >= 1);
                lemma_gtrie_insert_sorted(
                    self@,
                    segments_of(entry@.name),
                    0,
                    entry@.mode,
                    entry@.oid,
                );
            }
        }
        let segs = split_path(entry.name.as_slice());
        let mut tmp = Tree { entries: Vec::new() };
        core::mem::swap(self, &mut tmp);
        let r = insert_into(tmp, &segs, 0, entry);
        *self = r;
    }

    /// Builds the directory trie for a set of staged entries with
    /// distinct paths, sorting them by path first; every node's children
    /// come out in ascending byte order.
    pub fn build(entries: Vec<Entry>) -> (r: Tree)
        requires
            distinct_names(entry_views(entries@)),
        ensures
            r@ == gbuild(sorted_entry_views(entry_views(entries@))),
            gtree_sorted(r@),
    {
        proof {
            lemma_gbuild_sorted(sorted_entry_views(entry_views(entries@)));
        }
        let ghost views = entry_views(entries@);
        let sorted = sort_entries(entries);
        proof {
            lemma_gentry_total_ordering();
            views.lemma_sort_by_ensures(gentry_total_leq());
            assert(vstd::relations::sorted_by(sorted_entry_views(views), gentry_leq())) by {
                assert forall|a: int, b: int|
                    0 <= a < b < sorted_entry_views(views).len() implies gentry_leq()(
                    sorted_entry_views(views)[a],
                    sorted_entry_views(views)[b],
                ) by {
                    assert(gentry_total_leq()(
                        sorted_entry_views(views)[a],
                        sorted_entry_views(views)[b],
                    ));
                }
            }
            lemma_distinct_names_permutation(views, entry_views(sorted@));
            lemma_name_sorted_unique(entry_views(sorted@), sorted_entry_views(views));
        }
        let mut root = Tree::new();
        let mut i: usize = 0;
        while i < sorted.len()
            invariant
                i <= sorted@.len(),
                root@ == gbuild_prefix(entry_views(sorted@), i as int),
            decreases sorted@.len() - i,
    {
            let e = &sorted[i];
            let entry = Entry::new(e.name.as_slice(), e.oid, e.mode);
            root.add_entry(entry);
            proof {
                assert(entry_views(sorted@).take(i + 1).drop_last() =~= entry_views(
                    sorted@,
                ).take(i as int));
                assert(entry_views(sorted@).take(i + 1).last() == entry_views(sorted@)[i as int]);
            }
            i = i + 1;
        }
        proof {
            assert(entry_views(sorted@).take(sorted@.len() as int) =~= entry_views(sorted@));
        }
        root
    }
}

/// The views of a list of entries.
pub open spec fn entry_views(s: Seq<Entry>) -> Seq<GEntry> {
    s.map_values(|e: Entry| e@)
}

/// No two entries share a path.
pub open spec fn distinct_names(s: Seq<GEntry>) -> bool {
    forall|i: int, j: int| 0 <= i < j < s.len() ==> s[i].name != s[j].name
}

/// Path order on entries.
pub open spec fn gentry_leq() -> spec_fn(GEntry, GEntry) -> bool {
    |a: GEntry, b: GEntry| crate::utils::lex_leq(a.name, b.name)
}

/// A total order on entries: by path, then by identifier, then by mode.
pub open spec fn gentry_total_leq() -> spec_fn(GEntry, GEntry) -> bool {
    |a: GEntry, b: GEntry|
        if a.name != b.name {
            lex_lt(a.name, b.name)
        } else if a.oid != b.oid {
            lex_lt(a.oid, b.oid)
        } else if a.mode != b.mode {
            a.mode == EntryMode::Executable
        } else {
            true
        }
}

pub proof fn lemma_gentry_total_ordering()
    ensures
        vstd::relations::total_ordering(gentry_total_leq()),
{
    let r = gentry_total_leq();
    assert forall|x: GEntry| #[trigger] r(x, x) by {}
    assert forall|x: GEntry, y: GEntry| #[trigger] r(x, y) && #[trigger] r(y, x) implies x == y by {
        crate::utils::lemma_lex_lt_trichotomy(x.name, y.name);
        crate::utils::lemma_lex_lt_trichotomy(x.oid, y.oid);
    }
    assert forall|x: GEntry, y: GEntry| #[trigger] r(x, y) || #[trigger] r(y, x) by {
        crate::utils::lemma_lex_lt_trichotomy(x.name, y.name);
        crate::utils::lemma_lex_lt_trichotomy(x.oid, y.oid);
    }
    assert forall|x: GEntry, y: GEntry, z: GEntry| #[trigger] r(x, y) && #[trigger] r(
        y,
        z,
    ) implies r(x, z) by {
        crate::utils::lemma_lex_lt_trichotomy(x.name, y.name);
        crate::utils::lemma_lex_lt_trichotomy(y.name, z.name);
        crate::utils::lemma_lex_lt_trichotomy(x.name, z.name);
        crate::utils::lemma_lex_lt_trichotomy(x.oid, y.oid);
        crate::utils::lemma_lex_lt_trichotomy(y.oid, z.oid);
        crate::utils::lemma_lex_lt_trichotomy(x.oid, z.oid);
        if lex_lt(x.name, y.name) && lex_lt(y.name, z.name) {
            crate::utils::lemma_lex_lt_trans(x.name, y.name, z.name);
        }
        if lex_lt(x.oid, y.oid) && lex_lt(y.oid, z.oid) {
            crate::utils::lemma_lex_lt_trans(x.oid, y.oid, z.oid);
        }
    }
}

/// The entries in ascending path order.
pub open spec fn sorted_entry_views(s: Seq<GEntry>) -> Seq<GEntry> {
    s.sort_by(gentry_total_leq())
}

/// Entries that are one rearrangement of the other share the property of
/// having pairwise distinct paths.
pub proof fn lemma_distinct_names_permutation(a: Seq<GEntry>, b: Seq<GEntry>)
    requires
        a.to_multiset() == b.to_multiset(),
        distinct_names(a),
    ensures
        distinct_names(b),
{
    broadcast use vstd::seq_lib::group_to_multiset_ensures;

    assert forall|i: int, j: int| 0 <= i < j < b.len() implies b[i].name != b[j].name by {
        if b[i].name == b[j].name {
            if b[i] == b[j] {
                assert(a.no_duplicates()) by {
                    assert(forall|p: int, q: int|
                        0 <= p < q < a.len() ==> a[p].name != a[q].name);
                }
                a.lemma_multiset_has_no_duplicates();
                assert(forall|x: GEntry|
                    b.to_multiset().contains(x) ==> b.to_multiset().count(x) == 1);
                b.lemma_multiset_has_no_duplicates_conv();
                assert(b[i] != b[j]);
            } else {
                assert(b.contains(b[i]) && b.contains(b[j]));
                assert(a.to_multiset().contains(b[i]) && a.to_multiset().contains(b[j]));
                assert(a.contains(b[i]) && a.contains(b[j]));
                let p = choose|p: int| 0 <= p < a.len() && a[p] == b[i];
                let q = choose|q: int| 0 <= q < a.len() && a[q] == b[j];
                assert(a[p].name != a[q].name);
            }
        }
    }
}

/// The tree that staging a list of entries leaves behind, in order.
pub open spec fn gbuild(entries: Seq<GEntry>) -> GTree
    decreases entries.len(),
{
    if entries.len() == 0 {
        GTree { entries: Seq::empty() }
    } else {
        gtrie_insert(
            gbuild(entries.drop_last()),
            segments_of(entries.last().name),
            0,
            entries.last().mode,
            entries.last().oid,
        )
    }
}

/// The tree after staging the first `n` entries.
pub open spec fn gbuild_prefix(entries: Seq<GEntry>, n: int) -> GTree {
    gbuild(entries.take(n))
}

/// Two path-sorted entry lists with distinct paths and the same members
/// are the same list.
pub proof fn lemma_name_sorted_unique(x: Seq<GEntry>, y: Seq<GEntry>)
    requires
        vstd::relations::sorted_by(x, gentry_leq()),
        vstd::relations::sorted_by(y, gentry_leq()),
        distinct_names(x),
        x.to_multiset() == y.to_multiset(),
    ensures
        x == y,
    decreases x.len(),
{
    broadcast use vstd::seq_lib::group_to_multiset_ensures;

    if x.len() == 0 || y.len() == 0 {
        if x.len() == 0 {
            assert(y.to_multiset().len() == 0);
            assert(y =~= x);
        } else {
            assert(x.to_multiset().len() == 0);
            assert(x =~= y);
        }
    } else {
        assert(x.to_multiset().contains(x[0]));
        assert(y.to_multiset().contains(y[0]));
        assert(x.to_multiset().contains(y[0]));
        assert(y.to_multiset().contains(x[0]));
        let i = choose|i: int| 0 <= i < x.len() && x[i] == y[0];
        let j = choose|j: int| 0 <= j < y.len() && y[j] == x[0];
        assert(gentry_leq()(x[0], x[i]));
        assert(gentry_leq()(y[0], y[j]));
        crate::utils::lemma_lex_lt_trichotomy(x[0].name, y[0].name);
        assert(x[0].name == y[0].name);
        assert(i == 0);
        assert(x[0] == y[0]);
        assert(x.drop_first() =~= x.remove(0));
        assert(y.drop_first() =~= y.remove(0));
        assert(x.remove(0).to_multiset() =~= x.to_multiset().remove(x[0]));
        assert(y.remove(0).to_multiset() =~= y.to_multiset().remove(y[0]));
        assert(x.drop_first().to_multiset() == y.drop_first().to_multiset());
        assert(distinct_names(x.drop_first())) by {
            assert(forall|a: int, b: int|
                0 <= a < b < x.drop_first().len() ==> x.drop_first()[a].name == x[a + 1].name
                    && x.drop_first()[b].name == x[b + 1].name);
        }
        assert(vstd::relations::sorted_by(x.drop_first(), gentry_leq()));
        assert(vstd::relations::sorted_by(y.drop_first(), gentry_leq()));
        lemma_name_sorted_unique(x.drop_first(), y.drop_first());
        assert(x.len() == y.len());
        assert forall|k: int| 0 <= k < x.len() implies x[k] == y[k] by {
            if k > 0 {
                assert(x[k] == x.drop_first()[k - 1]);
                assert(y[k] == y.drop_first()[k - 1]);
            }
        }
        assert(x =~= y);
    }
}

/// Deterministic hashing: building a tree from the same staged entries
/// in any insertion order sorts them into the same sequence, builds the
/// same tree, and therefore yields the same root identifier.
pub proof fn lemma_build_deterministic(a: Seq<GEntry>, b: Seq<GEntry>)
    requires
        a.to_multiset() == b.to_multiset(),
    ensures
        sorted_entry_views(a) == sorted_entry_views(b),
        gtree_oid(gbuild(sorted_entry_views(a))) == gtree_oid(gbuild(sorted_entry_views(b))),
{
    lemma_gentry_total_ordering();
    a.lemma_sort_by_ensures(gentry_total_leq());
    b.lemma_sort_by_ensures(gentry_total_leq());
    vstd::seq_lib::lemma_sorted_unique(
        sorted_entry_views(a),
        sorted_entry_views(b),
        gentry_total_leq(),
    );
    assert(sorted_entry_views(a) == sorted_entry_views(b));
}

/// Sorts entries into ascending path order.
fn sort_entries(entries: Vec<Entry>) -> (r: Vec<Entry>)
    ensures
        entry_views(r@).to_multiset() == entry_views(entries@).to_multiset(),
        vstd::relations::sorted_by(entry_views(r@), gentry_leq()),
{
    broadcast use vstd::seq_lib::group_to_multiset_ensures;

    let mut rest = entries;
    let mut out: Vec<Entry> = Vec::new();
    proof {
        assert(entry_views(out@) =~= Seq::<GEntry>::empty());
        assert(entry_views(out@).to_multiset().add(entry_views(rest@).to_multiset())
            =~= entry_views(rest@).to_multiset());
    }
    while rest.len() > 0
        invariant
            entry_views(out@).to_multiset().add(entry_views(rest@).to_multiset())
                == entry_views(entries@).to_multiset(),
            vstd::relations::sorted_by(entry_views(out@), gentry_leq()),
        decreases rest@.len(),
    {
        let ghost rest0 = rest@;
        let ghost out0 = out@;
        let x = rest.remove(0);
        proof {
            entry_views(rest0).to_multiset_ensures();
            assert(rest@ =~= rest0.drop_first());
            assert(entry_views(rest0).len() == rest0.len());
            assert(entry_views(rest0).remove(0) =~= entry_views(rest@));
            assert(entry_views(rest0)[0] == x@);
            assert(entry_views(rest0).contains(x@));
            assert(entry_views(rest0).remove(0).to_multiset() =~= entry_views(
                rest0,
            ).to_multiset().remove(x@));
            assert(entry_views(rest0).to_multiset().contains(x@));
            assert(entry_views(rest0).to_multiset() =~= entry_views(rest@).to_multiset().insert(
                x@,
            ));
        }
        let mut pos: usize = 0;
        while pos < out.len() && crate::utils::bytes_lt(out[pos].name.as_slice(), x.name.as_slice())
            invariant
                pos <= out@.len(),
                out@ == out0,
                forall|k: int| 0 <= k < pos ==> lex_lt(entry_views(out@)[k].name, x@.name),
            decreases out@.len() - pos,
        {
            pos = pos + 1;
        }
        out.insert(pos, x);
        proof {
            let v = entry_views(out0);
            assert(entry_views(out@) =~= v.take(pos as int) + seq![x@] + v.skip(pos as int));
            lemma_insert_multiset(v, pos as int, x@);
            assert(entry_views(out@).to_multiset().add(entry_views(rest@).to_multiset())
                =~= entry_views(entries@).to_multiset());
            assert(vstd::relations::sorted_by(entry_views(out@), gentry_leq())) by {
                assert forall|a: int, b: int|
                    0 <= a < b < entry_views(out@).len() implies gentry_leq()(
                    entry_views(out@)[a],
                    entry_views(out@)[b],
                ) by {
                    let w = entry_views(out@);
                    if b < pos {
                        assert(w[a] == v[a] && w[b] == v[b]);
                    } else if a > pos {
                        assert(w[a] == v[a - 1] && w[b] == v[b - 1]);
                    } else if a < pos && b == pos {
                        assert(w[a] == v[a]);
                        assert(lex_lt(v[a].name, x@.name));
                    } else if a < pos && b > pos {
                        assert(w[a] == v[a] && w[b] == v[b - 1]);
                    } else if a == pos && b > pos {
                        assert(w[a] == x@ && w[b] == v[b - 1]);
                        assert(pos < v.len());
                        assert(!lex_lt(v[pos as int].name, x@.name));
                        crate::utils::lemma_lex_lt_trichotomy(v[pos as int].name, x@.name);
                        if b - 1 > pos {
                            assert(gentry_leq()(v[pos as int], v[b - 1]));
                            if lex_lt(x@.name, v[pos as int].name) && lex_lt(
                                v[pos as int].name,
                                v[b - 1].name,
                            ) {
                                crate::utils::lemma_lex_lt_trans(
                                    x@.name,
                                    v[pos as int].name,
                                    v[b - 1].name,
                                );
                            }
                        }
                    }
                }
            }
        }
    }
    proof {
        assert(entry_views(rest@) =~= Seq::<GEntry>::empty());
        assert(entry_views(out@).to_multiset() =~= entry_views(entries@).to_multiset());
    }
    out
}

/// Inserting one element adds exactly it to the members.
proof fn lemma_insert_multiset(s: Seq<GEntry>, p: int, x: GEntry)
    requires
        0 <= p <= s.len(),
    ensures
        (s.take(p) + seq![x] + s.skip(p)).to_multiset() == s.to_multiset().insert(x),
{
    broadcast use vstd::seq_lib::group_to_multiset_ensures;

    vstd::seq_lib::lemma_multiset_commutative(s.take(p) + seq![x], s.skip(p));
    vstd::seq_lib::lemma_multiset_commutative(s.take(p), seq![x]);
    vstd::seq_lib::lemma_multiset_commutative(s.take(p), s.skip(p));
    assert(s.take(p) + s.skip(p) =~= s);
    assert(seq![x].to_multiset() =~= Multiset::<GEntry>::empty().insert(x)) by {
        assert(seq![x].drop_first() =~= Seq::<GEntry>::empty());
    }
    assert((s.take(p) + seq![x] + s.skip(p)).to_multiset() =~= s.to_multiset().insert(x));
}

/// Descends along the path segments from `segs[i]` on and attaches the
/// entry as a leaf at the last one.
fn insert_into(t: Tree, segs: &Vec<Vec<u8>>, i: usize, entry: Entry) -> (r: Tree)
    requires
        i < segs@.len(),
    ensures
        r@ == gtrie_insert(t@, seq_views(segs@), i as int, entry@.mode, entry@.oid),
    decreases segs@.len() - i,
{
    let ghost gt = t@;
    let Tree { mut entries } = t;
    proof {
        lemma_view_entries(entries@);
    }
    let ghost s = gt.entries;
    let name = &segs[i];
    let mut pos: usize = 0;
    while pos < entries.len() && crate::utils::bytes_lt(entries[pos].0.as_slice(), name.as_slice())
        invariant
            pos <= entries@.len(),
            s == view_entries(entries@),
            s.len() == entries@.len(),
            forall|k: int| 0 <= k < entries@.len() ==> #[trigger] s[k] == (entries@[k].0@, entries@[k].1@),
            forall|k: int| 0 <= k < pos ==> lex_lt(#[trigger] s[k].0, name@),
        decreases entries@.len() - pos,
    {
        pos = pos + 1;
    }
    proof {
        lemma_gpos_at(s, name@, pos as int);
    }
    let hit = pos < entries.len() && crate::utils::bytes_eq(
        entries[pos].0.as_slice(),
        name.as_slice(),
    );
    if i == segs.len() - 1 {
        if hit {
            let mut key: Vec<u8> = Vec::new();
            key.extend_from_slice(name.as_slice());
            let ghost before = entries@;
            entries.set(pos, (key, TreeEntry::Object(entry)));
            proof {
                assert(key@ =~= name@);
                lemma_view_entries(entries@);
                assert(view_entries(entries@) =~= s.update(
                    pos as int,
                    (name@, GTreeEntry::Object { mode: entry@.mode, oid: entry@.oid }),
                ));
            }
            Tree { entries }
        } else {
            let mut key: Vec<u8> = Vec::new();
            key.extend_from_slice(name.as_slice());
            entries.insert(pos, (key, TreeEntry::Object(entry)));
            proof {
                assert(key@ =~= name@);
                lemma_view_entries(entries@);
                assert(view_entries(entries@) =~= s.take(pos as int) + seq![
                    (name@, GTreeEntry::Object { mode: entry@.mode, oid: entry@.oid }),
                ] + s.skip(pos as int));
            }
            Tree { entries }
        }
    } else {
        if hit {
            let (key, child) = entries.remove(pos);
            let ghost afterrm = entries@;
            match child {
                TreeEntry::Tree(sub, stored) => {
                    let ghost gsub = sub@;
                    let ghost gstored = match stored {
                        Some(o) => Some(o@),
                        None => None,
                    };
                    let sub2 = insert_into(sub, segs, i + 1, entry);
                    entries.insert(pos, (key, TreeEntry::Tree(sub2, stored)));
                    proof {
                        lemma_view_entries(entries@);
                        assert(view_entries(entries@) =~= s.update(
                            pos as int,
                            (
                                name@,
                                GTreeEntry::Tree {
                                    tree: gtrie_insert(
                                        gsub,
                                        seq_views(segs@),
                                        i + 1,
                                        entry@.mode,
                                        entry@.oid,
                                    ),
                                    stored: gstored,
                                },
                            ),
                        ));
                    }
                    Tree { entries }
                },
                TreeEntry::Object(e) => {
                    entries.insert(pos, (key, TreeEntry::Object(e)));
                    proof {
                        lemma_view_entries(entries@);
                        assert(view_entries(entries@) =~= s);
                    }
                    Tree { entries }
                },
            }
        } else {
            let mut key: Vec<u8> = Vec::new();
            key.extend_from_slice(name.as_slice());
            let sub2 = insert_into(Tree::new(), segs, i + 1, entry);
            entries.insert(pos, (key, TreeEntry::Tree(sub2, None)));
            proof {
                assert(key@ =~= name@);
                lemma_view_entries(entries@);
                assert(view_entries(entries@) =~= s.take(pos as int) + seq![
                    (
                        name@,
                        GTreeEntry::Tree {
                            tree: gtrie_insert(
                                GTree { entries: Seq::empty() },
                                seq_views(segs@),
                                i + 1,
                                entry@.mode,
                                entry@.oid,
                            ),
                            stored: None,
                        },
                    ),
                ] + s.skip(pos as int));
            }
            Tree { entries }
        }
    }
}

/// A child whose own subtree, if it has one, is sorted.
pub open spec fn gentry_sorted(e: GTreeEntry) -> bool
    decreases e,
{
    match e {
        GTreeEntry::Object { .. } => true,
        GTreeEntry::Tree { tree, stored } => gtree_sorted(tree),
    }
}

/// Children keyed by strictly ascending names, at every depth.
pub open spec fn gtree_sorted(t: GTree) -> bool
    decreases t,
{
    &&& forall|i: int, j: int|
        0 <= i < j < t.entries.len() ==> lex_lt(
            #[trigger] t.entries[i].0,
            #[trigger] t.entries[j].0,
        )
    &&& forall|i: int| 0 <= i < t.entries.len() ==> gentry_sorted(#[trigger] t.entries[i].1)
}

/// The insertion position lies after exactly the strictly smaller names.
proof fn lemma_gpos_range(s: Seq<(Seq<u8>, GTreeEntry)>, name: Seq<u8>)
    ensures
        0 <= gpos(s, name) <= s.len(),
        forall|k: int| 0 <= k < gpos(s, name) ==> lex_lt(#[trigger] s[k].0, name),
        gpos(s, name) < s.len() ==> !lex_lt(s[gpos(s, name)].0, name),
    decreases s.len(),
{
    if s.len() > 0 && lex_lt(s[0].0, name) {
        lemma_gpos_range(s.drop_first(), name);
        assert forall|k: int| 0 <= k < gpos(s, name) implies lex_lt(#[trigger] s[k].0, name) by {
            if k > 0 {
                assert(s.drop_first()[k - 1] == s[k]);
            }
        }
        if gpos(s, name) < s.len() {
            assert(s.drop_first()[gpos(s, name) - 1] == s[gpos(s, name)]);
        }
    }
}

/// Staging an entry keeps every node's children sorted.
pub proof fn lemma_gtrie_insert_sorted(
    t: GTree,
    segs: Seq<Seq<u8>>,
    i: int,
    mode: EntryMode,
    oid: Seq<u8>,
)
    requires
        gtree_sorted(t),
        0 <= i < segs.len(),
    ensures
        gtree_sorted(gtrie_insert(t, segs, i, mode, oid)),
    decreases segs.len() - i,
{
    let s = t.entries;
    let name = segs[i];
    let p = gpos(s, name);
    lemma_gpos_range(s, name);
    let r = gtrie_insert(t, segs, i, mode, oid);
    if p < s.len() && s[p].0 == name {
        if i >= segs.len() - 1 {
            assert(r.entries == s.update(p, (name, GTreeEntry::Object { mode, oid })));
            assert forall|a: int, b: int| 0 <= a < b < r.entries.len() implies lex_lt(
                #[trigger] r.entries[a].0,
                #[trigger] r.entries[b].0,
            ) by {
                assert(r.entries[a].0 == s[a].0 && r.entries[b].0 == s[b].0);
            }
            assert forall|a: int| 0 <= a < r.entries.len() implies gentry_sorted(
                #[trigger] r.entries[a].1,
            ) by {
                if a != p {
                    assert(r.entries[a].1 == s[a].1);
                }
            }
        } else {
            match s[p].1 {
                GTreeEntry::Tree { tree, stored } => {
                    lemma_gtrie_insert_sorted(tree, segs, i + 1, mode, oid);
                    assert forall|a: int, b: int| 0 <= a < b < r.entries.len() implies lex_lt(
                        #[trigger] r.entries[a].0,
                        #[trigger] r.entries[b].0,
                    ) by {
                        assert(r.entries[a].0 == s[a].0 && r.entries[b].0 == s[b].0);
                    }
                    assert forall|a: int| 0 <= a < r.entries.len() implies gentry_sorted(
                        #[trigger] r.entries[a].1,
                    ) by {
                        if a != p {
                            assert(r.entries[a].1 == s[a].1);
                        }
                    }
                },
                GTreeEntry::Object { .. } => {},
            }
        }
    } else {
        let fresh = if i >= segs.len() - 1 {
            GTreeEntry::Object { mode, oid }
        } else {
            GTreeEntry::Tree {
                tree: gtrie_insert(GTree { entries: Seq::empty() }, segs, i + 1, mode, oid),
                stored: None,
            }
        };
        if i < segs.len() - 1 {
            assert(gtree_sorted(GTree { entries: Seq::empty() }));
            lemma_gtrie_insert_sorted(GTree { entries: Seq::empty() }, segs, i + 1, mode, oid);
        }
        assert(gentry_sorted(fresh));
        assert(r.entries == s.take(p) + seq![(name, fresh)] + s.skip(p));
        if p < s.len() {
            crate::utils::lemma_lex_lt_trichotomy(s[p].0, name);
        }
        assert forall|a: int, b: int| 0 <= a < b < r.entries.len() implies lex_lt(
            #[trigger] r.entries[a].0,
            #[trigger] r.entries[b].0,
        ) by {
            if b < p {
                assert(r.entries[a].0 == s[a].0 && r.entries[b].0 == s[b].0);
            } else if a > p {
                assert(r.entries[a].0 == s[a - 1].0 && r.entries[b].0 == s[b - 1].0);
            } else if a < p && b == p {
                assert(r.entries[a].0 == s[a].0 && r.entries[b].0 == name);
            } else if a < p && b > p {
                assert(r.entries[a].0 == s[a].0 && r.entries[b].0 == s[b - 1].0);
            } else if a == p && b > p {
                assert(r.entries[a].0 == name && r.entries[b].0 == s[b - 1].0);
                assert(!lex_lt(s[p].0, name) && s[p].0 != name);
                assert(lex_lt(name, s[p].0));
                if b - 1 > p {
                    assert(lex_lt(s[p].0, s[b - 1].0));
                    crate::utils::lemma_lex_lt_trans(name, s[p].0, s[b - 1].0);
                }
            }
        }
        assert forall|a: int| 0 <= a < r.entries.len() implies gentry_sorted(
            #[trigger] r.entries[a].1,
        ) by {
            if a < p {
                assert(r.entries[a].1 == s[a].1);
            } else if a > p {
                assert(r.entries[a].1 == s[a - 1].1);
            }
        }
    }
}

/// Building from any entry list leaves every node's children sorted.
pub proof fn lemma_gbuild_sorted(es: Seq<GEntry>)
    ensures
        gtree_sorted(gbuild(es)),
    decreases es.len(),
{
    if es.len() == 0 {
    } else {
        lemma_gbuild_sorted(es.drop_last());
        lemma_first_slash_range(es.last().name);
        assert(segments_of(es.last().name).len() >= 1);
        lemma_gtrie_insert_sorted(
            gbuild(es.drop_last()),
            segments_of(es.last().name),
            0,
            es.last().mode,
            es.last().oid,
        );
    }
}

/// The "tree" kind tag.
pub open spec fn tree_kind() -> Seq<u8> {
    seq![0x74u8, 0x72u8, 0x65u8, 0x65u8]
}

/// The octal mode text of a staged file: "100755" or "100644".
pub open spec fn mode_octal(m: EntryMode) -> Seq<u8> {
    match m {
        EntryMode::Executable => seq![0x31u8, 0x30u8, 0x30u8, 0x37u8, 0x35u8, 0x35u8],
        EntryMode::Regular => seq![0x31u8, 0x30u8, 0x30u8, 0x36u8, 0x34u8, 0x34u8],
    }
}

/// The octal mode text of a subtree: "40000".
pub open spec fn dir_octal() -> Seq<u8> {
    seq![0x34u8, 0x30u8, 0x30u8, 0x30u8, 0x30u8]
}

/// One serialized child row, with the subtree identifier computed
/// recursively: `<octal-mode> <name>\0<20-byte-oid>`.
pub open spec fn grow_bytes(name: Seq<u8>, e: GTreeEntry) -> Seq<u8>
    decreases e,
{
    match e {
        GTreeEntry::Object { mode, oid } => mode_octal(mode) + seq![0x20u8] + name + seq![0u8]
            + oid,
        GTreeEntry::Tree { tree, stored } => dir_octal() + seq![0x20u8] + name + seq![0u8]
            + gtree_oid(tree),
    }
}

/// The canonical payload of a tree node, children in order, identifiers
/// computed recursively.
pub open spec fn grows(s: Seq<(Seq<u8>, GTreeEntry)>) -> Seq<u8>
    decreases s,
{
    if s.len() == 0 {
        Seq::empty()
    } else {
        grows(s.drop_last()) + grow_bytes(s.last().0, s.last().1)
    }
}

/// The identifier that a tree deterministically hashes to, bottom-up; it
/// ignores any identifiers already recorded on subtree nodes.
pub open spec fn gtree_oid(t: GTree) -> Seq<u8>
    decreases t,
{
    sha1_of(object_content(tree_kind(), grows(t.entries)))
}

/// The canonical payload of a tree node.
pub open spec fn gtree_data(t: GTree) -> Seq<u8> {
    grows(t.entries)
}

/// One serialized child row, reading the recorded subtree identifier.
pub open spec fn grow_bytes_stored(name: Seq<u8>, e: GTreeEntry) -> Seq<u8> {
    match e {
        GTreeEntry::Object { mode, oid } => mode_octal(mode) + seq![0x20u8] + name + seq![0u8]
            + oid,
        GTreeEntry::Tree { tree, stored } => dir_octal() + seq![0x20u8] + name + seq![0u8] + (
        match stored {
            Some(o) => o,
            None => Seq::empty(),
        }),
    }
}

/// The payload a tree node actually serializes, from recorded subtree
/// identifiers.
pub open spec fn grows_stored(s: Seq<(Seq<u8>, GTreeEntry)>) -> Seq<u8>
    decreases s.len(),
{
    if s.len() == 0 {
        Seq::empty()
    } else {
        grows_stored(s.drop_last()) + grow_bytes_stored(s.last().0, s.last().1)
    }
}

/// Every direct subtree has a recorded identifier.
pub open spec fn oids_set(s: Seq<(Seq<u8>, GTreeEntry)>) -> bool {
    forall|i: int|
        0 <= i < s.len() ==> match #[trigger] s[i].1 {
            GTreeEntry::Tree { tree, stored } => stored is Some,
            GTreeEntry::Object { .. } => true,
        }
}

/// Every subtree, at every depth, has its correct identifier recorded.
pub open spec fn ghashed_entries(s: Seq<(Seq<u8>, GTreeEntry)>) -> bool
    decreases s,
{
    if s.len() == 0 {
        true
    } else {
        ghashed_entries(s.drop_last()) && (match s.last().1 {
            GTreeEntry::Tree { tree, stored } => stored == Some(gtree_oid(tree))
                && ghashed_entries(tree.entries),
            GTreeEntry::Object { .. } => true,
        })
    }
}

/// The child list after bottom-up hashing: identifiers recorded on every
/// subtree, nothing else changed.
pub open spec fn gfill_entry(e: GTreeEntry) -> GTreeEntry
    decreases e,
{
    match e {
        GTreeEntry::Object { .. } => e,
        GTreeEntry::Tree { tree, stored } => GTreeEntry::Tree {
            tree: GTree { entries: gfill_entries(tree.entries) },
            stored: Some(gtree_oid(tree)),
        },
    }
}

pub open spec fn gfill_entries(s: Seq<(Seq<u8>, GTreeEntry)>) -> Seq<(Seq<u8>, GTreeEntry)>
    decreases s,
{
    if s.len() == 0 {
        Seq::empty()
    } else {
        gfill_entries(s.drop_last()).push((s.last().0, gfill_entry(s.last().1)))
    }
}

/// The tree after bottom-up hashing.
pub open spec fn gfill(t: GTree) -> GTree {
    GTree { entries: gfill_entries(t.entries) }
}

pub proof fn lemma_gfill_entries_index(s: Seq<(Seq<u8>, GTreeEntry)>)
    ensures
        gfill_entries(s).len() == s.len(),
        forall|i: int|
            0 <= i < s.len() ==> #[trigger] gfill_entries(s)[i] == (s[i].0, gfill_entry(s[i].1)),
    decreases s.len(),
{
    if s.len() > 0 {
        lemma_gfill_entries_index(s.drop_last());
        assert forall|i: int| 0 <= i < s.len() implies #[trigger] gfill_entries(s)[i] == (
            s[i].0,
            gfill_entry(s[i].1),
        ) by {
            if i < s.len() - 1 {
                assert(gfill_entries(s)[i] == gfill_entries(s.drop_last())[i]);
                assert(s.drop_last()[i] == s[i]);
            }
        }
    }
}

/// Recorded identifiers, once correct everywhere, serialize to the same
/// bytes as the recursive computation.
pub proof fn lemma_grows_stored_of_hashed(s: Seq<(Seq<u8>, GTreeEntry)>)
    requires
        ghashed_entries(s),
    ensures
        grows_stored(s) == grows(s),
    decreases s.len(),
{
    if s.len() > 0 {
        lemma_grows_stored_of_hashed(s.drop_last());
        assert(grow_bytes_stored(s.last().0, s.last().1) == grow_bytes(s.last().0, s.last().1));
    }
}

/// Filling identifiers does not change the recursive payload.
pub proof fn lemma_grows_fill(s: Seq<(Seq<u8>, GTreeEntry)>)
    ensures
        grows(gfill_entries(s)) == grows(s),
    decreases s,
{
    if s.len() > 0 {
        lemma_grows_fill(s.drop_last());
        assert(gfill_entries(s).drop_last() =~= gfill_entries(s.drop_last()));
        assert(gfill_entries(s).last() == (s.last().0, gfill_entry(s.last().1)));
        match s.last().1 {
            GTreeEntry::Object { .. } => {},
            GTreeEntry::Tree { tree, stored } => {
                lemma_grows_fill(tree.entries);
                assert(gtree_oid(GTree { entries: gfill_entries(tree.entries) }) == gtree_oid(
                    tree,
                ));
            },
        }
        assert(grow_bytes(s.last().0, gfill_entry(s.last().1)) == grow_bytes(
            s.last().0,
            s.last().1,
        ));
    }
}

/// After filling, every recorded identifier is correct.
pub proof fn lemma_gfill_hashed(s: Seq<(Seq<u8>, GTreeEntry)>)
    ensures
        ghashed_entries(gfill_entries(s)),
    decreases s,
{
    if s.len() > 0 {
        lemma_gfill_hashed(s.drop_last());
        assert(gfill_entries(s).drop_last() =~= gfill_entries(s.drop_last()));
        assert(gfill_entries(s).last() == (s.last().0, gfill_entry(s.last().1)));
        match s.last().1 {
            GTreeEntry::Object { .. } => {},
            GTreeEntry::Tree { tree, stored } => {
                lemma_gfill_hashed(tree.entries);
                lemma_grows_fill(tree.entries);
                assert(gtree_oid(GTree { entries: gfill_entries(tree.entries) }) == gtree_oid(
                    tree,
                ));
            },
        }
    }
}

/// Correct identifiers everywhere also means one is recorded everywhere.
pub proof fn lemma_hashed_oids_set(s: Seq<(Seq<u8>, GTreeEntry)>)
    requires
        ghashed_entries(s),
    ensures
        oids_set(s),
    decreases s.len(),
{
    if s.len() > 0 {
        lemma_hashed_oids_set(s.drop_last());
        assert forall|i: int| 0 <= i < s.len() implies match #[trigger] s[i].1 {
            GTreeEntry::Tree { tree, stored } => stored is Some,
            GTreeEntry::Object { .. } => true,
        } by {
            if i < s.len() - 1 {
                assert(s.drop_last()[i] == s[i]);
            }
        }
    }
}

/// Nesting depth, used to order the bottom-up traversal.
pub open spec fn gentry_height(e: GTreeEntry) -> nat
    decreases e,
{
    match e {
        GTreeEntry::Object { .. } => 0,
        GTreeEntry::Tree { tree, stored } => 1 + gentries_height(tree.entries),
    }
}

pub open spec fn gentries_height(s: Seq<(Seq<u8>, GTreeEntry)>) -> nat
    decreases s,
{
    if s.len() == 0 {
        0
    } else if gentry_height(s.last().1) > gentries_height(s.drop_last()) {
        gentry_height(s.last().1)
    } else {
        gentries_height(s.drop_last())
    }
}

pub proof fn lemma_gentries_height_bound(s: Seq<(Seq<u8>, GTreeEntry)>, i: int)
    requires
        0 <= i < s.len(),
    ensures
        gentry_height(s[i].1) <= gentries_height(s),
    decreases s.len(),
{
    if i < s.len() - 1 {
        lemma_gentries_height_bound(s.drop_last(), i);
        assert(s.drop_last()[i] == s[i]);
    }
}

impl Object for Tree {
    open spec fn kind_spec(&self) -> Seq<u8> {
        tree_kind()
    }

    open spec fn data_spec(&self) -> Seq<u8> {
        grows_stored(self@.entries)
    }

    open spec fn data_ready(&self) -> bool {
        oids_set(self@.entries)
    }

    fn kind(&self) -> (r: Vec<u8>)
        ensures
            r@ == self.kind_spec(),
    {
        let k: [u8; 4] = [0x74, 0x72, 0x65, 0x65];
        let mut out: Vec<u8> = Vec::new();
        out.extend_from_slice(k.as_slice());
        proof {
            assert(out@ =~= tree_kind());
        }
        out
    }

    fn data(&self) -> (r: Vec<u8>)
        ensures
            r@ == self.data_spec(),
    {
        proof {
            lemma_view_entries(self.entries@);
        }
        let ghost s = self@.entries;
        let mut out: Vec<u8> = Vec::new();
        let mut i: usize = 0;
        proof {
            assert(s.take(0) =~= Seq::<(Seq<u8>, GTreeEntry)>::empty());
        }
        while i < self.entries.len()
            invariant
                i <= self.entries@.len(),
                s == view_entries(self.entries@),
                s.len() == self.entries@.len(),
                oids_set(s),
                forall|k: int|
                    0 <= k < s.len() ==> #[trigger] s[k] == (
                        self.entries@[k].0@,
                        self.entries@[k].1@,
                    ),
                out@ == grows_stored(s.take(i as int)),
            decreases self.entries@.len() - i,
        {
            let ghost out0 = out@;
            let pair = &self.entries[i];
            match &pair.1 {
                TreeEntry::Object(e) => {
                    match e.mode {
                        EntryMode::Executable => {
                            let m: [u8; 6] = [0x31, 0x30, 0x30, 0x37, 0x35, 0x35];
                            out.extend_from_slice(m.as_slice());
                        },
                        EntryMode::Regular => {
                            let m: [u8; 6] = [0x31, 0x30, 0x30, 0x36, 0x34, 0x34];
                            out.extend_from_slice(m.as_slice());
                        },
                    }
                    out.push(0x20);
                    out.extend_from_slice(pair.0.as_slice());
                    out.push(0);
                    out.extend_from_slice(e.oid.bytes().as_slice());
                    proof {
                        assert(out@ =~= out0 + grow_bytes_stored(s[i as int].0, s[i as int].1));
                    }
                },
                TreeEntry::Tree(sub, stored) => {
                    match stored {
                        Some(oid) => {
                            let m: [u8; 5] = [0x34, 0x30, 0x30, 0x30, 0x30];
                            out.extend_from_slice(m.as_slice());
                            out.push(0x20);
                            out.extend_from_slice(pair.0.as_slice());
                            out.push(0);
                            out.extend_from_slice(oid.bytes().as_slice());
                            proof {
                                assert(out@ =~= out0 + grow_bytes_stored(
                                    s[i as int].0,
                                    s[i as int].1,
                                ));
                            }
                        },
                        None => {
                            proof {
                                assert(s[i as int].1 is Tree);
                                assert(false);
                            }
                            return vstd::pervasive::unreached();
                        },
                    }
                },
            }
            proof {
                assert(s.take(i + 1).drop_last() =~= s.take(i as int));
                assert(s.take(i + 1).last() == s[i as int]);
            }
            i = i + 1;
        }
        proof {
            assert(s.take(s.len() as int) =~= s);
        }
        out
    }
}

/// The object files a hashed tree stands for: one at the tree's own
/// sharded path, and recursively one for every subtree.
pub open spec fn gtree_objects_stored(
    files: Map<Seq<u8>, Seq<u8>>,
    base: Seq<u8>,
    t: GTree,
) -> bool
    decreases t,
{
    &&& files.contains_key(object_path_of(base, gtree_oid(t)))
    &&& gentries_objects_stored(files, base, t.entries)
}

pub open spec fn gentries_objects_stored(
    files: Map<Seq<u8>, Seq<u8>>,
    base: Seq<u8>,
    s: Seq<(Seq<u8>, GTreeEntry)>,
) -> bool
    decreases s,
{
    if s.len() == 0 {
        true
    } else {
        gentries_objects_stored(files, base, s.drop_last()) && (match s.last().1 {
            GTreeEntry::Tree { tree, stored } => gtree_objects_stored(files, base, tree),
            GTreeEntry::Object { .. } => true,
        })
    }
}

proof fn lemma_gtree_oid_len(t: GTree)
    ensures
        gtree_oid(t).len() == 20,
{
    reveal(crate::database::sha1_of);
}

/// A sharded object path is three bytes of shard and thirty-eight of
/// name longer than the base directory.
proof fn lemma_object_path_len(base: Seq<u8>, oid: Seq<u8>)
    requires
        oid.len() == 20,
    ensures
        object_path_of(base, oid).len() == base.len() + 42,
        shard_dir_of(base, oid).len() == base.len() + 3,
{
    crate::utils::lemma_hex_of_len(oid);
}

/// Stored objects survive any filesystem step that keeps every key of
/// object-path length.
proof fn lemma_entries_stored_preserved(
    files0: Map<Seq<u8>, Seq<u8>>,
    files1: Map<Seq<u8>, Seq<u8>>,
    base: Seq<u8>,
    s: Seq<(Seq<u8>, GTreeEntry)>,
)
    requires
        gentries_objects_stored(files0, base, s),
        forall|k: Seq<u8>|
            #[trigger] files0.contains_key(k) && k.len() == base.len() + 42
                ==> files1.contains_key(k),
    ensures
        gentries_objects_stored(files1, base, s),
    decreases s,
{
    if s.len() > 0 {
        lemma_entries_stored_preserved(files0, files1, base, s.drop_last());
        match s.last().1 {
            GTreeEntry::Tree { tree, stored } => {
                lemma_tree_stored_preserved(files0, files1, base, tree);
            },
            GTreeEntry::Object { .. } => {},
        }
    }
}

proof fn lemma_tree_stored_preserved(
    files0: Map<Seq<u8>, Seq<u8>>,
    files1: Map<Seq<u8>, Seq<u8>>,
    base: Seq<u8>,
    t: GTree,
)
    requires
        gtree_objects_stored(files0, base, t),
        forall|k: Seq<u8>|
            #[trigger] files0.contains_key(k) && k.len() == base.len() + 42
                ==> files1.contains_key(k),
    ensures
        gtree_objects_stored(files1, base, t),
    decreases t,
{
    lemma_gtree_oid_len(t);
    lemma_object_path_len(base, gtree_oid(t));
    lemma_entries_stored_preserved(files0, files1, base, t.entries);
}

/// One store step never removes a key of object-path length: at most a
/// ten-bytes-longer-than-base temporary file goes away.
proof fn lemma_store_effect_keeps_objects(
    files0: Map<Seq<u8>, Seq<u8>>,
    files1: Map<Seq<u8>, Seq<u8>>,
    base: Seq<u8>,
    oid: Seq<u8>,
    content: Seq<u8>,
)
    requires
        oid.len() == 20,
        files1 == files0 || store_wrote(files0, files1, base, oid, content),
    ensures
        forall|k: Seq<u8>|
            #[trigger] files0.contains_key(k) && k.len() == base.len() + 42
                ==> files1.contains_key(k),
{
    lemma_object_path_len(base, oid);
    if files1 != files0 {
        let tname = choose|t: Seq<u8>|
            #[trigger] t.len() == 6 && files1 == files0.remove(
                shard_dir_of(base, oid) + seq![slash()] + t,
            ).insert(object_path_of(base, oid), zlib_of(content));
        assert forall|k: Seq<u8>|
            #[trigger] files0.contains_key(k) && k.len() == base.len() + 42 implies files1
            .contains_key(k) by {
            assert((shard_dir_of(base, oid) + seq![slash()] + tname).len()
                == base.len() + 10);
        }
    }
}

/// Hashes and stores every subtree of a child list, bottom-up, recording
/// each computed identifier on its node; the store never fails.
fn hash_entries(entries: Vec<(Vec<u8>, TreeEntry)>, db: &Database, fs: &mut MemFs) -> (out: Vec<
    (Vec<u8>, TreeEntry),
>)
    requires
        old(fs).wf(),
    ensures
        final(fs).wf(),
        view_entries(out@) == gfill_entries(view_entries(entries@)),
        gentries_objects_stored(
            final(fs).files(),
            db.pathname(),
            gfill_entries(view_entries(entries@)),
        ),
        forall|k: Seq<u8>|
            #[trigger] old(fs).files().contains_key(k) && k.len() == db.pathname().len() + 42
                ==> final(fs).files().contains_key(k),
    decreases gentries_height(view_entries(entries@)), entries@.len(),
{
    let ghost s = view_entries(entries@);
    proof {
        lemma_view_entries(entries@);
    }
    if entries.len() == 0 {
        proof {
            assert(gfill_entries(s) =~= Seq::<(Seq<u8>, GTreeEntry)>::empty());
        }
        return Vec::new();
    }
    let mut rest = entries;
    let last = rest.pop().unwrap();
    let ghost srest = view_entries(rest@);
    proof {
        assert(srest =~= s.drop_last()) by {
            lemma_view_entries(rest@);
            assert(srest.len() == s.len() - 1);
            assert(forall|k: int|
                0 <= k < srest.len() ==> #[trigger] srest[k] == s.drop_last()[k]);
        }
        assert(gentries_height(srest) <= gentries_height(s));
    }
    let done = hash_entries(rest, db, fs);
    let (name, child) = last;
    match child {
        TreeEntry::Object(e) => {
            let ghost gdone = done@;
            let mut out = done;
            out.push((name, TreeEntry::Object(e)));
            proof {
                assert(out@.drop_last() =~= gdone);
                assert(view_entries(out@) == view_entries(out@.drop_last()).push((
                    out@.last().0@,
                    out@.last().1@,
                )));
                assert(gfill_entries(s) == gfill_entries(s.drop_last()).push((
                    s.last().0,
                    gfill_entry(s.last().1),
                )));
                assert(out@.last().0@ == s.last().0);
                assert(out@.last().1@ == gfill_entry(s.last().1));
                assert(view_entries(out@) == gfill_entries(s));
                assert(gfill_entries(s).drop_last() =~= gfill_entries(s.drop_last()));
                assert(gfill_entries(s).last() == (s.last().0, gfill_entry(s.last().1)));
            }
            out
        },
        TreeEntry::Tree(sub, _) => {
            let ghost gsub = sub@;
            proof {
                assert(s.last().1 matches GTreeEntry::Tree { tree, stored } && tree == gsub);
            }
            let Tree { entries: sub_entries } = sub;
            proof {
                assert(gsub.entries == view_entries(sub_entries@));
                assert(gentry_height(s.last().1) == 1 + gentries_height(gsub.entries));
                lemma_gentries_height_bound(s, s.len() - 1);
            }
            let ghost fs1 = *fs;
            let hashed = hash_entries(sub_entries, db, fs);
            let ghost fs2 = *fs;
            proof {
                lemma_entries_stored_preserved(
                    fs1.files(),
                    fs2.files(),
                    db.pathname(),
                    gfill_entries(srest),
                );
            }
            let t2 = Tree { entries: hashed };
            proof {
                assert(t2@.entries == gfill_entries(gsub.entries));
                lemma_gfill_hashed(gsub.entries);
                lemma_hashed_oids_set(t2@.entries);
            }
            let oid = match db.store(fs, &t2) {
                Ok(oid) => oid,
                Err(_) => {
                    proof {
                        assert(false);
                    }
                    return vstd::pervasive::unreached();
                },
            };
            proof {
                lemma_grows_stored_of_hashed(t2@.entries);
                lemma_grows_fill(gsub.entries);
                assert(oid@ == gtree_oid(gsub));
                lemma_store_effect_keeps_objects(
                    fs2.files(),
                    fs.files(),
                    db.pathname(),
                    oid@,
                    object_content(tree_kind(), grows_stored(t2@.entries)),
                );
                lemma_entries_stored_preserved(
                    fs2.files(),
                    fs.files(),
                    db.pathname(),
                    gfill_entries(srest),
                );
                lemma_entries_stored_preserved(
                    fs2.files(),
                    fs.files(),
                    db.pathname(),
                    gfill_entries(gsub.entries),
                );
                assert(fs.files().contains_key(object_path_of(db.pathname(), oid@)));
                assert(gtree_objects_stored(
                    fs.files(),
                    db.pathname(),
                    GTree { entries: gfill_entries(gsub.entries) },
                )) by {
                    assert(gtree_oid(GTree { entries: gfill_entries(gsub.entries) }) == oid@);
                }
            }
            let ghost gdone = done@;
            let mut out = done;
            out.push((name, TreeEntry::Tree(t2, Some(oid))));
            proof {
                assert(out@.drop_last() =~= gdone);
                assert(view_entries(out@) == view_entries(out@.drop_last()).push((
                    out@.last().0@,
                    out@.last().1@,
                )));
                assert(gfill_entries(s) == gfill_entries(s.drop_last()).push((
                    s.last().0,
                    gfill_entry(s.last().1),
                )));
                assert(out@.last().0@ == s.last().0);
                assert(out@.last().1@ == GTreeEntry::Tree {
                    tree: GTree { entries: gfill_entries(gsub.entries) },
                    stored: Some(gtree_oid(gsub)),
                });
                assert(out@.last().1@ == gfill_entry(s.last().1));
                assert(view_entries(out@) == gfill_entries(s));
                assert(gfill_entries(s).drop_last() =~= gfill_entries(s.drop_last()));
                assert(gfill_entries(s).last() == (s.last().0, gfill_entry(s.last().1)));
            }
            out
        },
    }
}

impl Tree {
    /// Post-order walk: stores every subtree, recording its identifier,
    /// then stores this tree itself and returns its identifier.  A
    /// subtree's canonical bytes embed its children's identifiers, so
    /// children are always stored first.  Always succeeds, and leaves an
    /// object file behind for this tree and, recursively, for every
    /// subtree of it.
    pub fn traverse(&mut self, db: &Database, fs: &mut MemFs) -> (r: Result<
        ObjectId,
        DatabaseError,
    >)
        requires
            old(fs).wf(),
        ensures
            final(fs).wf(),
            r matches Ok(oid) && {
                &&& oid@ == gtree_oid(old(self)@)
                &&& final(self)@ == gfill(old(self)@)
                &&& gtree_objects_stored(final(fs).files(), db.pathname(), final(self)@)
            },
    {
        let mut tmp = Tree { entries: Vec::new() };
        core::mem::swap(self, &mut tmp);
        let ghost g0 = tmp@;
        let Tree { entries } = tmp;
        let hashed = hash_entries(entries, db, fs);
        let ghost fs2 = *fs;
        let t2 = Tree { entries: hashed };
        proof {
            assert(t2@.entries == gfill_entries(g0.entries));
            lemma_gfill_hashed(t2@.entries);
            lemma_gfill_hashed(g0.entries);
            lemma_hashed_oids_set(t2@.entries);
        }
        let oid = match db.store(fs, &t2) {
            Ok(oid) => oid,
            Err(_) => {
                proof {
                    assert(false);
                }
                return vstd::pervasive::unreached();
            },
        };
        proof {
            lemma_grows_stored_of_hashed(t2@.entries);
            lemma_grows_fill(g0.entries);
            assert(oid@ == gtree_oid(g0));
            lemma_store_effect_keeps_objects(
                fs2.files(),
                fs.files(),
                db.pathname(),
                oid@,
                object_content(tree_kind(), grows_stored(t2@.entries)),
            );
            lemma_entries_stored_preserved(
                fs2.files(),
                fs.files(),
                db.pathname(),
                t2@.entries,
            );
            assert(gtree_oid(t2@) == gtree_oid(g0));
            assert(fs.files().contains_key(object_path_of(db.pathname(), oid@)));
        }
        *self = t2;
        Ok(oid)
    }
}

/// Whenever `p[k]` is a slash and no earlier byte is one, `k` is the
/// first slash.
pub proof fn lemma_first_slash_at(p: Seq<u8>, k: int)
    requires
        0 <= k < p.len(),
        p[k] == slash(),
        forall|j: int| 0 <= j < k ==> p[j] != slash(),
    ensures
        first_slash(p) == k,
    decreases p.len(),
{
    if k > 0 {
        assert(forall|j: int| 0 <= j < k - 1 ==> p.drop_first()[j] != slash());
        lemma_first_slash_at(p.drop_first(), k - 1);
    }
}

} // verus!
