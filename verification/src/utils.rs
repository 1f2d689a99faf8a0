//! Small byte- and path-level helpers shared by the index, the object
//! store and the lockfile: hex encoding, lexicographic byte order, and
//! slash-separated path arithmetic.

use vstd::prelude::*;

verus! {

/// Converts one nibble to its lowercase hexadecimal digit.
pub open spec fn hex_digit(n: u8) -> u8
    recommends
        n < 16,
{
    if n < 10 {
        (0x30 + n) as u8
    } else {
        (0x61 + (n - 10)) as u8
    }
}

/// The lowercase hexadecimal text of a byte sequence, two digits per byte.
pub open spec fn hex_of(bytes: Seq<u8>) -> Seq<u8>
    decreases bytes.len(),
{
    if bytes.len() == 0 {
        Seq::empty()
    } else {
        seq![hex_digit(bytes[0] / 16), hex_digit(bytes[0] % 16)] + hex_of(bytes.drop_first())
    }
}

pub proof fn lemma_hex_of_len(bytes: Seq<u8>)
    ensures
        hex_of(bytes).len() == 2 * bytes.len(),
    decreases bytes.len(),
{
    if bytes.len() > 0 {
        lemma_hex_of_len(bytes.drop_first());
    }
}

/// Every byte of a hex encoding is a lowercase hexadecimal digit, and in
/// particular never a slash or a NUL byte.
pub proof fn lemma_hex_of_digits(bytes: Seq<u8>)
    ensures
        forall|i: int|
            0 <= i < hex_of(bytes).len() ==> (0x30 <= #[trigger] hex_of(bytes)[i] <= 0x39 || 0x61
                <= hex_of(bytes)[i] <= 0x66),
    decreases bytes.len(),
{
    if bytes.len() > 0 {
        lemma_hex_of_digits(bytes.drop_first());
        assert forall|i: int| 0 <= i < hex_of(bytes).len() implies (0x30 <= #[trigger] hex_of(
            bytes,
        )[i] <= 0x39 || 0x61 <= hex_of(bytes)[i] <= 0x66) by {
            if i >= 2 {
                assert(hex_of(bytes)[i] == hex_of(bytes.drop_first())[i - 2]);
            }
        }
    }
}

proof fn lemma_hex_of_snoc(bytes: Seq<u8>, i: int)
    requires
        0 <= i < bytes.len(),
    ensures
        hex_of(bytes.take(i + 1)) == hex_of(bytes.take(i)) + seq![
            hex_digit(bytes[i] / 16),
            hex_digit(bytes[i] % 16),
        ],
    decreases i,
{
    if i == 0 {
        assert(bytes.take(1)[0] == bytes[0]);
        assert(bytes.take(1).drop_first() =~= Seq::<u8>::empty());
        assert(hex_of(bytes.take(0)) =~= Seq::<u8>::empty());
        assert(bytes.take(1).len() == 1);
        assert(hex_of(bytes.take(1)) == seq![
            hex_digit(bytes.take(1)[0] / 16),
            hex_digit(bytes.take(1)[0] % 16),
        ] + hex_of(bytes.take(1).drop_first()));
        assert(hex_of(bytes.take(1).drop_first()) =~= Seq::<u8>::empty());
        assert(hex_of(bytes.take(1)) =~= hex_of(bytes.take(0)) + seq![
            hex_digit(bytes[0] / 16),
            hex_digit(bytes[0] % 16),
        ]);
    } else {
        lemma_hex_of_snoc(bytes.drop_first(), i - 1);
        assert(bytes.take(i + 1)[0] == bytes[0]);
        assert(bytes.take(i)[0] == bytes[0]);
        assert(bytes.take(i + 1).drop_first() =~= bytes.drop_first().take(i));
        assert(bytes.take(i).drop_first() =~= bytes.drop_first().take(i - 1));
        assert(hex_of(bytes.take(i + 1)) =~= hex_of(bytes.take(i)) + seq![
            hex_digit(bytes[i] / 16),
            hex_digit(bytes[i] % 16),
        ]);
    }
}

/// Hex-encodes a byte slice into lowercase ASCII digits.
pub fn bytes_to_hex_string(bytes: &[u8]) -> (r: Vec<u8>)
    ensures
        r@ == hex_of(bytes@),
{
    let mut out: Vec<u8> = Vec::new();
    let mut i: usize = 0;
    while i < bytes.len()
        invariant
            i <= bytes.len(),
            out@ == hex_of(bytes@.take(i as int)),
        decreases bytes.len() - i,
    {
        let b = bytes[i];
        out.push(if b / 16 < 10 {
            0x30 + b / 16
        } else {
            0x61 + (b / 16 - 10)
        });
        out.push(if b % 16 < 10 {
            0x30 + b % 16
        } else {
            0x61 + (b % 16 - 10)
        });
        proof {
            lemma_hex_of_snoc(bytes@, i as int);
        }
        i = i + 1;
    }
    proof {
        assert(bytes@.take(bytes@.len() as int) =~= bytes@);
    }
    out
}

/// Determines from a file's mode bits whether it is executable: the
/// owner-execute bit decides.
pub fn is_executable(mode: u32) -> (r: bool)
    ensures
        r == (mode & 0o100 != 0),
{
    mode & 0o100 != 0
}

/// Strict lexicographic order on byte sequences.
pub open spec fn lex_lt(a: Seq<u8>, b: Seq<u8>) -> bool
    decreases a.len(),
{
    if b.len() == 0 {
        false
    } else if a.len() == 0 {
        true
    } else if a[0] < b[0] {
        true
    } else if a[0] > b[0] {
        false
    } else {
        lex_lt(a.drop_first(), b.drop_first())
    }
}

pub open spec fn lex_leq(a: Seq<u8>, b: Seq<u8>) -> bool {
    lex_lt(a, b) || a == b
}

/// Lexicographic order is irreflexive and total: of two distinct byte
/// sequences, exactly one is smaller.
pub proof fn lemma_lex_lt_trichotomy(a: Seq<u8>, b: Seq<u8>)
    ensures
        lex_lt(a, b) || lex_lt(b, a) || a == b,
        !(lex_lt(a, b) && lex_lt(b, a)),
        lex_lt(a, b) ==> a != b,
    decreases a.len(),
{
    if a.len() > 0 && b.len() > 0 && a[0] == b[0] {
        lemma_lex_lt_trichotomy(a.drop_first(), b.drop_first());
        if a.drop_first() == b.drop_first() {
            assert forall|i: int| 0 <= i < a.len() implies a[i] == b[i] by {
                if i > 0 {
                    assert(a[i] == a.drop_first()[i - 1]);
                    assert(b[i] == b.drop_first()[i - 1]);
                }
            }
            assert(a =~= b);
        }
        if a == b {
            assert(a.drop_first() =~= b.drop_first());
        }
    } else if a == b {
        assert(a.len() == b.len());
    }
}

pub proof fn lemma_lex_lt_trans(a: Seq<u8>, b: Seq<u8>, c: Seq<u8>)
    requires
        lex_lt(a, b),
        lex_lt(b, c),
    ensures
        lex_lt(a, c),
    decreases a.len(),
{
    if a.len() > 0 && b.len() > 0 && c.len() > 0 && a[0] == b[0] && b[0] == c[0] {
        lemma_lex_lt_trans(a.drop_first(), b.drop_first(), c.drop_first());
    }
}

/// Compares two byte slices in lexicographic order.
pub fn bytes_lt(a: &[u8], b: &[u8]) -> (r: bool)
    ensures
        r == lex_lt(a@, b@),
{
    let mut i: usize = 0;
    proof {
        assert(a@.skip(0) =~= a@);
        assert(b@.skip(0) =~= b@);
    }
    loop
        invariant
            i <= a.len(),
            i <= b.len(),
            a@.take(i as int) == b@.take(i as int),
            lex_lt(a@, b@) == lex_lt(a@.skip(i as int), b@.skip(i as int)),
        decreases a.len() - i,
    {
        if i == b.len() {
            return false;
        }
        if i == a.len() {
            return true;
        }
        if a[i] < b[i] {
            return true;
        }
        if a[i] > b[i] {
            return false;
        }
        proof {
            assert(a@.skip(i as int).drop_first() =~= a@.skip(i + 1));
            assert(b@.skip(i as int).drop_first() =~= b@.skip(i + 1));
            assert(a@.take(i + 1) =~= b@.take(i + 1));
        }
        i = i + 1;
    }
}

/// Tests two byte slices for equality.
pub fn bytes_eq(a: &[u8], b: &[u8]) -> (r: bool)
    ensures
        r == (a@ == b@),
{
    if a.len() != b.len() {
        proof {
            assert(a@.len() != b@.len());
        }
        return false;
    }
    let mut i: usize = 0;
    while i < a.len()
        invariant
            i <= a.len(),
            a@.len() == b@.len(),
            a@.take(i as int) == b@.take(i as int),
        decreases a.len() - i,
    {
        if a[i] != b[i] {
            proof {
                assert(a@[i as int] != b@[i as int]);
            }
            return false;
        }
        proof {
            assert(a@.take(i + 1) =~= b@.take(i + 1));
        }
        i = i + 1;
    }
    proof {
        assert(a@.take(a@.len() as int) =~= a@);
        assert(b@.take(b@.len() as int) =~= b@);
    }
    true
}

/// The byte that separates path segments.
pub open spec fn slash() -> u8 {
    47
}

/// `q` names a directory that lies strictly above the path `p`.
pub open spec fn is_ancestor(q: Seq<u8>, p: Seq<u8>) -> bool {
    &&& q.len() < p.len()
    &&& p.take(q.len() as int) == q
    &&& p[q.len() as int] == slash()
}

/// Index of the last slash in `p`, or -1 when `p` has none.
pub open spec fn last_slash(p: Seq<u8>) -> int
    decreases p.len(),
{
    if p.len() == 0 {
        -1
    } else if p[p.len() - 1] == slash() {
        p.len() - 1
    } else {
        last_slash(p.drop_last())
    }
}

/// The directory that directly contains `p`; the root is the empty path.
pub open spec fn parent_of(p: Seq<u8>) -> Seq<u8> {
    if last_slash(p) < 0 {
        Seq::empty()
    } else {
        p.take(last_slash(p))
    }
}

pub proof fn lemma_last_slash_range(p: Seq<u8>)
    ensures
        -1 <= last_slash(p) < p.len(),
        last_slash(p) >= 0 ==> p[last_slash(p)] == slash(),
        forall|j: int| last_slash(p) < j < p.len() ==> p[j] != slash(),
    decreases p.len(),
{
    if p.len() > 0 && p[p.len() - 1] != slash() {
        lemma_last_slash_range(p.drop_last());
        assert forall|j: int| last_slash(p) < j < p.len() implies p[j] != slash() by {
            if j < p.len() - 1 {
                assert(p[j] == p.drop_last()[j]);
            }
        }
    }
}

/// Whenever `p[k]` is a slash and no later byte is one, `k` is the last slash.
pub proof fn lemma_last_slash_at(p: Seq<u8>, k: int)
    requires
        0 <= k < p.len(),
        p[k] == slash(),
        forall|j: int| k < j < p.len() ==> p[j] != slash(),
    ensures
        last_slash(p) == k,
    decreases p.len(),
{
    if k == p.len() - 1 {
    } else {
        assert(p[p.len() - 1] != slash());
        lemma_last_slash_at(p.drop_last(), k);
    }
}

/// Computes the parent directory of a path: everything before the last
/// slash, or the empty (root) path when there is none.
pub fn parent_dir(p: &[u8]) -> (r: Vec<u8>)
    ensures
        r@ == parent_of(p@),
{
    proof {
        lemma_last_slash_range(p@);
    }
    let mut j: usize = p.len();
    while j > 0
        invariant
            j <= p.len(),
            forall|t: int| j <= t < p@.len() ==> p@[t] != slash(),
        decreases j,
    {
        if p[j - 1] == 47 {
            proof {
                lemma_last_slash_at(p@, j - 1);
            }
            let mut out: Vec<u8> = Vec::new();
            let mut i: usize = 0;
            while i < j - 1
                invariant
                    i <= j - 1 <= p@.len(),
                    out@ == p@.take(i as int),
                decreases j - 1 - i,
            {
                out.push(p[i]);
                proof {
                    assert(out@ =~= p@.take(i + 1));
                }
                i = i + 1;
            }
            return out;
        }
        j = j - 1;
    }
    proof {
        if last_slash(p@) >= 0 {
            assert(p@[last_slash(p@)] == slash());
        }
    }
    Vec::new()
}

/// Lists the ancestor directories of a path, nearest the root first:
/// every proper prefix that ends just before a slash.
pub fn parent_directories(path: &[u8]) -> (r: Vec<Vec<u8>>)
    ensures
        forall|i: int| 0 <= i < r@.len() ==> is_ancestor(#[trigger] r@[i]@, path@),
        forall|q: Seq<u8>| is_ancestor(q, path@) ==> exists|i: int| 0 <= i < r@.len() && r@[i]@ == q,
        forall|i: int, j: int| 0 <= i < j < r@.len() ==> r@[i]@.len() < r@[j]@.len(),
{
    let mut out: Vec<Vec<u8>> = Vec::new();
    let mut cur: Vec<u8> = Vec::new();
    let mut j: usize = 0;
    while j < path.len()
        invariant
            j <= path.len(),
            cur@ == path@.take(j as int),
            forall|i: int| 0 <= i < out@.len() ==> is_ancestor(#[trigger] out@[i]@, path@),
            forall|i: int| 0 <= i < out@.len() ==> out@[i]@.len() < j,
            forall|q: Seq<u8>|
                is_ancestor(q, path@) && q.len() < j ==> exists|i: int|
                    0 <= i < out@.len() && out@[i]@ == q,
            forall|i: int, k: int| 0 <= i < k < out@.len() ==> out@[i]@.len() < out@[k]@.len(),
        decreases path.len() - j,
    {
        if path[j] == 47 {
            let ghost prev = out@;
            let snapshot = cur.clone();
            proof {
                assert(snapshot@ =~= cur@);
                assert(is_ancestor(snapshot@, path@));
            }
            out.push(snapshot);
            proof {
                assert forall|q: Seq<u8>| is_ancestor(q, path@) && q.len() < j + 1 implies exists|
                    i: int,
                |
                    0 <= i < out@.len() && out@[i]@ == q by {
                    if q.len() < j {
                        let i = choose|i: int| 0 <= i < prev.len() && prev[i]@ == q;
                        assert(out@[i]@ == q);
                    } else {
                        assert(q =~= path@.take(j as int));
                        assert(out@[out@.len() - 1]@ == q);
                    }
                }
            }
        } else {
            proof {
                assert forall|q: Seq<u8>| is_ancestor(q, path@) && q.len() < j + 1 implies q.len()
                    < j by {
                    if q.len() == j {
                        assert(path@[q.len() as int] != slash());
                    }
                }
            }
        }
        cur.push(path[j]);
        proof {
            assert(cur@ =~= path@.take(j + 1));
        }
        j = j + 1;
    }
    out
}

/// Appends a dotted extension to a path, as `<path>.<ext>`.
pub fn add_extension(path: &mut Vec<u8>, extension: &[u8])
    ensures
        final(path)@ == old(path)@ + seq![0x2eu8] + extension@,
{
    path.push(0x2e);
    let mut i: usize = 0;
    while i < extension.len()
        invariant
            i <= extension.len(),
            path@ == old(path)@ + seq![0x2eu8] + extension@.take(i as int),
        decreases extension.len() - i,
    {
        path.push(extension[i]);
        proof {
            assert(path@ =~= old(path)@ + seq![0x2eu8] + extension@.take(i + 1));
        }
        i = i + 1;
    }
    proof {
        assert(extension@.take(extension@.len() as int) =~= extension@);
    }
}

/// The non-empty slash-separated segments of a path, "." and ".."
/// included.
pub open spec fn path_components(p: Seq<u8>) -> Seq<Seq<u8>>
    decreases p.len(),
    via path_components_decreases
{
    if p.len() == 0 {
        Seq::empty()
    } else if p.last() == slash() {
        path_components(p.drop_last())
    } else {
        let s = last_slash(p);
        path_components(p.take(s + 1)) + seq![p.skip(s + 1)]
    }
}

#[via_fn]
proof fn path_components_decreases(p: Seq<u8>) {
    lemma_last_slash_range(p);
}

/// The ".." segment.
pub open spec fn dotdot() -> Seq<u8> {
    seq![0x2eu8, 0x2eu8]
}

/// The "." segment.
pub open spec fn dot() -> Seq<u8> {
    seq![0x2eu8]
}

/// Whether a path is absolute.
pub open spec fn is_absolute(p: Seq<u8>) -> bool {
    p.len() > 0 && p[0] == slash()
}

/// The walk that relativizes one component list against another:
/// matching leading segments are skipped, every further segment of the
/// base becomes "..", a ".." in the base that no longer matches gives
/// nothing, and the rest of the target is kept.
pub open spec fn diff_components(
    a: Seq<Seq<u8>>,
    b: Seq<Seq<u8>>,
    i: int,
    j: int,
    empty: bool,
) -> Option<Seq<Seq<u8>>>
    decreases a.len() - i + (b.len() - j) + 1,
{
    if i < 0 || j < 0 || i > a.len() || j > b.len() {
        None
    } else if i == a.len() && j == b.len() {
        Some(Seq::empty())
    } else if i < a.len() && j == b.len() {
        Some(a.skip(i))
    } else if i == a.len() {
        match diff_components(a, b, i, j + 1, false) {
            Some(rest) => Some(seq![dotdot()] + rest),
            None => None,
        }
    } else if empty && a[i] == b[j] {
        diff_components(a, b, i + 1, j + 1, true)
    } else if b[j] == dot() {
        match diff_components(a, b, i + 1, j + 1, false) {
            Some(rest) => Some(seq![a[i]] + rest),
            None => None,
        }
    } else if b[j] == dotdot() {
        None
    } else {
        Some(Seq::new((b.len() - j) as nat, |k: int| dotdot()) + a.skip(i))
    }
}

/// Glues components back together with slashes.
pub open spec fn join_components(cs: Seq<Seq<u8>>) -> Seq<u8>
    decreases cs.len(),
{
    if cs.len() == 0 {
        Seq::empty()
    } else if cs.len() == 1 {
        cs[0]
    } else {
        join_components(cs.drop_last()) + seq![slash()] + cs.last()
    }
}

/// What relativizing `path` against `base` yields: the target itself
/// when only it is absolute, nothing when they cannot be related, and
/// otherwise the joined walk of their component lists.
pub open spec fn diff_paths_spec(path: Seq<u8>, base: Seq<u8>) -> Option<Seq<u8>> {
    if is_absolute(path) != is_absolute(base) {
        if is_absolute(path) {
            Some(path)
        } else {
            None
        }
    } else {
        match diff_components(path_components(path), path_components(base), 0, 0, true) {
            Some(cs) => Some(join_components(cs)),
            None => None,
        }
    }
}

/// Splits a path into its non-empty segments.
fn split_components(p: &[u8]) -> (r: Vec<Vec<u8>>)
    ensures
        r@.map_values(|v: Vec<u8>| v@) == path_components(p@),
    decreases p@.len(),
{
    proof {
        lemma_last_slash_range(p@);
    }
    if p.len() == 0 {
        let r: Vec<Vec<u8>> = Vec::new();
        proof {
            assert(r@.map_values(|v: Vec<u8>| v@) =~= path_components(p@));
        }
        return r;
    }
    if p[p.len() - 1] == 47 {
        let mut shorter: Vec<u8> = Vec::new();
        let mut i: usize = 0;
        while i < p.len() - 1
            invariant
                i <= p@.len() - 1,
                shorter@ == p@.take(i as int),
            decreases p@.len() - 1 - i,
        {
            shorter.push(p[i]);
            proof {
                assert(shorter@ =~= p@.take(i + 1));
            }
            i = i + 1;
        }
        proof {
            assert(shorter@ =~= p@.drop_last());
        }
        return split_components(shorter.as_slice());
    }
    let prefix = prefix_through_last_slash(p);
    let mut seg: Vec<u8> = Vec::new();
    let mut j: usize = prefix.len();
    while j < p.len()
        invariant
            prefix@.len() <= j <= p@.len(),
            seg@ == p@.subrange(prefix@.len() as int, j as int),
        decreases p@.len() - j,
    {
        seg.push(p[j]);
        proof {
            assert(seg@ =~= p@.subrange(prefix@.len() as int, j + 1));
        }
        j = j + 1;
    }
    let mut r = split_components(prefix.as_slice());
    proof {
        assert(seg@ =~= p@.skip(last_slash(p@) + 1));
    }
    let ghost before = r@;
    r.push(seg);
    proof {
        assert(r@.map_values(|v: Vec<u8>| v@) =~= before.map_values(|v: Vec<u8>| v@).push(
            p@.skip(last_slash(p@) + 1),
        ));
        assert(r@.map_values(|v: Vec<u8>| v@) =~= path_components(p@));
    }
    r
}

/// Copies the prefix of `p` up to and including its last slash; empty
/// when it has none.
fn prefix_through_last_slash(p: &[u8]) -> (r: Vec<u8>)
    ensures
        r@ == p@.take(last_slash(p@) + 1),
{
    proof {
        lemma_last_slash_range(p@);
    }
    let mut j: usize = p.len();
    while j > 0
        invariant
            j <= p@.len(),
            forall|t: int| j <= t < p@.len() ==> p@[t] != slash(),
        decreases j,
    {
        if p[j - 1] == 47 {
            proof {
                lemma_last_slash_at(p@, j - 1);
            }
            let mut out: Vec<u8> = Vec::new();
            let mut i: usize = 0;
            while i < j
                invariant
                    i <= j <= p@.len(),
                    out@ == p@.take(i as int),
                decreases j - i,
            {
                out.push(p[i]);
                proof {
                    assert(out@ =~= p@.take(i + 1));
                }
                i = i + 1;
            }
            return out;
        }
        j = j - 1;
    }
    proof {
        if last_slash(p@) >= 0 {
            assert(p@[last_slash(p@)] == slash());
        }
        assert(p@.take(0) =~= Seq::<u8>::empty());
    }
    Vec::new()
}

/// The walk over the two component lists, from positions `i` and `j`.
fn diff_rec(a: &Vec<Vec<u8>>, b: &Vec<Vec<u8>>, i: usize, j: usize, empty: bool) -> (r: Option<
    Vec<Vec<u8>>,
>)
    requires
        i <= a@.len(),
        j <= b@.len(),
    ensures
        ({
            let ga = a@.map_values(|v: Vec<u8>| v@);
            let gb = b@.map_values(|v: Vec<u8>| v@);
            match r {
                Some(cs) => diff_components(ga, gb, i as int, j as int, empty) == Some(
                    cs@.map_values(|v: Vec<u8>| v@),
                ),
                None => diff_components(ga, gb, i as int, j as int, empty) is None,
            }
        }),
    decreases a@.len() - i + (b@.len() - j) + 1,
{
    let ghost ga = a@.map_values(|v: Vec<u8>| v@);
    let ghost gb = b@.map_values(|v: Vec<u8>| v@);
    if i == a.len() && j == b.len() {
        let r: Vec<Vec<u8>> = Vec::new();
        proof {
            assert(r@.map_values(|v: Vec<u8>| v@) =~= Seq::<Seq<u8>>::empty());
        }
        return Some(r);
    }
    if i < a.len() && j == b.len() {
        let mut out: Vec<Vec<u8>> = Vec::new();
        let mut k: usize = i;
        while k < a.len()
            invariant
                i <= k <= a@.len(),
                ga == a@.map_values(|v: Vec<u8>| v@),
                out@.map_values(|v: Vec<u8>| v@) == ga.subrange(i as int, k as int),
            decreases a@.len() - k,
        {
            let mut seg: Vec<u8> = Vec::new();
            seg.extend_from_slice(a[k].as_slice());
            proof {
                assert(seg@ =~= ga[k as int]);
            }
            let ghost before = out@;
            out.push(seg);
            proof {
                assert(out@.map_values(|v: Vec<u8>| v@) =~= before.map_values(
                    |v: Vec<u8>| v@,
                ).push(ga[k as int]));
                assert(out@.map_values(|v: Vec<u8>| v@) =~= ga.subrange(i as int, k + 1));
            }
            k = k + 1;
        }
        proof {
            assert(ga.subrange(i as int, ga.len() as int) =~= ga.skip(i as int));
        }
        return Some(out);
    }
    if i == a.len() {
        match diff_rec(a, b, i, j + 1, false) {
            Some(rest) => {
                let mut out: Vec<Vec<u8>> = Vec::new();
                let mut dd: Vec<u8> = Vec::new();
                dd.push(0x2e);
                dd.push(0x2e);
                proof {
                    assert(dd@ =~= dotdot());
                }
                out.push(dd);
                let ghost rest_views = rest@.map_values(|v: Vec<u8>| v@);
                let mut k: usize = 0;
                while k < rest.len()
                    invariant
                        k <= rest@.len(),
                        rest_views == rest@.map_values(|v: Vec<u8>| v@),
                        out@.map_values(|v: Vec<u8>| v@) == seq![dotdot()] + rest_views.take(
                            k as int,
                        ),
                    decreases rest@.len() - k,
                {
                    let mut seg: Vec<u8> = Vec::new();
                    seg.extend_from_slice(rest[k].as_slice());
                    proof {
                        assert(seg@ =~= rest_views[k as int]);
                    }
                    let ghost before = out@;
                    out.push(seg);
                    proof {
                        assert(out@.map_values(|v: Vec<u8>| v@) =~= before.map_values(
                            |v: Vec<u8>| v@,
                        ).push(rest_views[k as int]));
                        assert(out@.map_values(|v: Vec<u8>| v@) =~= seq![dotdot()]
                            + rest_views.take(k + 1));
                    }
                    k = k + 1;
                }
                proof {
                    assert(rest_views.take(rest_views.len() as int) =~= rest_views);
                }
                return Some(out);
            },
            None => {
                return None;
            },
        }
    }
    let empty_next = empty && bytes_eq(a[i].as_slice(), b[j].as_slice());
    if empty_next {
        return diff_rec(a, b, i + 1, j + 1, true);
    }
    let dot_seg: [u8; 1] = [0x2e];
    let dotdot_seg: [u8; 2] = [0x2e, 0x2e];
    if bytes_eq(b[j].as_slice(), dot_seg.as_slice()) {
        proof {
            assert(gb[j as int] == dot());
        }
        match diff_rec(a, b, i + 1, j + 1, false) {
            Some(rest) => {
                let mut out: Vec<Vec<u8>> = Vec::new();
                let mut seg: Vec<u8> = Vec::new();
                seg.extend_from_slice(a[i].as_slice());
                proof {
                    assert(seg@ =~= ga[i as int]);
                }
                out.push(seg);
                let ghost rest_views = rest@.map_values(|v: Vec<u8>| v@);
                let mut k: usize = 0;
                while k < rest.len()
                    invariant
                        k <= rest@.len(),
                        rest_views == rest@.map_values(|v: Vec<u8>| v@),
                        ga == a@.map_values(|v: Vec<u8>| v@),
                        i < a@.len(),
                        out@.map_values(|v: Vec<u8>| v@) == seq![ga[i as int]] + rest_views.take(
                            k as int,
                        ),
                    decreases rest@.len() - k,
                {
                    let mut seg2: Vec<u8> = Vec::new();
                    seg2.extend_from_slice(rest[k].as_slice());
                    proof {
                        assert(seg2@ =~= rest_views[k as int]);
                    }
                    let ghost before = out@;
                    out.push(seg2);
                    proof {
                        assert(out@.map_values(|v: Vec<u8>| v@) =~= before.map_values(
                            |v: Vec<u8>| v@,
                        ).push(rest_views[k as int]));
                        assert(out@.map_values(|v: Vec<u8>| v@) =~= seq![ga[i as int]]
                            + rest_views.take(k + 1));
                    }
                    k = k + 1;
                }
                proof {
                    assert(rest_views.take(rest_views.len() as int) =~= rest_views);
                }
                return Some(out);
            },
            None => {
                return None;
            },
        }
    }
    if bytes_eq(b[j].as_slice(), dotdot_seg.as_slice()) {
        proof {
            assert(gb[j as int] == dotdot());
        }
        return None;
    }
    proof {
        assert(gb[j as int] == b@[j as int]@);
        assert(dot_seg@ =~= dot());
        assert(dotdot_seg@ =~= dotdot());
        assert(gb[j as int] != dot() && gb[j as int] != dotdot());
    }
    let mut out: Vec<Vec<u8>> = Vec::new();
    let mut k: usize = j;
    let ghost target = Seq::new((gb.len() - j) as nat, |t: int| dotdot());
    while k < b.len()
        invariant
            j <= k <= b@.len(),
            target == Seq::new((gb.len() - j) as nat, |t: int| dotdot()),
            gb == b@.map_values(|v: Vec<u8>| v@),
            out@.map_values(|v: Vec<u8>| v@) == target.take(k - j),
        decreases b@.len() - k,
    {
        let mut dd: Vec<u8> = Vec::new();
        dd.push(0x2e);
        dd.push(0x2e);
        proof {
            assert(dd@ =~= dotdot());
        }
        let ghost before = out@;
        out.push(dd);
        proof {
            assert(out@.map_values(|v: Vec<u8>| v@) =~= before.map_values(|v: Vec<u8>| v@).push(
                dotdot(),
            ));
            assert(out@.map_values(|v: Vec<u8>| v@) =~= target.take(k + 1 - j));
        }
        k = k + 1;
    }
    let mut m: usize = i;
    while m < a.len()
        invariant
            i <= m <= a@.len(),
            target == Seq::new((gb.len() - j) as nat, |t: int| dotdot()),
            ga == a@.map_values(|v: Vec<u8>| v@),
            out@.map_values(|v: Vec<u8>| v@) == target + ga.subrange(i as int, m as int),
        decreases a@.len() - m,
    {
        let mut seg: Vec<u8> = Vec::new();
        seg.extend_from_slice(a[m].as_slice());
        proof {
            assert(seg@ =~= ga[m as int]);
        }
        let ghost before = out@;
        out.push(seg);
        proof {
            assert(out@.map_values(|v: Vec<u8>| v@) =~= before.map_values(|v: Vec<u8>| v@).push(
                ga[m as int],
            ));
            assert(out@.map_values(|v: Vec<u8>| v@) =~= target + ga.subrange(i as int, m + 1));
        }
        m = m + 1;
    }
    proof {
        assert(ga.subrange(i as int, ga.len() as int) =~= ga.skip(i as int));
        assert(target.take(gb.len() - j) =~= target);
    }
    Some(out)
}

/// Joins components back into one path with slashes between them.
fn join_path(cs: &Vec<Vec<u8>>) -> (r: Vec<u8>)
    ensures
        r@ == join_components(cs@.map_values(|v: Vec<u8>| v@)),
{
    let ghost views = cs@.map_values(|v: Vec<u8>| v@);
    let mut out: Vec<u8> = Vec::new();
    let mut k: usize = 0;
    proof {
        assert(join_components(views.take(0)) =~= Seq::<u8>::empty());
    }
    while k < cs.len()
        invariant
            k <= cs@.len(),
            views == cs@.map_values(|v: Vec<u8>| v@),
            out@ == join_components(views.take(k as int)),
        decreases cs@.len() - k,
    {
        if k > 0 {
            out.push(47);
        }
        out.extend_from_slice(cs[k].as_slice());
        proof {
            assert(views.take(k + 1).drop_last() =~= views.take(k as int));
            assert(views.take(k + 1).last() == views[k as int]);
            if k == 0 {
                assert(out@ =~= views[0]);
                assert(join_components(views.take(1)) == views.take(1)[0]);
                assert(views.take(1)[0] == views[0]);
            } else {
                assert(out@ =~= join_components(views.take(k as int)) + seq![slash()]
                    + views[k as int]);
            }
        }
        k = k + 1;
    }
    proof {
        assert(views.take(views.len() as int) =~= views);
    }
    out
}

/// Expresses `path` relative to `base`, where both are repo paths: the
/// walk of their segment lists, or the target itself when only it is
/// absolute, or nothing when they cannot be related.
pub fn diff_paths(path: &[u8], base: &[u8]) -> (r: Option<Vec<u8>>)
    ensures
        match r {
            Some(v) => diff_paths_spec(path@, base@) == Some(v@),
            None => diff_paths_spec(path@, base@) is None,
        },
{
    let path_abs = path.len() > 0 && path[0] == 47;
    let base_abs = base.len() > 0 && base[0] == 47;
    if path_abs != base_abs {
        if path_abs {
            let mut whole: Vec<u8> = Vec::new();
            whole.extend_from_slice(path);
            proof {
                assert(whole@ =~= path@);
            }
            return Some(whole);
        }
        return None;
    }
    let a = split_components(path);
    let b = split_components(base);
    match diff_rec(&a, &b, 0, 0, true) {
        Some(cs) => Some(join_path(&cs)),
        None => None,
    }
}

/// Removes the first `N` items of a vector and hands them back as an array.
pub fn drain_to_array<T: Default + Copy, const N: usize>(data: &mut Vec<T>) -> (arr: [T; N])
    requires
        old(data)@.len() >= N,
    ensures
        arr@ == old(data)@.take(N as int),
        final(data)@ == old(data)@.skip(N as int),
{
    let mut arr: [T; N] = [T::default(); N];
    let mut i: usize = 0;
    while i < N
        invariant
            i <= N <= data@.len(),
            data@ == old(data)@,
            arr@.len() == N,
            forall|k: int| 0 <= k < i ==> arr@[k] == data@[k],
        decreases N - i,
    {
        arr[i] = data[i];
        i = i + 1;
    }
    let mut rest: Vec<T> = Vec::new();
    let mut j: usize = N;
    while j < data.len()
        invariant
            N <= j <= data@.len(),
            data@ == old(data)@,
            rest@ == data@.subrange(N as int, j as int),
        decreases data@.len() - j,
    {
        let x = data[j];
        rest.push(x);
        proof {
            assert(rest@ =~= data@.subrange(N as int, j + 1));
        }
        j = j + 1;
    }
    *data = rest;
    proof {
        assert(arr@ =~= old(data)@.take(N as int));
        assert(data@ =~= old(data)@.skip(N as int));
    }
    arr
}

} // verus!
