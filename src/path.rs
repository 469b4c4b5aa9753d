//! Byte-wise ordering of paths and the directory-prefix relation.

use vstd::prelude::*;

verus! {

/// Strict lexicographic order on byte strings.
pub open spec fn bytes_lt(a: Seq<u8>, b: Seq<u8>) -> bool
    decreases a.len(),
{
    if a.len() == 0 {
        b.len() > 0
    } else if b.len() == 0 {
        false
    } else if a[0] != b[0] {
        a[0] < b[0]
    } else {
        bytes_lt(a.drop_first(), b.drop_first())
    }
}

/// `q` names a directory that holds `p`: `p` is `q`, a slash, and more.
pub open spec fn is_dir_prefix(q: Seq<u8>, p: Seq<u8>) -> bool {
    &&& q.len() < p.len()
    &&& p[q.len() as int] == 47
    &&& p.subrange(0, q.len() as int) == q
}

/// Two paths that cannot both be staged: one is a directory holding the other.
pub open spec fn paths_conflict(a: Seq<u8>, b: Seq<u8>) -> bool {
    is_dir_prefix(a, b) || is_dir_prefix(b, a)
}

pub proof fn lemma_lt_irreflexive(a: Seq<u8>)
    ensures
        !bytes_lt(a, a),
    decreases a.len(),
{
    if a.len() > 0 {
        lemma_lt_irreflexive(a.drop_first());
    }
}

pub proof fn lemma_lt_transitive(a: Seq<u8>, b: Seq<u8>, c: Seq<u8>)
    requires
        bytes_lt(a, b),
        bytes_lt(b, c),
    ensures
        bytes_lt(a, c),
    decreases a.len(),
{
    if a.len() > 0 && b.len() > 0 && c.len() > 0 && a[0] == b[0] && b[0] == c[0] {
        lemma_lt_transitive(a.drop_first(), b.drop_first(), c.drop_first());
    }
}

pub proof fn lemma_lt_total(a: Seq<u8>, b: Seq<u8>)
    requires
        a != b,
    ensures
        bytes_lt(a, b) || bytes_lt(b, a),
    decreases a.len(),
{
    if a.len() > 0 && b.len() > 0 && a[0] == b[0] {
        if a.drop_first() == b.drop_first() {
            assert(a =~= seq![a[0]] + a.drop_first());
            assert(b =~= seq![b[0]] + b.drop_first());
        }
        lemma_lt_total(a.drop_first(), b.drop_first());
    } else if a.len() == 0 && b.len() == 0 {
        assert(a =~= b);
    }
}

pub proof fn lemma_lt_asymmetric(a: Seq<u8>, b: Seq<u8>)
    requires
        bytes_lt(a, b),
    ensures
        !bytes_lt(b, a),
    decreases a.len(),
{
    if a.len() > 0 && b.len() > 0 && a[0] == b[0] {
        lemma_lt_asymmetric(a.drop_first(), b.drop_first());
    }
}

proof fn lemma_lt_skip(a: Seq<u8>, b: Seq<u8>, i: int)
    requires
        0 <= i <= a.len(),
        i <= b.len(),
        a.subrange(0, i) == b.subrange(0, i),
    ensures
        bytes_lt(a, b) == bytes_lt(a.subrange(i, a.len() as int), b.subrange(i, b.len() as int)),
    decreases i,
{
    if i > 0 {
        assert(a[0] == a.subrange(0, i)[0]);
        assert(b[0] == b.subrange(0, i)[0]);
        assert(a.drop_first().subrange(0, i - 1) =~= a.subrange(0, i).drop_first());
        assert(b.drop_first().subrange(0, i - 1) =~= b.subrange(0, i).drop_first());
        lemma_lt_skip(a.drop_first(), b.drop_first(), i - 1);
        assert(a.drop_first().subrange(i - 1, a.len() - 1) =~= a.subrange(i, a.len() as int));
        assert(b.drop_first().subrange(i - 1, b.len() - 1) =~= b.subrange(i, b.len() as int));
    } else {
        assert(a.subrange(0, a.len() as int) =~= a);
        assert(b.subrange(0, b.len() as int) =~= b);
    }
}

/// Whether `a` sorts strictly before `b`, byte by byte.
pub fn less_than(a: &[u8], b: &[u8]) -> (r: bool)
    ensures
        r == bytes_lt(a@, b@),
{
    let mut i: usize = 0;
    while i < a.len() && i < b.len()
        invariant
            i <= a@.len(),
            i <= b@.len(),
            a@.subrange(0, i as int) == b@.subrange(0, i as int),
        decreases a@.len() - i,
    {
        if a[i] != b[i] {
            proof {
                lemma_lt_skip(a@, b@, i as int);
                let sa = a@.subrange(i as int, a@.len() as int);
                assert(sa[0] == a@[i as int]);
                let sb = b@.subrange(i as int, b@.len() as int);
                assert(sb[0] == b@[i as int]);
            }
            return a[i] < b[i];
        }
        assert(a@.subrange(0, i + 1) =~= a@.subrange(0, i as int).push(a@[i as int]));
        assert(b@.subrange(0, i + 1) =~= b@.subrange(0, i as int).push(b@[i as int]));
        i = i + 1;
    }
    proof {
        lemma_lt_skip(a@, b@, i as int);
    }
    i == a.len() && i < b.len()
}

/// Whether `q` names a directory that holds `p`.
pub fn dir_prefix(q: &[u8], p: &[u8]) -> (r: bool)
    ensures
        r == is_dir_prefix(q@, p@),
{
    if q.len() >= p.len() || p[q.len()] != 47 {
        return false;
    }
    let mut i: usize = 0;
    while i < q.len()
        invariant
            q@.len() < p@.len(),
            i <= q@.len(),
            forall|k: int| 0 <= k < i ==> q@[k] == p@[k],
        decreases q@.len() - i,
    {
        if q[i] != p[i] {
            assert(p@.subrange(0, q@.len() as int)[i as int] != q@[i as int]);
            return false;
        }
        i = i + 1;
    }
    assert(p@.subrange(0, q@.len() as int) =~= q@);
    true
}

/// Whether `a` and `b` hold the same bytes.
pub fn bytes_equal(a: &[u8], b: &[u8]) -> (r: bool)
    ensures
        r == (a@ == b@),
{
    if a.len() != b.len() {
        return false;
    }
    let mut i: usize = 0;
    while i < a.len()
        invariant
            a@.len() == b@.len(),
            i <= a@.len(),
            forall|k: int| 0 <= k < i ==> a@[k] == b@[k],
        decreases a@.len() - i,
    {
        if a[i] != b[i] {
            return false;
        }
        i = i + 1;
    }
    assert(a@ =~= b@);
    true
}

} // verus!
