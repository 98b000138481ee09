//! Byte strings: equality, lexicographic order, copies.

use vstd::prelude::*;

verus! {

/// `a` comes strictly before `b` in lexicographic byte order: they agree on
/// some prefix, after which either `a` ends and `b` goes on, or `a` holds the
/// smaller byte.
pub open spec fn spec_bytes_lt(a: Seq<u8>, b: Seq<u8>) -> bool {
    exists|k: int| #[trigger] spec_ordered_at(a, b, k)
}

/// `a` and `b` agree on their first `k` bytes, and at `k` either `a` ends
/// and `b` goes on, or `a` holds the smaller byte.
pub open spec fn spec_ordered_at(a: Seq<u8>, b: Seq<u8>, k: int) -> bool {
    &&& 0 <= k <= a.len()
    &&& k < b.len()
    &&& a.take(k) == b.take(k)
    &&& k < a.len() ==> a[k] < b[k]
}

/// Whether two byte strings hold the same bytes.
pub fn bytes_eq(a: &[u8], b: &[u8]) -> (same: bool)
    ensures
        same == (a@ == b@),
{
    if a.len() != b.len() {
        return false;
    }
    let mut i: usize = 0;
    while i < a.len()
        invariant
            i <= a.len(),
            a.len() == b.len(),
            a@.take(i as int) == b@.take(i as int),
        decreases a.len() - i,
    {
        if a[i] != b[i] {
            return false;
        }
        proof {
            assert(a@.take(i + 1) == a@.take(i as int).push(a@[i as int]));
            assert(b@.take(i + 1) == b@.take(i as int).push(b@[i as int]));
        }
        i += 1;
    }
    proof {
        assert(a@.take(a.len() as int) == a@);
        assert(b@.take(b.len() as int) == b@);
    }
    true
}

/// Whether `a` comes strictly before `b` in lexicographic byte order.
pub fn bytes_lt(a: &[u8], b: &[u8]) -> (before: bool)
    ensures
        before == spec_bytes_lt(a@, b@),
{
    let mut i: usize = 0;
    while i < a.len() && i < b.len()
        invariant
            i <= a.len(),
            i <= b.len(),
            a@.take(i as int) == b@.take(i as int),
        decreases a.len() - i,
    {
        if a[i] != b[i] {
            proof {
                lemma_first_difference(a@, b@, i as int);
            }
            return a[i] < b[i];
        }
        proof {
            assert(a@.take(i + 1) == a@.take(i as int).push(a@[i as int]));
            assert(b@.take(i + 1) == b@.take(i as int).push(b@[i as int]));
        }
        i += 1;
    }
    proof {
        lemma_prefix_end(a@, b@, i as int);
    }
    i < b.len()
}

/// A copy of a byte string.
pub fn copy_bytes(v: &Vec<u8>) -> (r: Vec<u8>)
    ensures
        r@ == v@,
{
    let mut r: Vec<u8> = Vec::with_capacity(v.len());
    let mut i: usize = 0;
    while i < v.len()
        invariant
            i <= v.len(),
            r@ == v@.take(i as int),
        decreases v.len() - i,
    {
        r.push(v[i]);
        proof {
            assert(v@.take(i + 1) == v@.take(i as int).push(v@[i as int]));
        }
        i += 1;
    }
    proof {
        assert(v@.take(v.len() as int) == v@);
    }
    r
}

/// Two strings that agree up to `k` and differ at `k` are ordered by the
/// bytes at `k`.
proof fn lemma_first_difference(a: Seq<u8>, b: Seq<u8>, k: int)
    requires
        0 <= k < a.len(),
        k < b.len(),
        a.take(k) == b.take(k),
        a[k] != b[k],
    ensures
        spec_bytes_lt(a, b) == (a[k] < b[k]),
{
    if a[k] < b[k] {
        assert(spec_ordered_at(a, b, k));
    } else {
        assert forall|j: int| #[trigger] spec_ordered_at(a, b, j) implies false by {
            if j > k {
                assert(a.take(j)[k] == a[k]);
                assert(b.take(j)[k] == b[k]);
            } else if j < k {
                assert(a.take(k)[j] == a[j]);
                assert(b.take(k)[j] == b[j]);
            }
        }
    }
}

/// Two strings that agree up to `k`, where one of them ends, are ordered by
/// their lengths.
proof fn lemma_prefix_end(a: Seq<u8>, b: Seq<u8>, k: int)
    requires
        0 <= k <= a.len(),
        k <= b.len(),
        a.take(k) == b.take(k),
        k == a.len() || k == b.len(),
    ensures
        spec_bytes_lt(a, b) == (k < b.len()),
{
    if k < b.len() {
        if k < a.len() {
            assert(false);
        }
        assert(spec_ordered_at(a, b, k));
    } else {
        assert forall|j: int| #[trigger] spec_ordered_at(a, b, j) implies false by {
            assert(a.take(k)[j] == a[j]);
            assert(b.take(k)[j] == b[j]);
        }
    }
}

/// No byte string comes before itself.
pub proof fn lemma_bytes_lt_irreflexive(a: Seq<u8>)
    ensures
        !spec_bytes_lt(a, a),
{
}

/// Of two different byte strings exactly one comes before the other.
pub proof fn lemma_bytes_lt_total(a: Seq<u8>, b: Seq<u8>)
    ensures
        a != b ==> (spec_bytes_lt(a, b) != spec_bytes_lt(b, a)),
        a == b ==> !spec_bytes_lt(a, b),
{
    if a != b {
        let k = first_difference(a, b, 0);
        assert(a.take(0) =~= b.take(0));
        lemma_first_difference_found(a, b, 0);
        if k < a.len() && k < b.len() {
            lemma_first_difference(a, b, k);
            lemma_first_difference(b, a, k);
        } else {
            lemma_prefix_end(a, b, k);
            lemma_prefix_end(b, a, k);
        }
    }
}

/// The first index from `from` on at which `a` and `b` differ or one ends.
pub closed spec fn first_difference(a: Seq<u8>, b: Seq<u8>, from: int) -> int
    decreases a.len() - from,
{
    if 0 <= from < a.len() && from < b.len() && a[from] == b[from] {
        first_difference(a, b, from + 1)
    } else {
        from
    }
}

proof fn lemma_first_difference_found(a: Seq<u8>, b: Seq<u8>, from: int)
    requires
        0 <= from <= a.len(),
        from <= b.len(),
        a.take(from) == b.take(from),
    ensures
        from <= first_difference(a, b, from) <= a.len(),
        first_difference(a, b, from) <= b.len(),
        a.take(first_difference(a, b, from)) == b.take(first_difference(a, b, from)),
        first_difference(a, b, from) < a.len() && first_difference(a, b, from) < b.len()
            ==> a[first_difference(a, b, from)] != b[first_difference(a, b, from)],
        first_difference(a, b, from) == a.len() && first_difference(a, b, from) == b.len()
            ==> a == b,
    decreases a.len() - from,
{
    if from < a.len() && from < b.len() && a[from] == b[from] {
        assert(a.take(from + 1) == a.take(from).push(a[from]));
        assert(b.take(from + 1) == b.take(from).push(b[from]));
        lemma_first_difference_found(a, b, from + 1);
    } else if from == a.len() && from == b.len() {
        assert(a.take(from) == a);
        assert(b.take(from) == b);
    }
}

/// Lexicographic order is transitive.
pub proof fn lemma_bytes_lt_transitive(a: Seq<u8>, b: Seq<u8>, c: Seq<u8>)
    requires
        spec_bytes_lt(a, b),
        spec_bytes_lt(b, c),
    ensures
        spec_bytes_lt(a, c),
{
    let i = choose|k: int| #[trigger] spec_ordered_at(a, b, k);
    let j = choose|k: int| #[trigger] spec_ordered_at(b, c, k);
    let m = if i <= j { i } else { j };
    assert(a.take(m) == c.take(m)) by {
        assert forall|x: int| 0 <= x < m implies a[x] == c[x] by {
            assert(a.take(i)[x] == b.take(i)[x]);
            assert(b.take(j)[x] == c.take(j)[x]);
        }
        assert(a.take(m) =~= c.take(m));
    }
    if i < j {
        assert(b.take(j)[i] == c.take(j)[i]);
    } else if j < i {
        assert(a.take(i)[j] == b.take(i)[j]);
    }
    assert(spec_ordered_at(a, c, m));
}

} // verus!
