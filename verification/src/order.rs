//! What does not depend on the order of a sequence.

use vstd::prelude::*;
use vstd::multiset::Multiset;
use vstd::seq_lib::{lemma_multiset_commutative, to_multiset_remove};

verus! {

/// The index of some occurrence of `x` in `s`.
pub open spec fn spec_index_of<A>(s: Seq<A>, x: A) -> int {
    choose|i: int| 0 <= i < s.len() && s[i] == x
}

/// The last element of a sequence occurs in every rearrangement of it, and
/// what is left of the two without it are rearrangements of each other.
pub proof fn lemma_rearranged_without_last<A>(s1: Seq<A>, s2: Seq<A>)
    requires
        s1.len() > 0,
        s1.to_multiset() == s2.to_multiset(),
    ensures
        s1.len() == s2.len(),
        0 <= spec_index_of(s2, s1.last()) < s2.len(),
        s2[spec_index_of(s2, s1.last())] == s1.last(),
        s1.drop_last().to_multiset() == s2.remove(spec_index_of(s2, s1.last())).to_multiset(),
{
    broadcast use vstd::seq_lib::group_to_multiset_ensures;

    let x = s1.last();
    assert(s1.contains(x)) by {
        assert(s1[s1.len() - 1] == x);
    }
    assert(s1.to_multiset().count(x) > 0);
    assert(s2.contains(x));
    let i = spec_index_of(s2, x);
    assert(s1.drop_last() =~= s1.remove(s1.len() - 1));
    to_multiset_remove(s1, s1.len() - 1);
    to_multiset_remove(s2, i);
    assert(s1.to_multiset().len() == s1.len());
    assert(s2.to_multiset().len() == s2.len());
}

/// Taking every element through `f` takes rearrangements to rearrangements.
pub proof fn lemma_map_rearranged<A, B>(s1: Seq<A>, s2: Seq<A>, f: spec_fn(A) -> B)
    requires
        s1.to_multiset() == s2.to_multiset(),
    ensures
        s1.map_values(f).to_multiset() == s2.map_values(f).to_multiset(),
    decreases s1.len(),
{
    broadcast use vstd::seq_lib::group_to_multiset_ensures;

    if s1.len() == 0 {
        assert(s2.to_multiset().len() == s2.len());
        assert(s1.to_multiset().len() == s1.len());
        assert(s1.map_values(f) =~= s2.map_values(f));
    } else {
        lemma_rearranged_without_last(s1, s2);
        let i = spec_index_of(s2, s1.last());
        lemma_map_rearranged(s1.drop_last(), s2.remove(i), f);
        let m1 = s1.map_values(f);
        let m2 = s2.map_values(f);
        assert(m1.drop_last() =~= s1.drop_last().map_values(f));
        assert(m2.remove(i) =~= s2.remove(i).map_values(f));
        assert(m1 =~= m1.drop_last().push(f(s1.last())));
        to_multiset_remove(m2, i);
        assert(m2[i] == f(s1.last()));
        assert(m2.to_multiset().count(m2[i]) > 0) by {
            assert(m2.contains(m2[i]));
        }
        assert(m2.to_multiset() =~= m2.remove(i).to_multiset().insert(m2[i]));
    }
}

/// What the sequences of `parts` hold together, each element as often as
/// they hold it.
pub open spec fn spec_bag<A>(parts: Seq<Seq<A>>) -> Multiset<A>
    decreases parts.len(),
{
    if parts.len() == 0 {
        Multiset::empty()
    } else {
        spec_bag(parts.drop_last()).add(parts.last().to_multiset())
    }
}

/// The sequences of `parts`, one behind the other.
pub open spec fn spec_chained<A>(parts: Seq<Seq<A>>) -> Seq<A>
    decreases parts.len(),
{
    if parts.len() == 0 {
        Seq::empty()
    } else {
        spec_chained(parts.drop_last()) + parts.last()
    }
}

/// A chain holds what its parts hold together.
pub proof fn lemma_chained_bag<A>(parts: Seq<Seq<A>>)
    ensures
        spec_chained(parts).to_multiset() == spec_bag(parts),
    decreases parts.len(),
{
    if parts.len() > 0 {
        lemma_chained_bag(parts.drop_last());
        lemma_multiset_commutative(spec_chained(parts.drop_last()), parts.last());
    } else {
        assert(Seq::<A>::empty().to_multiset() =~= Multiset::<A>::empty()) by {
            broadcast use vstd::seq_lib::group_to_multiset_ensures;

            assert(Seq::<A>::empty().to_multiset().len() == 0);
        }
    }
}

/// Taking one part out takes out what it holds.
pub proof fn lemma_bag_remove<A>(parts: Seq<Seq<A>>, i: int)
    requires
        0 <= i < parts.len(),
    ensures
        spec_bag(parts) == spec_bag(parts.remove(i)).add(parts[i].to_multiset()),
    decreases parts.len(),
{
    if i == parts.len() - 1 {
        assert(parts.remove(i) =~= parts.drop_last());
    } else {
        lemma_bag_remove(parts.drop_last(), i);
        assert(parts.remove(i).drop_last() =~= parts.drop_last().remove(i));
        assert(parts.remove(i).last() == parts.last());
        assert(spec_bag(parts.drop_last().remove(i)).add(parts[i].to_multiset()).add(
            parts.last().to_multiset(),
        ) =~= spec_bag(parts.drop_last().remove(i)).add(parts.last().to_multiset()).add(
            parts[i].to_multiset(),
        ));
    }
}

/// Parts in another order hold the same together.
pub proof fn lemma_bag_rearranged<A>(p1: Seq<Seq<A>>, p2: Seq<Seq<A>>)
    requires
        p1.to_multiset() == p2.to_multiset(),
    ensures
        spec_bag(p1) == spec_bag(p2),
    decreases p1.len(),
{
    broadcast use vstd::seq_lib::group_to_multiset_ensures;

    if p1.len() == 0 {
        assert(p1.to_multiset().len() == p1.len());
        assert(p2.to_multiset().len() == p2.len());
    } else {
        lemma_rearranged_without_last(p1, p2);
        let i = spec_index_of(p2, p1.last());
        lemma_bag_rearranged(p1.drop_last(), p2.remove(i));
        lemma_bag_remove(p2, i);
    }
}

} // verus!
