//! Sequence facts used by the shuffler: what single updates and swaps of
//! a sequence do to the multiset of its elements.

use vstd::prelude::*;
use vstd::multiset::Multiset;
use vstd::multiset::group_multiset_axioms;
use vstd::seq_lib::group_to_multiset_ensures;
use vstd::seq_lib::lemma_multiset_commutative;

verus! {

/// A one-element sequence turns into a one-element multiset.
pub proof fn lemma_singleton_to_multiset<A>(v: A)
    ensures
        seq![v].to_multiset() == Multiset::<A>::empty().insert(v),
{
    broadcast use group_multiset_axioms;
    broadcast use group_to_multiset_ensures;

    assert(seq![v] =~= Seq::<A>::empty().push(v));
    assert(Seq::<A>::empty().to_multiset() =~= Multiset::<A>::empty());
    assert(Seq::<A>::empty().push(v).to_multiset() =~= Seq::<A>::empty().to_multiset().insert(v));
}

/// Overwriting one position removes the old element and inserts the new.
pub proof fn lemma_update_to_multiset<A>(s: Seq<A>, i: int, x: A)
    requires
        0 <= i < s.len(),
    ensures
        s.update(i, x).to_multiset() == s.to_multiset().remove(s[i]).insert(x),
{
    broadcast use group_multiset_axioms;

    let a = s.subrange(0, i);
    let b = s.subrange(i + 1, s.len() as int);
    let mid = seq![s[i]];
    let midx = seq![x];
    assert(s =~= a + (mid + b));
    assert(s.update(i, x) =~= a + (midx + b));
    lemma_multiset_commutative(a, mid + b);
    lemma_multiset_commutative(mid, b);
    lemma_multiset_commutative(a, midx + b);
    lemma_multiset_commutative(midx, b);
    lemma_singleton_to_multiset(s[i]);
    lemma_singleton_to_multiset(x);
    assert(s.update(i, x).to_multiset() =~= s.to_multiset().remove(s[i]).insert(x));
}

/// Swapping two positions leaves the multiset of elements unchanged.
pub proof fn lemma_swap_to_multiset<A>(s: Seq<A>, i: int, j: int)
    requires
        0 <= i < s.len(),
        0 <= j < s.len(),
    ensures
        s.update(i, s[j]).update(j, s[i]).to_multiset() == s.to_multiset(),
{
    broadcast use group_multiset_axioms;
    broadcast use group_to_multiset_ensures;

    if i == j {
        assert(s.update(i, s[j]).update(j, s[i]) =~= s);
    } else {
        let s2 = s.update(i, s[j]);
        lemma_update_to_multiset(s, i, s[j]);
        lemma_update_to_multiset(s2, j, s[i]);
        assert(s2[j] == s[j]);
        assert(s.contains(s[i]));
        assert(s.contains(s[j]));
        assert(s.to_multiset().count(s[i]) > 0);
        assert(s.to_multiset().count(s[j]) > 0);
        assert(s.update(i, s[j]).update(j, s[i]).to_multiset() =~= s.to_multiset());
    }
}

} // verus!
