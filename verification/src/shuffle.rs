//! In-place Fisher-Yates shuffling of the assembled password bytes.

use vstd::prelude::*;
use vstd::pervasive::VecAdditionalExecFns;
use crate::rng::rand_index;
use crate::seqext::lemma_swap_to_multiset;

verus! {

/// Permute the buffer in place: each step swaps the last not-yet-fixed
/// position with a uniformly drawn position at or below it, so the
/// multiset of bytes is exactly preserved.
pub fn shuffle_bytes(v: &mut Vec<u8>)
    ensures
        final(v)@.to_multiset() == old(v)@.to_multiset(),
        final(v)@.len() == old(v)@.len(),
{
    let mut i: usize = v.len();
    while i > 1
        invariant
            i <= v@.len(),
            v@.len() == old(v)@.len(),
            v@.to_multiset() == old(v)@.to_multiset(),
        decreases i,
    {
        let j = rand_index(i);
        let ghost w = v@;
        let a = v[i - 1];
        let b = v[j];
        v.set(i - 1, b);
        v.set(j, a);
        proof {
            assert(v@ =~= w.update(i - 1, w[j as int]).update(j as int, w[i - 1]));
            lemma_swap_to_multiset(w, i - 1, j as int);
        }
        i = i - 1;
    }
}

} // verus!
