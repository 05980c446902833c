//! The one place the library draws randomness.

use vstd::prelude::*;
use rand::Rng;

verus! {

/// Relies on rand's `thread_rng` and `Rng::gen_range`: a draw from the
/// range `0..cnt` is below `cnt`. `gen_range` panics only when the range
/// is empty, which `cnt > 0` rules out. Nothing more is assumed of the
/// draw: callers must be correct for every value below `cnt`.
#[verifier::external_body]
pub(crate) fn rand_index(cnt: usize) -> (r: usize)
    requires
        cnt > 0,
    ensures
        r < cnt,
{
    rand::thread_rng().gen_range(0..cnt)
}

} // verus!
