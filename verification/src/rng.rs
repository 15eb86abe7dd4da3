use vstd::prelude::*;

use rand::seq::SliceRandom;
use rand::Rng;

verus! {

/// Relies on rand's `Rng::gen::<bool>` (through `rand::thread_rng`): a coin
/// flip. Nothing is promised of the outcome.
#[verifier::external_body]
pub(crate) fn rand_bool() -> bool {
    rand::thread_rng().gen::<bool>()
}

/// Relies on rand's `Rng::gen_range` (through `rand::thread_rng`): a value
/// drawn from `[0, n)`. The call panics only on an empty range, which the
/// precondition rules out; nothing more is promised of the outcome.
#[verifier::external_body]
pub(crate) fn rand_below(n: usize) -> (r: usize)
    requires
        n > 0,
    ensures
        r < n,
{
    rand::thread_rng().gen_range(0..n)
}

/// Relies on rand's `SliceRandom::choose` (through `rand::thread_rng`):
/// `None` exactly on an empty slice, otherwise some element of the slice.
#[verifier::external_body]
pub(crate) fn choose_u8(faces: &Vec<u8>) -> (r: Option<u8>)
    ensures
        r is Some <==> faces@.len() > 0,
        r matches Some(x) ==> exists|i: int| 0 <= i < faces@.len() && faces@[i] == x,
{
    faces.as_slice().choose(&mut rand::thread_rng()).copied()
}

} // verus!
