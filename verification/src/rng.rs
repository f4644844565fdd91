//! The one place the library draws randomness: picking an element of a
//! slice, for collapsing a cell and for breaking ties between cells.

use vstd::prelude::*;
use rand::seq::SliceRandom;

verus! {

/// Relies on rand's `SliceRandom::choose` with `thread_rng`: it returns
/// `None` exactly on an empty slice, and otherwise `Some` of an element of
/// the slice, chosen uniformly at random. Nothing more is assumed of which
/// element comes back.
#[verifier::external_body]
pub(crate) fn choose_random<T: Copy>(v: &Vec<T>) -> (r: Option<T>)
    ensures
        r is Some <==> v@.len() > 0,
        r is Some ==> v@.contains(r->Some_0),
{
    v.choose(&mut rand::thread_rng()).copied()
}

} // verus!
