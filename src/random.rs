use rand::rngs::ThreadRng;
use rand::seq::SliceRandom;
use vstd::prelude::*;

verus! {

/// The thread-local random source that boards draw their choices from.
#[verifier::external_type_specification]
#[verifier::external_body]
pub struct ExThreadRng(rand::rngs::ThreadRng);

/// Relies on rand::thread_rng: hands out a handle to the thread's generator.
#[verifier::external_body]
pub(crate) fn fresh_rng() -> (r: ThreadRng) {
    rand::thread_rng()
}

/// Relies on SliceRandom::choose for slices: `None` exactly when the slice is
/// empty, otherwise one of its elements.
#[verifier::external_body]
pub(crate) fn choose_from(items: &Vec<usize>, rng: &mut ThreadRng) -> (r: Option<usize>)
    ensures
        r is None <==> items@.len() == 0,
        r matches Some(x) ==> items@.contains(x),
{
    items.as_slice().choose(rng).copied()
}

} // verus!
