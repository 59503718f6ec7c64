//! The seeded random number generator used by the generators and rewiring
//! moves, and the two random operations they make with it.
use vstd::prelude::*;
use crate::ids::{EdgeId, NodeId};
use rand::rngs::StdRng;

verus! {

/// `rand::rngs::StdRng`, a seedable generator; its state is opaque here.
#[verifier::external_type_specification]
#[verifier::external_body]
pub struct ExStdRng(StdRng);

/// `SliceRandom::choose`: a uniformly chosen element, `None` exactly when the
/// slice is empty. Which element comes back depends on the generator state
/// and is not stated.
#[verifier::external_body]
pub(crate) fn choose_edge(items: &[EdgeId], rng: &mut StdRng) -> (r: Option<EdgeId>)
    ensures
        r is None <==> items@.len() == 0,
        r is Some ==> items@.contains(r->0),
{
    rand::seq::SliceRandom::choose(items, rng).copied()
}

/// `SliceRandom::shuffle`: the elements in a random order. That the result is
/// a permutation of the input is stated; the order is not.
#[verifier::external_body]
pub(crate) fn shuffle_nodes(items: &mut Vec<NodeId>, rng: &mut StdRng)
    ensures
        final(items)@.to_multiset() == old(items)@.to_multiset(),
        final(items)@.len() == old(items)@.len(),
{
    rand::seq::SliceRandom::shuffle(items.as_mut_slice(), rng)
}

/// `Clone::clone` on the generator: an independent copy of its state.
#[verifier::external_body]
pub(crate) fn clone_rng(rng: &StdRng) -> StdRng {
    rng.clone()
}

} // verus!
