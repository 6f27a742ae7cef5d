//! Trusted boundary to rand: putting a node list into a uniformly random
//! order in place.

use rand::seq::SliceRandom;
use vstd::prelude::*;

verus! {

/// Relies on rand's `SliceRandom::shuffle` (Fisher-Yates, in-place swaps):
/// afterwards the vector holds exactly the same items, rearranged. Nothing
/// is promised about the order, which is random.
#[verifier::external_body]
pub(crate) fn shuffle_nodes(v: &mut Vec<petgraph::graph::NodeIndex>)
    ensures
        final (v)@.to_multiset() == old(v)@.to_multiset(),
        final (v)@.len() == old(v)@.len(),
{
    let mut rng = rand::thread_rng();
    v.shuffle(&mut rng);
}

} // verus!
