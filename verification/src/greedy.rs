//! The greedy decision policy: throw the ball into the lesser-loaded of
//! the two endpoints, breaking exact ties uniformly at random.

use vstd::prelude::*;

use crate::algorithm::LoadBalanceAlgorithm;
use crate::graph::BinGraph;
use crate::graph::Graph;
use crate::rng::rand_bool;

verus! {

/// The canonical graph-restricted power-of-two-choices policy.  It is
/// stateless across balls.
pub struct Greedy;

impl<G: Graph> LoadBalanceAlgorithm<G> for Greedy {
    /// Greedy monotonicity: a strictly lesser-loaded `u` always receives
    /// the ball, a strictly greater-loaded `u` never does; only exact
    /// ties are left to randomness.
    open spec fn decision_ok(pre: BinGraph<G>, u: G::Vertex, v: G::Vertex, r: bool) -> bool {
        let lu = pre.loads()[pre.spec_graph().spec_idx(u)];
        let lv = pre.loads()[pre.spec_graph().spec_idx(v)];
        &&& lu < lv ==> r == true
        &&& lu > lv ==> r == false
    }

    fn for_graph(_graph: &BinGraph<G>) -> (r: Self) {
        Greedy
    }

    fn choose_between(
        &mut self,
        graph: &BinGraph<G>,
        u: G::Vertex,
        v: G::Vertex,
        rng: &mut rand::rngs::StdRng,
    ) -> (r: bool) {
        let lu = graph.load(u);
        let lv = graph.load(v);
        if lu < lv {
            true
        } else if lu == lv {
            // break ties with randomness
            rand_bool(rng)
        } else {
            false
        }
    }
}

} // verus!
