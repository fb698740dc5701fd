//! The load-balance simulation driver and the decision-policy contract.
//!
//! The driver replays a stream of random-edge ball throws against a
//! pluggable policy: for each ball it samples an edge, asks the policy
//! which endpoint wins, and increments that vertex's counter.  Any policy
//! satisfying the contract is substitutable without driver changes.

use vstd::prelude::*;

use crate::graph::Bin;
use crate::graph::BinGraph;
use crate::graph::Graph;
use crate::graph::lemma_load_bounds;
use crate::graph::lemma_sum_update;
use crate::graph::sum_loads;

verus! {

/// The decision-policy contract for the graphical balls-into-bins
/// process.  A policy is built once per graph and consulted once per
/// ball, seeing the current loads of both endpoints; `decision_ok` is the
/// policy's own promise about each decision.
pub trait LoadBalanceAlgorithm<G: Graph>: Sized {
    /// What the policy promises about one decision, given the overlay
    /// before the throw: `r` is true when the ball goes into `u`'s bin.
    spec fn decision_ok(pre: BinGraph<G>, u: G::Vertex, v: G::Vertex, r: bool) -> bool;

    /// Build the policy state for a graph, before any ball is thrown.
    fn for_graph(graph: &BinGraph<G>) -> (r: Self)
        requires
            graph.wf(),
    ;

    /// Decide which endpoint receives the ball: true for `u`, false for
    /// `v`.  The decision may use randomness; it never mutates the
    /// overlay.
    fn choose_between(
        &mut self,
        graph: &BinGraph<G>,
        u: G::Vertex,
        v: G::Vertex,
        rng: &mut rand::rngs::StdRng,
    ) -> (r: bool)
        requires
            graph.wf(),
            graph.spec_graph().valid_vertex(u),
            graph.spec_graph().valid_vertex(v),
        ensures
            Self::decision_ok(*graph, u, v, r),
    ;
}

/// Throw `balls` additional balls into an existing overlay: each ball
/// lands on one endpoint of a freshly sampled random edge, as the policy
/// decides.  The total load grows by exactly the number of balls, no
/// counter ever decreases, and the graph itself is untouched.
pub fn load_balance<G: Graph, A: LoadBalanceAlgorithm<G>>(
    graph: &mut BinGraph<G>,
    balls: u64,
    rng: &mut rand::rngs::StdRng,
)
    requires
        old(graph).wf(),
        old(graph).spec_graph().spec_n() >= 1,
        old(graph).spec_graph().spec_d() >= 1,
        sum_loads(old(graph).loads()) + balls <= u32::MAX,
    ensures
        final(graph).wf(),
        final(graph).spec_graph() == old(graph).spec_graph(),
        sum_loads(final(graph).loads()) == sum_loads(old(graph).loads()) + balls,
        final(graph).loads().len() == old(graph).loads().len(),
        forall|i: int|
            0 <= i < final(graph).loads().len() ==> (#[trigger] final(graph).loads()[i])
                >= old(graph).loads()[i],
{
    let mut algorithm = A::for_graph(graph);
    let mut t: u64 = 0;
    while t < balls
        invariant
            t <= balls,
            graph.wf(),
            graph.spec_graph() == old(graph).spec_graph(),
            graph.spec_graph().spec_n() >= 1,
            graph.spec_graph().spec_d() >= 1,
            sum_loads(old(graph).loads()) + balls <= u32::MAX,
            sum_loads(graph.loads()) == sum_loads(old(graph).loads()) + t,
            graph.loads().len() == old(graph).loads().len(),
            forall|i: int|
                0 <= i < graph.loads().len() ==> (#[trigger] graph.loads()[i]) >= old(
                    graph,
                ).loads()[i],
        decreases balls - t,
    {
        let (u, v) = graph.graph().random_edge(rng);
        let into_u = algorithm.choose_between(graph, u, v, rng);
        let target = if into_u {
            u
        } else {
            v
        };
        proof {
            graph.spec_graph().idx_injective(target, target);
            lemma_load_bounds(graph.loads(), graph.spec_graph().spec_idx(target));
        }
        let ghost pre = graph.loads();
        let ghost ti = graph.spec_graph().spec_idx(target);
        graph.add_ball(target);
        proof {
            lemma_sum_update(pre, ti, (pre[ti] + 1) as u32);
            assert forall|i: int|
                0 <= i < graph.loads().len() implies (#[trigger] graph.loads()[i]) >= old(
                graph,
            ).loads()[i] by {
                if i != ti {
                    assert(graph.loads()[i] == pre[i]);
                }
            }
        }
        t += 1;
    }
}

/// Run the graphical balls-into-bins process from scratch: wrap `g` with
/// zeroed bins and throw `balls` balls.  Afterwards the loads sum to
/// exactly `balls` and every load is non-negative.
pub fn load_balanced<G: Graph, A: LoadBalanceAlgorithm<G>>(
    g: G,
    balls: u64,
    rng: &mut rand::rngs::StdRng,
) -> (r: BinGraph<G>)
    requires
        g.wf(),
        g.spec_n() >= 1,
        g.spec_d() >= 1,
        balls <= u32::MAX,
    ensures
        r.wf(),
        r.spec_graph() == g,
        sum_loads(r.loads()) == balls,
        r.loads().len() == g.spec_n(),
        forall|i: int| 0 <= i < r.loads().len() ==> (#[trigger] r.loads()[i]) >= 0,
{
    let mut graph = BinGraph::new(g);
    proof {
        lemma_sum_zero(graph.loads());
    }
    load_balance::<G, A>(&mut graph, balls, rng);
    graph
}

/// A list of zero counters sums to zero.
proof fn lemma_sum_zero(s: Seq<Bin>)
    requires
        forall|i: int| 0 <= i < s.len() ==> s[i] == 0,
    ensures
        sum_loads(s) == 0,
    decreases s.len(),
{
    if s.len() > 0 {
        lemma_sum_zero(s.drop_last());
    }
}

} // verus!
