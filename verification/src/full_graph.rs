//! The complete graph: every vertex is adjacent to every other vertex.

use vstd::prelude::*;

use crate::graph::Graph;
use crate::graph::lemma_push_contains;
use crate::rng::rand_below;

verus! {

/// The complete graph on `n` vertices; its degree is `n - 1`.
pub struct FullGraph {
    pub n: usize,
}

/// A vertex of the complete graph, by position.
#[derive(Copy, Clone, Debug, Hash, Eq, PartialEq, Structural)]
pub struct Vertex(pub usize);

impl Graph for FullGraph {
    type Vertex = Vertex;

    open spec fn wf(&self) -> bool {
        self.n >= 1
    }

    open spec fn spec_n(&self) -> int {
        self.n as int
    }

    open spec fn spec_d(&self) -> int {
        self.n - 1
    }

    open spec fn valid_vertex(&self, v: Vertex) -> bool {
        v.0 < self.n
    }

    open spec fn spec_idx(&self, v: Vertex) -> int {
        v.0 as int
    }

    open spec fn edge(&self, u: Vertex, v: Vertex) -> bool {
        u.0 != v.0
    }

    proof fn edge_symmetric(&self, u: Vertex, v: Vertex) {
    }

    proof fn idx_injective(&self, u: Vertex, v: Vertex) {
    }

    fn n(&self) -> (r: usize) {
        self.n
    }

    fn d(&self) -> (r: usize) {
        self.n - 1
    }

    fn as_idx(&self, v: Vertex) -> (r: usize) {
        v.0
    }

    fn iter_vertices(&self) -> (r: Vec<Vertex>) {
        let mut r: Vec<Vertex> = Vec::new();
        let mut k: usize = 0;
        while k < self.n
            invariant
                k <= self.n,
                r@.len() == k,
                forall|i: int| 0 <= i < k ==> (#[trigger] r@[i]) == Vertex(i as usize),
            decreases self.n - k,
        {
            r.push(Vertex(k));
            k += 1;
        }
        proof {
            assert forall|i: int|
                0 <= i < r@.len() implies self.valid_vertex(#[trigger] r@[i]) && self.spec_idx(
                r@[i],
            ) == i by {
                assert(r@[i] == Vertex(i as usize));
            }
        }
        r
    }

    fn iter_neighbours(&self, v: Vertex) -> (r: Vec<Vertex>) {
        let mut r: Vec<Vertex> = Vec::new();
        let mut k: usize = 0;
        while k < self.n
            invariant
                k <= self.n,
                v.0 < self.n,
                r@.len() == if k <= v.0 {
                    k as int
                } else {
                    k - 1
                },
                forall|i: int|
                    0 <= i < r@.len() ==> (#[trigger] r@[i]).0 < k && r@[i].0 != v.0,
                forall|i: int, j: int| 0 <= i < j < r@.len() ==> r@[i].0 < r@[j].0,
                forall|w: usize| w < k && w != v.0 ==> r@.contains(Vertex(w)),
            decreases self.n - k,
        {
            if k != v.0 {
                let ghost pre = r@;
                r.push(Vertex(k));
                proof {
                    lemma_push_contains(pre, Vertex(k));
                    assert(r@[pre.len() as int] == Vertex(k));
                    assert forall|i: int, j: int| 0 <= i < j < r@.len() implies r@[i].0
                        < r@[j].0 by {
                        if j < pre.len() {
                            assert(r@[i] == pre[i] && r@[j] == pre[j]);
                        } else {
                            assert(r@[i] == pre[i]);
                        }
                    }
                }
            }
            k += 1;
        }
        proof {
            assert forall|u: Vertex|
                self.valid_vertex(u) && #[trigger] self.edge(v, u) && self.spec_idx(u)
                    != self.spec_idx(v) implies exists|i: int| 0 <= i < r@.len() && r@[i] == u by {
                assert(r@.contains(Vertex(u.0)));
                assert(u == Vertex(u.0));
            }
        }
        r
    }

    fn has_edge(&self, v: Vertex, u: Vertex) -> (r: bool) {
        v != u
    }

    /// Samples an ordered pair of different vertices uniformly: a uniform
    /// first endpoint, then a uniform choice among the remaining vertices.
    fn random_edge(&self, rng: &mut rand::rngs::StdRng) -> (r: (Vertex, Vertex)) {
        let v = Vertex(rand_below(rng, self.n));
        let off = rand_below(rng, self.n - 1);
        let u = Vertex(
            if off >= v.0 {
                off + 1
            } else {
                off
            },
        );
        (v, u)
    }
}

} // verus!
