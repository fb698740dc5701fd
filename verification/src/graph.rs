//! The graph capability contract and the load-bin overlay.
//!
//! A `Graph` has a fixed vertex universe of size `n` and fixed degree `d`,
//! and offers vertex and neighbour enumeration, an edge test and uniformly
//! random edge sampling.  Every implementation proves that each vertex has
//! exactly `d` distinct non-self neighbours, that the edge relation is
//! symmetric, and that sampled edges are true edges.  `BinGraph` wraps a
//! graph with one non-negative counter per vertex.

use vstd::prelude::*;

verus! {

/// A per-vertex load counter.
pub type Bin = u32;

/// Membership after a push: the old members, plus the pushed value.
pub proof fn lemma_push_contains<T>(s: Seq<T>, v: T)
    ensures
        forall|y: T| #[trigger] s.push(v).contains(y) <==> (s.contains(y) || y == v),
{
    assert forall|y: T| #[trigger] s.push(v).contains(y) implies (s.contains(y) || y == v) by {
        let i = choose|i: int| 0 <= i < s.push(v).len() && s.push(v)[i] == y;
        if i < s.len() {
            assert(s[i] == y);
        }
    }
    assert forall|y: T| (s.contains(y) || y == v) implies #[trigger] s.push(v).contains(y) by {
        if s.contains(y) {
            let i = choose|i: int| 0 <= i < s.len() && s[i] == y;
            assert(s.push(v)[i] == y);
        } else {
            assert(s.push(v)[s.len() as int] == y);
        }
    }
}

/// The sum of all counters.
pub open spec fn sum_loads(s: Seq<Bin>) -> int
    decreases s.len(),
{
    if s.len() == 0 {
        0
    } else {
        sum_loads(s.drop_last()) + s.last()
    }
}

/// The largest counter, zero for an empty list.
pub open spec fn max_load(s: Seq<Bin>) -> int
    decreases s.len(),
{
    if s.len() == 0 {
        0
    } else if s.len() == 1 {
        s[0] as int
    } else {
        let m = max_load(s.drop_last());
        if s.last() as int >= m {
            s.last() as int
        } else {
            m
        }
    }
}

/// The smallest counter, zero for an empty list.
pub open spec fn min_load(s: Seq<Bin>) -> int
    decreases s.len(),
{
    if s.len() == 0 {
        0
    } else if s.len() == 1 {
        s[0] as int
    } else {
        let m = min_load(s.drop_last());
        if s.last() as int <= m {
            s.last() as int
        } else {
            m
        }
    }
}

/// Overwriting one counter changes the sum by the difference.
pub proof fn lemma_sum_update(s: Seq<Bin>, i: int, x: Bin)
    requires
        0 <= i < s.len(),
    ensures
        sum_loads(s.update(i, x)) == sum_loads(s) - s[i] + x,
    decreases s.len(),
{
    let u = s.update(i, x);
    if i == s.len() - 1 {
        assert(u.drop_last() =~= s.drop_last());
    } else {
        assert(u.drop_last() =~= s.drop_last().update(i, x));
        assert(u.last() == s.last());
        lemma_sum_update(s.drop_last(), i, x);
    }
}

/// Every counter is bounded by the sum, and the extremes bound every
/// counter.
pub proof fn lemma_load_bounds(s: Seq<Bin>, i: int)
    requires
        0 <= i < s.len(),
    ensures
        s[i] <= sum_loads(s),
        min_load(s) <= s[i] <= max_load(s),
        sum_loads(s) >= 0,
    decreases s.len(),
{
    lemma_sum_nonneg(s);
    if s.len() == 1 {
        assert(sum_loads(s) == sum_loads(s.drop_last()) + s.last());
        assert(s[i] == s.last());
    } else {
        let pre = s.drop_last();
        lemma_sum_nonneg(pre);
        lemma_load_bounds(pre, if i == s.len() - 1 { 0 } else { i });
        assert(sum_loads(s) == sum_loads(pre) + s.last());
        if i < s.len() - 1 {
            assert(pre[i] == s[i]);
        } else {
            assert(s[i] == s.last());
        }
    }
}

/// Counter sums are never negative.
pub proof fn lemma_sum_nonneg(s: Seq<Bin>)
    ensures
        sum_loads(s) >= 0,
    decreases s.len(),
{
    if s.len() > 0 {
        lemma_sum_nonneg(s.drop_last());
    }
}

/// The graph capability contract: fixed vertex universe, fixed degree,
/// enumeration, edge test and random edge sampling, together with the
/// obligations that make a d-regular simple graph.
pub trait Graph: Sized {
    type Vertex: Copy;

    /// The graph value is well formed.
    spec fn wf(&self) -> bool;

    /// The number of vertices.
    spec fn spec_n(&self) -> int;

    /// The degree: how many neighbours every vertex has.
    spec fn spec_d(&self) -> int;

    /// Whether `v` denotes a vertex of this graph.
    spec fn valid_vertex(&self, v: Self::Vertex) -> bool;

    /// The position of `v` in the vertex universe `0 .. n`.
    spec fn spec_idx(&self, v: Self::Vertex) -> int;

    /// The edge relation that `has_edge` decides.
    spec fn edge(&self, u: Self::Vertex, v: Self::Vertex) -> bool;

    /// The edge relation is symmetric.
    proof fn edge_symmetric(&self, u: Self::Vertex, v: Self::Vertex)
        requires
            self.wf(),
        ensures
            self.edge(u, v) == self.edge(v, u),
    ;

    /// Vertex positions are in range and identify the vertex.
    proof fn idx_injective(&self, u: Self::Vertex, v: Self::Vertex)
        requires
            self.wf(),
            self.valid_vertex(u),
            self.valid_vertex(v),
        ensures
            0 <= self.spec_idx(u) < self.spec_n(),
            self.spec_idx(u) == self.spec_idx(v) ==> u == v,
    ;

    /// The number of vertices.
    fn n(&self) -> (r: usize)
        requires
            self.wf(),
        ensures
            r as int == self.spec_n(),
    ;

    /// The degree.
    fn d(&self) -> (r: usize)
        requires
            self.wf(),
        ensures
            r as int == self.spec_d(),
    ;

    /// The number of edges of a d-regular graph on n vertices.
    fn m(&self) -> (r: usize)
        requires
            self.wf(),
            (self.spec_n() * self.spec_d()) % 2 == 0,
            self.spec_n() * self.spec_d() <= usize::MAX,
        ensures
            r as int == self.spec_n() * self.spec_d() / 2,
    {
        let m2 = self.n() * self.d();
        m2 / 2
    }

    /// The position of the vertex `v`.
    fn as_idx(&self, v: Self::Vertex) -> (r: usize)
        requires
            self.wf(),
            self.valid_vertex(v),
        ensures
            r as int == self.spec_idx(v),
    ;

    /// All vertices, in position order.
    fn iter_vertices(&self) -> (r: Vec<Self::Vertex>)
        requires
            self.wf(),
        ensures
            r@.len() == self.spec_n(),
            forall|i: int|
                0 <= i < r@.len() ==> self.valid_vertex(#[trigger] r@[i]) && self.spec_idx(r@[i])
                    == i,
    ;

    /// The neighbours of `v`: exactly `d` of them, all valid, all adjacent
    /// to `v`, none equal to `v`, pairwise different, and complete — every
    /// vertex adjacent to `v` other than `v` itself is in the list.
    fn iter_neighbours(&self, v: Self::Vertex) -> (r: Vec<Self::Vertex>)
        requires
            self.wf(),
            self.valid_vertex(v),
        ensures
            r@.len() == self.spec_d(),
            forall|i: int|
                0 <= i < r@.len() ==> self.valid_vertex(#[trigger] r@[i]) && self.edge(v, r@[i])
                    && self.spec_idx(r@[i]) != self.spec_idx(v),
            forall|i: int, j: int|
                0 <= i < j < r@.len() ==> self.spec_idx(#[trigger] r@[i]) != self.spec_idx(
                    #[trigger] r@[j],
                ),
            forall|u: Self::Vertex|
                self.valid_vertex(u) && #[trigger] self.edge(v, u) && self.spec_idx(u)
                    != self.spec_idx(v) ==> exists|i: int| 0 <= i < r@.len() && r@[i] == u,
    ;

    /// Whether `v` and `u` are adjacent.
    fn has_edge(&self, v: Self::Vertex, u: Self::Vertex) -> (r: bool)
        requires
            self.wf(),
            self.valid_vertex(v),
            self.valid_vertex(u),
        ensures
            r == self.edge(v, u),
    ;

    /// A uniformly random edge, per the topology's documented
    /// distribution: a valid ordered pair of adjacent, different vertices.
    fn random_edge(&self, rng: &mut rand::rngs::StdRng) -> (r: (Self::Vertex, Self::Vertex))
        requires
            self.wf(),
            self.spec_n() >= 1,
            self.spec_d() >= 1,
        ensures
            self.valid_vertex(r.0),
            self.valid_vertex(r.1),
            self.edge(r.0, r.1),
            self.spec_idx(r.0) != self.spec_idx(r.1),
    ;

    /// Check the d-regular simple-graph invariants at run time: vertex
    /// count, neighbour count, no self-neighbours, mutual adjacency,
    /// no duplicate neighbours, and a hundred random edge samples that
    /// must land on true edges.  The contract shows the check never fails
    /// on a well-formed graph.
    fn validate(&self, rng: &mut rand::rngs::StdRng) -> (r: bool)
        requires
            self.wf(),
            self.spec_n() >= 1,
            self.spec_d() >= 1,
        ensures
            r == true,
    {
        let vs = self.iter_vertices();
        if vs.len() != self.n() {
            return false;
        }
        let mut i: usize = 0;
        while i < vs.len()
            invariant
                self.wf(),
                self.spec_n() >= 1,
                self.spec_d() >= 1,
                vs@.len() == self.spec_n(),
                forall|k: int|
                    0 <= k < vs@.len() ==> self.valid_vertex(#[trigger] vs@[k]) && self.spec_idx(
                        vs@[k],
                    ) == k,
            decreases vs@.len() - i,
        {
            let v = vs[i];
            let nb = self.iter_neighbours(v);
            if nb.len() != self.d() {
                return false;
            }
            let mut j: usize = 0;
            while j < nb.len()
                invariant
                    self.wf(),
                    self.spec_n() >= 1,
                    self.spec_d() >= 1,
                    self.valid_vertex(v),
                    nb@.len() == self.spec_d(),
                    forall|k: int|
                        0 <= k < nb@.len() ==> self.valid_vertex(#[trigger] nb@[k]) && self.edge(
                            v,
                            nb@[k],
                        ) && self.spec_idx(nb@[k]) != self.spec_idx(v),
                    forall|k1: int, k2: int|
                        0 <= k1 < k2 < nb@.len() ==> self.spec_idx(#[trigger] nb@[k1])
                            != self.spec_idx(#[trigger] nb@[k2]),
                decreases nb@.len() - j,
            {
                let u = nb[j];
                if self.as_idx(u) == self.as_idx(v) {
                    return false;
                }
                if !self.has_edge(v, u) {
                    return false;
                }
                proof {
                    self.edge_symmetric(v, u);
                }
                if !self.has_edge(u, v) {
                    return false;
                }
                if !self.find_neighbour(u, v) {
                    return false;
                }
                // `u` is listed exactly once among the neighbours of `v`.
                let ui = self.as_idx(u);
                let mut cnt: usize = 0;
                let mut k: usize = 0;
                while k < nb.len()
                    invariant
                        k <= nb@.len(),
                        self.wf(),
                        self.valid_vertex(v),
                        j < nb@.len(),
                        nb@[j as int] == u,
                        ui as int == self.spec_idx(u),
                        forall|kk: int|
                            0 <= kk < nb@.len() ==> self.valid_vertex(#[trigger] nb@[kk]),
                        forall|k1: int, k2: int|
                            0 <= k1 < k2 < nb@.len() ==> self.spec_idx(#[trigger] nb@[k1])
                                != self.spec_idx(#[trigger] nb@[k2]),
                        cnt == if k > j {
                            1int
                        } else {
                            0int
                        },
                    decreases nb@.len() - k,
                {
                    if self.as_idx(nb[k]) == ui {
                        proof {
                            if k != j {
                                assert(self.spec_idx(nb@[k as int]) != self.spec_idx(
                                    nb@[j as int],
                                ));
                            }
                        }
                        cnt += 1;
                    }
                    k += 1;
                }
                if cnt != 1 {
                    return false;
                }
                j += 1;
            }
            i += 1;
        }
        let mut t: usize = 0;
        while t < 100
            invariant
                self.wf(),
                self.spec_n() >= 1,
                self.spec_d() >= 1,
            decreases 100 - t,
        {
            let (u, v) = self.random_edge(rng);
            if !self.has_edge(u, v) {
                return false;
            }
            proof {
                self.edge_symmetric(u, v);
            }
            if !self.has_edge(v, u) {
                return false;
            }
            if !self.find_neighbour(u, v) {
                return false;
            }
            t += 1;
        }
        true
    }

    /// Scan the neighbour list of `u` for the vertex `v`; completeness of
    /// the neighbour list makes the search provably succeed for adjacent,
    /// different vertices.
    fn find_neighbour(&self, u: Self::Vertex, v: Self::Vertex) -> (r: bool)
        requires
            self.wf(),
            self.valid_vertex(u),
            self.valid_vertex(v),
            self.edge(u, v),
            self.spec_idx(u) != self.spec_idx(v),
        ensures
            r == true,
    {
        proof {
            self.edge_symmetric(u, v);
        }
        let nbu = self.iter_neighbours(u);
        let vi = self.as_idx(v);
        let mut k: usize = 0;
        while k < nbu.len()
            invariant
                self.wf(),
                self.valid_vertex(u),
                self.valid_vertex(v),
                self.edge(u, v),
                vi as int == self.spec_idx(v),
                self.spec_idx(u) != self.spec_idx(v),
                nbu@.len() == self.spec_d(),
                forall|kk: int|
                    0 <= kk < nbu@.len() ==> self.valid_vertex(#[trigger] nbu@[kk]) && self.edge(
                        u,
                        nbu@[kk],
                    ) && self.spec_idx(nbu@[kk]) != self.spec_idx(u),
                forall|w: Self::Vertex|
                    self.valid_vertex(w) && #[trigger] self.edge(u, w) && self.spec_idx(w)
                        != self.spec_idx(u) ==> exists|ii: int|
                        0 <= ii < nbu@.len() && nbu@[ii] == w,
                forall|kk: int| 0 <= kk < k ==> self.spec_idx(#[trigger] nbu@[kk]) != vi as int,
            decreases nbu@.len() - k,
        {
            if self.as_idx(nbu[k]) == vi {
                return true;
            }
            k += 1;
        }
        proof {
            assert(self.edge(u, v));
            let ii = choose|ii: int| 0 <= ii < nbu@.len() && nbu@[ii] == v;
            assert(self.spec_idx(nbu@[ii]) == vi as int);
        }
        false
    }
}

/// A graph with one non-negative counter attached to each vertex.
pub struct BinGraph<G: Graph> {
    graph: G,
    data: Vec<Bin>,
}

impl<G: Graph> BinGraph<G> {
    /// The wrapped graph.
    pub closed spec fn spec_graph(&self) -> G {
        self.graph
    }

    /// The counters, in vertex-position order.
    pub closed spec fn loads(&self) -> Seq<Bin> {
        self.data@
    }

    /// The overlay is well formed: the graph is, and there is exactly one
    /// counter per vertex.
    pub open spec fn wf(&self) -> bool {
        &&& self.spec_graph().wf()
        &&& self.loads().len() == self.spec_graph().spec_n()
    }

    /// Wrap a graph, all counters starting at zero.
    pub fn new(graph: G) -> (r: BinGraph<G>)
        requires
            graph.wf(),
        ensures
            r.wf(),
            r.spec_graph() == graph,
            r.loads().len() == graph.spec_n(),
            forall|i: int| 0 <= i < r.loads().len() ==> r.loads()[i] == 0,
    {
        let n = graph.n();
        let mut data: Vec<Bin> = Vec::new();
        let mut i: usize = 0;
        while i < n
            invariant
                i <= n,
                data@.len() == i,
                forall|k: int| 0 <= k < i ==> data@[k] == 0,
            decreases n - i,
        {
            data.push(0);
            i += 1;
        }
        BinGraph { graph, data }
    }

    /// A borrow of the wrapped graph.
    pub fn graph(&self) -> (r: &G)
        ensures
            r == self.spec_graph(),
    {
        &self.graph
    }

    /// The counter of vertex `v`.
    pub fn load(&self, v: G::Vertex) -> (r: Bin)
        requires
            self.wf(),
            self.spec_graph().valid_vertex(v),
        ensures
            r == self.loads()[self.spec_graph().spec_idx(v)],
    {
        proof {
            self.spec_graph().idx_injective(v, v);
        }
        let i = self.graph.as_idx(v);
        self.data[i]
    }

    /// Throw one ball into the bin of vertex `v`.
    pub fn add_ball(&mut self, v: G::Vertex)
        requires
            old(self).wf(),
            old(self).spec_graph().valid_vertex(v),
            old(self).loads()[old(self).spec_graph().spec_idx(v)] < Bin::MAX,
        ensures
            final(self).wf(),
            final(self).spec_graph() == old(self).spec_graph(),
            final(self).loads() == old(self).loads().update(
                old(self).spec_graph().spec_idx(v),
                (old(self).loads()[old(self).spec_graph().spec_idx(v)] + 1) as Bin,
            ),
    {
        proof {
            self.spec_graph().idx_injective(v, v);
        }
        let i = self.graph.as_idx(v);
        let cur = self.data[i];
        self.data[i] = cur + 1;
    }

    /// The achieved imbalance: the largest counter minus the smallest.
    pub fn gap(&self) -> (r: Bin)
        requires
            self.wf(),
            self.spec_graph().spec_n() >= 1,
        ensures
            r as int == max_load(self.loads()) - min_load(self.loads()),
    {
        let len = self.data.len();
        let mut mn = self.data[0];
        let mut mx = self.data[0];
        let mut i: usize = 1;
        proof {
            assert(self.loads().subrange(0, 1) =~= seq![self.loads()[0]]);
        }
        while i < len
            invariant
                1 <= i <= len,
                len == self.loads().len(),
                mx as int == max_load(self.loads().subrange(0, i as int)),
                mn as int == min_load(self.loads().subrange(0, i as int)),
                mn <= mx,
            decreases len - i,
        {
            proof {
                let s = self.loads();
                assert(s.subrange(0, i + 1).drop_last() =~= s.subrange(0, i as int));
                assert(s.subrange(0, i + 1).last() == s[i as int]);
            }
            let x = self.data[i];
            if x > mx {
                mx = x;
            }
            if x < mn {
                mn = x;
            }
            i += 1;
        }
        proof {
            assert(self.loads().subrange(0, len as int) =~= self.loads());
        }
        mx - mn
    }

    /// The upper imbalance: the largest counter minus the mean counter,
    /// the mean rounded down.
    pub fn upper_gap(&self) -> (r: Bin)
        requires
            self.wf(),
            self.spec_graph().spec_n() >= 1,
            sum_loads(self.loads()) <= u64::MAX,
        ensures
            r as int == max_load(self.loads()) - sum_loads(self.loads()) / self.spec_graph().spec_n(),
    {
        let len = self.data.len();
        let mut sum: u64 = 0;
        let mut mx: Bin = 0;
        let mut i: usize = 0;
        proof {
            assert(self.loads().subrange(0, 0) =~= Seq::<Bin>::empty());
            lemma_max_le_sum(self.loads());
        }
        while i < len
            invariant
                i <= len,
                len == self.loads().len(),
                sum as int == sum_loads(self.loads().subrange(0, i as int)),
                mx as int == max_load(self.loads().subrange(0, i as int)),
                sum_loads(self.loads()) <= u64::MAX,
                forall|k: int|
                    0 <= k <= self.loads().len() ==> sum_loads(
                        #[trigger] self.loads().subrange(0, k),
                    ) <= sum_loads(self.loads()),
            decreases len - i,
        {
            proof {
                let s = self.loads();
                assert(s.subrange(0, i + 1).drop_last() =~= s.subrange(0, i as int));
                assert(s.subrange(0, i + 1).last() == s[i as int]);
            }
            let x = self.data[i];
            sum = sum + x as u64;
            if x > mx {
                mx = x;
            }
            i += 1;
        }
        proof {
            assert(self.loads().subrange(0, len as int) =~= self.loads());
            lemma_max_le_sum(self.loads());
        }
        let avg = sum / (self.data.len() as u64);
        proof {
            let s = self.loads();
            let n = self.spec_graph().spec_n();
            vstd::arithmetic::div_mod::lemma_div_is_ordered(
                sum_loads(s),
                max_load(s) * n,
                n,
            );
            assert(max_load(s) * n / n == max_load(s)) by {
                vstd::arithmetic::div_mod::lemma_div_multiples_vanish(max_load(s), n);
                assert(max_load(s) * n == n * max_load(s)) by (nonlinear_arith);
            }
        }
        mx - (avg as Bin)
    }
}

/// Prefix sums never exceed the whole sum, and the sum is at most the
/// maximum times the length.
pub proof fn lemma_max_le_sum(s: Seq<Bin>)
    ensures
        forall|k: int|
            0 <= k <= s.len() ==> sum_loads(#[trigger] s.subrange(0, k)) <= sum_loads(s),
        sum_loads(s) <= max_load(s) * s.len(),
        max_load(s) >= 0,
    decreases s.len(),
{
    if s.len() == 0 {
        assert forall|k: int|
            0 <= k <= s.len() implies sum_loads(#[trigger] s.subrange(0, k)) <= sum_loads(s) by {
            assert(s.subrange(0, k) =~= s);
        }
        assert(sum_loads(s) <= max_load(s) * s.len()) by (nonlinear_arith)
            requires
                sum_loads(s) == 0 && s.len() == 0,
        ;
    } else {
        let pre = s.drop_last();
        lemma_max_le_sum(pre);
        assert forall|k: int|
            0 <= k <= s.len() implies sum_loads(#[trigger] s.subrange(0, k)) <= sum_loads(s) by {
            if k == s.len() {
                assert(s.subrange(0, k) =~= s);
            } else {
                assert(s.subrange(0, k) =~= pre.subrange(0, k));
                assert(sum_loads(pre) + s.last() == sum_loads(s));
            }
        }
        if s.len() == 1 {
            assert(sum_loads(s) == s[0]);
            assert(max_load(s) * s.len() == max_load(s) * 1 == max_load(s))
                by (nonlinear_arith)
                requires
                    s.len() == 1,
            ;
        } else {
            assert(max_load(s) >= max_load(pre) && max_load(s) >= s.last());
            assert(sum_loads(s) == sum_loads(pre) + s.last());
            assert(sum_loads(pre) <= max_load(pre) * pre.len());
            assert(max_load(pre) * pre.len() <= max_load(s) * pre.len()) by (nonlinear_arith)
                requires
                    max_load(pre) <= max_load(s) && pre.len() >= 0,
            ;
            assert(max_load(s) * pre.len() + max_load(s) == max_load(s) * s.len())
                by (nonlinear_arith)
                requires
                    pre.len() + 1 == s.len(),
            ;
        }
    }
}

} // verus!
