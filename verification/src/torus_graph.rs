//! The torus graph: the product of two rings, one per axis.

use vstd::prelude::*;

use vstd::arithmetic::div_mod::lemma_fundamental_div_mod_converse;
use vstd::arithmetic::mul::lemma_mul_inequality;

use crate::graph::Graph;
use crate::ring_graph::RingGraph;
use crate::ring_graph::RingVertex;
use crate::ring_graph::calc_d;
use crate::ring_graph::spec_calc_d;
use crate::rng::rand_below;

verus! {

/// The torus with `x` columns of `y` vertices; vertices are adjacent when
/// they differ by one cyclic step along exactly one axis.
pub struct TorusGraph {
    pub x: usize,
    pub y: usize,
}

/// A vertex of the torus: its ring positions along both axes.
#[derive(Copy, Clone, Debug, Hash, Eq, PartialEq, Structural)]
pub struct TorusVertex(pub RingVertex, pub RingVertex);

impl TorusGraph {
    /// The ring along the first axis.
    pub open spec fn rx(&self) -> RingGraph {
        RingGraph { n: self.x }
    }

    /// The ring along the second axis.
    pub open spec fn ry(&self) -> RingGraph {
        RingGraph { n: self.y }
    }

    /// A vertex position is inside the universe and determines the
    /// coordinates.
    proof fn lemma_idx(&self, a: int, b: int)
        requires
            self.wf(),
            0 <= a < self.x,
            0 <= b < self.y,
        ensures
            0 <= a * self.y + b < self.x * self.y,
            (a * self.y + b) / (self.y as int) == a,
            (a * self.y + b) % (self.y as int) == b,
    {
        lemma_fundamental_div_mod_converse(a * self.y + b, self.y as int, a, b);
        lemma_mul_inequality(a, self.x - 1, self.y as int);
        assert((self.x - 1) * self.y + (self.y - 1) < self.x * self.y) by (nonlinear_arith)
            requires
                self.y >= 1,
        ;
        assert(a * self.y >= 0) by (nonlinear_arith)
            requires
                a >= 0 && self.y >= 0,
        ;
        assert(a * self.y == self.y * a) by (nonlinear_arith);
    }
}

impl Graph for TorusGraph {
    type Vertex = TorusVertex;

    open spec fn wf(&self) -> bool {
        &&& self.x >= 1
        &&& self.y >= 1
        &&& self.x * self.y <= usize::MAX
    }

    open spec fn spec_n(&self) -> int {
        self.x * self.y
    }

    open spec fn spec_d(&self) -> int {
        spec_calc_d(self.x as int) + spec_calc_d(self.y as int)
    }

    open spec fn valid_vertex(&self, v: TorusVertex) -> bool {
        v.0.0 < self.x && v.1.0 < self.y
    }

    open spec fn spec_idx(&self, v: TorusVertex) -> int {
        v.0.0 * self.y + v.1.0
    }

    open spec fn edge(&self, u: TorusVertex, v: TorusVertex) -> bool {
        if u.0 == v.0 {
            self.ry().edge(u.1, v.1)
        } else if u.1 == v.1 {
            self.rx().edge(u.0, v.0)
        } else {
            false
        }
    }

    proof fn edge_symmetric(&self, u: TorusVertex, v: TorusVertex) {
        self.ry().edge_symmetric(u.1, v.1);
        self.rx().edge_symmetric(u.0, v.0);
    }

    proof fn idx_injective(&self, u: TorusVertex, v: TorusVertex) {
        self.lemma_idx(u.0.0 as int, u.1.0 as int);
        self.lemma_idx(v.0.0 as int, v.1.0 as int);
        if self.spec_idx(u) == self.spec_idx(v) {
            assert(u.0 == RingVertex(u.0.0) && u.1 == RingVertex(u.1.0));
            assert(v.0 == RingVertex(v.0.0) && v.1 == RingVertex(v.1.0));
            assert(u == TorusVertex(u.0, u.1));
            assert(v == TorusVertex(v.0, v.1));
        }
    }

    fn n(&self) -> (r: usize) {
        self.x * self.y
    }

    fn d(&self) -> (r: usize) {
        calc_d(self.x) + calc_d(self.y)
    }

    fn as_idx(&self, v: TorusVertex) -> (r: usize) {
        proof {
            self.lemma_idx(v.0.0 as int, v.1.0 as int);
        }
        v.0.0 * self.y + v.1.0
    }

    fn iter_vertices(&self) -> (r: Vec<TorusVertex>) {
        let mut r: Vec<TorusVertex> = Vec::new();
        let mut a: usize = 0;
        while a < self.x
            invariant
                a <= self.x,
                self.wf(),
                r@.len() == a * self.y,
                forall|i: int|
                    0 <= i < r@.len() ==> (#[trigger] r@[i]) == TorusVertex(
                        RingVertex((i / (self.y as int)) as usize),
                        RingVertex((i % (self.y as int)) as usize),
                    ),
            decreases self.x - a,
        {
            let mut b: usize = 0;
            proof {
                self.lemma_idx(a as int, 0);
            }
            while b < self.y
                invariant
                    b <= self.y,
                    a < self.x,
                    self.wf(),
                    r@.len() == a * self.y + b,
                    forall|i: int|
                        0 <= i < r@.len() ==> (#[trigger] r@[i]) == TorusVertex(
                            RingVertex((i / (self.y as int)) as usize),
                            RingVertex((i % (self.y as int)) as usize),
                        ),
                decreases self.y - b,
            {
                proof {
                    self.lemma_idx(a as int, b as int);
                }
                r.push(TorusVertex(RingVertex(a), RingVertex(b)));
                b += 1;
            }
            proof {
                assert(a * self.y + self.y == (a + 1) * self.y) by (nonlinear_arith);
            }
            a += 1;
        }
        proof {
            assert(r@.len() == self.x * self.y) by (nonlinear_arith)
                requires
                    r@.len() == self.x as int * self.y,
            ;
            assert forall|i: int|
                0 <= i < r@.len() implies self.valid_vertex(#[trigger] r@[i]) && self.spec_idx(
                r@[i],
            ) == i by {
                let aa = i / (self.y as int);
                let bb = i % (self.y as int);
                vstd::arithmetic::div_mod::lemma_fundamental_div_mod(i, self.y as int);
                vstd::arithmetic::div_mod::lemma_mod_division_less_than_divisor(
                    i,
                    self.y as int,
                );
                vstd::arithmetic::div_mod::lemma_multiply_divide_lt(i, self.y as int, self.x as int);
                assert(self.y as int * aa == aa * self.y) by (nonlinear_arith);
                assert(0 <= aa < self.x);
                self.lemma_idx(aa, bb);
            }
        }
        r
    }

    fn iter_neighbours(&self, v: TorusVertex) -> (r: Vec<TorusVertex>) {
        let gx = RingGraph { n: self.x };
        let gy = RingGraph { n: self.y };
        let nx = gx.iter_neighbours(v.0);
        let ny = gy.iter_neighbours(v.1);
        let mut r: Vec<TorusVertex> = Vec::new();
        let mut k: usize = 0;
        while k < nx.len()
            invariant
                k <= nx@.len(),
                self.wf(),
                self.valid_vertex(v),
                gx == self.rx(),
                nx@.len() == spec_calc_d(self.x as int),
                forall|i: int|
                    0 <= i < nx@.len() ==> (#[trigger] nx@[i]).0 < self.x && self.rx().edge(
                        v.0,
                        nx@[i],
                    ) && nx@[i].0 != v.0.0,
                forall|i: int, j: int| 0 <= i < j < nx@.len() ==> nx@[i].0 != nx@[j].0,
                r@.len() == k,
                forall|i: int| 0 <= i < k ==> (#[trigger] r@[i]) == TorusVertex(nx@[i], v.1),
            decreases nx@.len() - k,
        {
            r.push(TorusVertex(nx[k], v.1));
            k += 1;
        }
        let ghost dx = nx@.len() as int;
        let mut k2: usize = 0;
        while k2 < ny.len()
            invariant
                k2 <= ny@.len(),
                self.wf(),
                self.valid_vertex(v),
                gy == self.ry(),
                ny@.len() == spec_calc_d(self.y as int),
                forall|i: int|
                    0 <= i < ny@.len() ==> (#[trigger] ny@[i]).0 < self.y && self.ry().edge(
                        v.1,
                        ny@[i],
                    ) && ny@[i].0 != v.1.0,
                forall|i: int, j: int| 0 <= i < j < ny@.len() ==> ny@[i].0 != ny@[j].0,
                dx == nx@.len(),
                r@.len() == dx + k2,
                forall|i: int| 0 <= i < dx ==> (#[trigger] r@[i]) == TorusVertex(nx@[i], v.1),
                forall|i: int|
                    dx <= i < r@.len() ==> (#[trigger] r@[i]) == TorusVertex(v.0, ny@[i - dx]),
            decreases ny@.len() - k2,
        {
            r.push(TorusVertex(v.0, ny[k2]));
            k2 += 1;
        }
        proof {
            self.lemma_neighbour_list(v, nx@, ny@, r@);
        }
        r
    }

    fn has_edge(&self, v: TorusVertex, u: TorusVertex) -> (r: bool) {
        let gx = RingGraph { n: self.x };
        let gy = RingGraph { n: self.y };
        if v.0 == u.0 {
            gy.has_edge(v.1, u.1)
        } else if v.1 == u.1 {
            gx.has_edge(v.0, u.0)
        } else {
            false
        }
    }

    /// Samples a uniform vertex, then a uniform incident neighbour.
    fn random_edge(&self, rng: &mut rand::rngs::StdRng) -> (r: (TorusVertex, TorusVertex)) {
        let vx = RingVertex(rand_below(rng, self.x));
        let vy = RingVertex(rand_below(rng, self.y));
        let v = TorusVertex(vx, vy);
        let nbs = self.iter_neighbours(v);
        let pick = rand_below(rng, nbs.len());
        (v, nbs[pick])
    }
}

impl TorusGraph {
    /// The concatenation of the two per-axis neighbour lists meets the
    /// neighbour-list contract of the torus.
    proof fn lemma_neighbour_list(
        &self,
        v: TorusVertex,
        nx: Seq<RingVertex>,
        ny: Seq<RingVertex>,
        r: Seq<TorusVertex>,
    )
        requires
            self.wf(),
            self.valid_vertex(v),
            nx.len() == spec_calc_d(self.x as int),
            forall|i: int|
                0 <= i < nx.len() ==> (#[trigger] nx[i]).0 < self.x && self.rx().edge(v.0, nx[i])
                    && nx[i].0 != v.0.0,
            forall|i: int, j: int| 0 <= i < j < nx.len() ==> nx[i].0 != nx[j].0,
            forall|u1: RingVertex|
                self.rx().valid_vertex(u1) && #[trigger] self.rx().edge(v.0, u1) && u1.0 != v.0.0
                    ==> exists|i: int| 0 <= i < nx.len() && nx[i] == u1,
            ny.len() == spec_calc_d(self.y as int),
            forall|i: int|
                0 <= i < ny.len() ==> (#[trigger] ny[i]).0 < self.y && self.ry().edge(v.1, ny[i])
                    && ny[i].0 != v.1.0,
            forall|i: int, j: int| 0 <= i < j < ny.len() ==> ny[i].0 != ny[j].0,
            forall|u1: RingVertex|
                self.ry().valid_vertex(u1) && #[trigger] self.ry().edge(v.1, u1) && u1.0 != v.1.0
                    ==> exists|i: int| 0 <= i < ny.len() && ny[i] == u1,
            r.len() == nx.len() + ny.len(),
            forall|i: int| 0 <= i < nx.len() ==> (#[trigger] r[i]) == TorusVertex(nx[i], v.1),
            forall|i: int|
                nx.len() <= i < r.len() ==> (#[trigger] r[i]) == TorusVertex(v.0, ny[i - nx.len()]),
        ensures
            r.len() == self.spec_d(),
            forall|i: int|
                0 <= i < r.len() ==> self.valid_vertex(#[trigger] r[i]) && self.edge(v, r[i])
                    && self.spec_idx(r[i]) != self.spec_idx(v),
            forall|i: int, j: int|
                0 <= i < j < r.len() ==> self.spec_idx(#[trigger] r[i]) != self.spec_idx(
                    #[trigger] r[j],
                ),
            forall|u: TorusVertex|
                self.valid_vertex(u) && #[trigger] self.edge(v, u) && self.spec_idx(u)
                    != self.spec_idx(v) ==> exists|i: int| 0 <= i < r.len() && r[i] == u,
    {
        let dx = nx.len() as int;
        assert forall|i: int|
            0 <= i < r.len() implies self.valid_vertex(#[trigger] r[i]) && self.edge(v, r[i])
            && self.spec_idx(r[i]) != self.spec_idx(v) by {
            if i < dx {
                assert(r[i] == TorusVertex(nx[i], v.1));
                assert(nx[i] != v.0);
                self.lemma_idx(nx[i].0 as int, v.1.0 as int);
                self.lemma_idx(v.0.0 as int, v.1.0 as int);
                assert(nx[i].0 * self.y != v.0.0 * self.y) by (nonlinear_arith)
                    requires
                        nx[i].0 != v.0.0 && self.y >= 1 && nx[i].0 >= 0 && v.0.0 >= 0,
                ;
            } else {
                assert(r[i] == TorusVertex(v.0, ny[i - dx]));
                assert(ny[i - dx] != v.1);
                self.lemma_idx(v.0.0 as int, ny[i - dx].0 as int);
                self.lemma_idx(v.0.0 as int, v.1.0 as int);
            }
        }
        assert forall|i: int, j: int|
            0 <= i < j < r.len() implies self.spec_idx(#[trigger] r[i]) != self.spec_idx(
            #[trigger] r[j],
        ) by {
            self.lemma_idx(r[i].0.0 as int, r[i].1.0 as int);
            self.lemma_idx(r[j].0.0 as int, r[j].1.0 as int);
            if i < dx && j < dx {
                assert(r[i].0.0 != r[j].0.0);
                assert(r[i].0.0 * self.y != r[j].0.0 * self.y) by (nonlinear_arith)
                    requires
                        r[i].0.0 != r[j].0.0 && self.y >= 1 && r[i].0.0 >= 0 && r[j].0.0 >= 0,
                ;
            } else if i < dx && j >= dx {
                assert(r[i].0.0 != v.0.0 && r[j].0.0 == v.0.0);
                assert(r[i].0.0 * self.y != r[j].0.0 * self.y) by (nonlinear_arith)
                    requires
                        r[i].0.0 != r[j].0.0 && self.y >= 1 && r[i].0.0 >= 0 && r[j].0.0 >= 0,
                ;
            } else {
                assert(r[i].1.0 != r[j].1.0);
            }
        }
        assert forall|u: TorusVertex|
            self.valid_vertex(u) && #[trigger] self.edge(v, u) && self.spec_idx(u)
                != self.spec_idx(v) implies exists|i: int| 0 <= i < r.len() && r[i] == u by {
            self.lemma_idx(u.0.0 as int, u.1.0 as int);
            self.lemma_idx(v.0.0 as int, v.1.0 as int);
            assert(u == TorusVertex(u.0, u.1));
            if v.0 == u.0 {
                assert(self.ry().edge(v.1, u.1)) by {
                    self.ry().edge_symmetric(v.1, u.1);
                }
                assert(u.1.0 != v.1.0) by {
                    if u.1.0 == v.1.0 {
                        assert(u.1 == RingVertex(u.1.0) && v.1 == RingVertex(v.1.0));
                    }
                }
                let i = choose|i: int| 0 <= i < ny.len() && ny[i] == u.1;
                assert(r[dx + i] == TorusVertex(v.0, ny[i]));
                assert(r[dx + i] == u);
            } else {
                assert(v.1 == u.1);
                assert(self.rx().edge(v.0, u.0)) by {
                    self.rx().edge_symmetric(v.0, u.0);
                }
                assert(u.0.0 != v.0.0) by {
                    if u.0.0 == v.0.0 {
                        assert(u.0 == RingVertex(u.0.0) && v.0 == RingVertex(v.0.0));
                    }
                }
                let i = choose|i: int| 0 <= i < nx.len() && nx[i] == u.0;
                assert(r[i] == TorusVertex(nx[i], v.1));
                assert(r[i] == u);
            }
        }
    }
}

} // verus!
