//! The ring graph: vertices on a cycle, each adjacent to its two
//! cyclic neighbours (one for a two-vertex ring, none for a single
//! vertex).

use vstd::prelude::*;

use vstd::arithmetic::div_mod::lemma_add_mod_noop;
use vstd::arithmetic::div_mod::lemma_fundamental_div_mod_converse;
use vstd::arithmetic::div_mod::lemma_mod_self_0;
use vstd::arithmetic::div_mod::lemma_small_mod;

use crate::graph::Graph;
use crate::rng::rand_below;
use crate::rng::rand_bool;

verus! {

/// The ring on `n` vertices.
pub struct RingGraph {
    pub n: usize,
}

/// A vertex of the ring, by position.
#[derive(Copy, Clone, Debug, Hash, Eq, PartialEq, Structural)]
pub struct RingVertex(pub usize);

/// The degree of a ring on `n` vertices: two, except for the degenerate
/// one- and two-vertex rings.
pub open spec fn spec_calc_d(n: int) -> int {
    if n <= 1 {
        0
    } else if n == 2 {
        1
    } else {
        2
    }
}

/// The degree of a ring on `n` vertices.
pub fn calc_d(n: usize) -> (r: usize)
    requires
        n >= 1,
    ensures
        r as int == spec_calc_d(n as int),
{
    if n == 1 {
        0
    } else if n == 2 {
        1
    } else {
        2
    }
}

/// The cyclic successor and predecessor of a position, written out.
proof fn lemma_step_values(n: int, x: int)
    requires
        1 <= n,
        0 <= x < n,
    ensures
        (x + 1) % n == if x == n - 1 {
            0int
        } else {
            x + 1
        },
        (x - 1) % n == if x == 0 {
            n - 1
        } else {
            x - 1
        },
{
    if x == n - 1 {
        lemma_mod_self_0(n);
    } else {
        lemma_small_mod((x + 1) as nat, n as nat);
    }
    if x == 0 {
        lemma_fundamental_div_mod_converse(-1, n, -1, n - 1);
    } else {
        lemma_small_mod((x - 1) as nat, n as nat);
    }
}

impl Graph for RingGraph {
    type Vertex = RingVertex;

    open spec fn wf(&self) -> bool {
        self.n >= 1
    }

    open spec fn spec_n(&self) -> int {
        self.n as int
    }

    open spec fn spec_d(&self) -> int {
        spec_calc_d(self.n as int)
    }

    open spec fn valid_vertex(&self, v: RingVertex) -> bool {
        v.0 < self.n
    }

    open spec fn spec_idx(&self, v: RingVertex) -> int {
        v.0 as int
    }

    open spec fn edge(&self, u: RingVertex, v: RingVertex) -> bool {
        &&& u.0 < self.n
        &&& v.0 < self.n
        &&& (v.0 as int == (u.0 + 1) % (self.n as int) || v.0 as int == (u.0 - 1) % (
        self.n as int))
    }

    proof fn edge_symmetric(&self, u: RingVertex, v: RingVertex) {
        let n = self.n as int;
        if u.0 < n && v.0 < n {
            lemma_step_values(n, u.0 as int);
            lemma_step_values(n, v.0 as int);
        }
    }

    proof fn idx_injective(&self, u: RingVertex, v: RingVertex) {
    }

    fn n(&self) -> (r: usize) {
        self.n
    }

    fn d(&self) -> (r: usize) {
        calc_d(self.n)
    }

    fn as_idx(&self, v: RingVertex) -> (r: usize) {
        v.0
    }

    fn iter_vertices(&self) -> (r: Vec<RingVertex>) {
        let mut r: Vec<RingVertex> = Vec::new();
        let mut k: usize = 0;
        while k < self.n
            invariant
                k <= self.n,
                r@.len() == k,
                forall|i: int| 0 <= i < k ==> (#[trigger] r@[i]) == RingVertex(i as usize),
            decreases self.n - k,
        {
            r.push(RingVertex(k));
            k += 1;
        }
        proof {
            assert forall|i: int|
                0 <= i < r@.len() implies self.valid_vertex(#[trigger] r@[i]) && self.spec_idx(
                r@[i],
            ) == i by {
                assert(r@[i] == RingVertex(i as usize));
            }
        }
        r
    }

    fn iter_neighbours(&self, v: RingVertex) -> (r: Vec<RingVertex>) {
        let dd = calc_d(self.n);
        let mut r: Vec<RingVertex> = Vec::new();
        if dd >= 1 {
            r.push(self.add(v, 1));
        }
        if dd == 2 {
            r.push(self.add(v, -1));
        }
        proof {
            let n = self.n as int;
            lemma_step_values(n, v.0 as int);
            assert forall|i: int|
                0 <= i < r@.len() implies self.valid_vertex(#[trigger] r@[i]) && self.edge(
                v,
                r@[i],
            ) && self.spec_idx(r@[i]) != self.spec_idx(v) by {
                if i == 0 {
                    assert(r@[0].0 as int == (v.0 + 1) % n);
                } else {
                    assert(r@[1].0 as int == (v.0 - 1) % n);
                }
            }
            assert forall|u: RingVertex|
                self.valid_vertex(u) && #[trigger] self.edge(v, u) && self.spec_idx(u)
                    != self.spec_idx(v) implies exists|i: int| 0 <= i < r@.len() && r@[i] == u by {
                assert(u == RingVertex(u.0));
                if self.n >= 3 {
                    if u.0 as int == (v.0 + 1) % n {
                        assert(u.0 == r@[0].0);
                        assert(r@[0] == u);
                    } else {
                        assert(u.0 as int == (v.0 - 1) % n);
                        assert(u.0 == r@[1].0);
                        assert(r@[1] == u);
                    }
                } else {
                    assert(self.n == 2);
                    assert(u.0 == r@[0].0);
                    assert(r@[0] == u);
                }
            }
        }
        r
    }

    fn has_edge(&self, v: RingVertex, u: RingVertex) -> (r: bool) {
        u == self.add(v, 1) || u == self.add(v, -1)
    }

    /// Samples a uniform vertex, then one of its two cyclic neighbours
    /// with equal probability.
    fn random_edge(&self, rng: &mut rand::rngs::StdRng) -> (r: (RingVertex, RingVertex)) {
        let v = RingVertex(rand_below(rng, self.n));
        let off: isize = if rand_bool(rng) {
            1
        } else {
            -1
        };
        let u = self.add(v, off);
        proof {
            lemma_step_values(self.n as int, v.0 as int);
        }
        (v, u)
    }
}

impl RingGraph {
    /// The vertex `rhs` cyclic steps away from `v`.
    pub fn add(&self, v: RingVertex, rhs: isize) -> (r: RingVertex)
        requires
            1 <= self.n,
            v.0 < self.n,
            -(self.n as int) <= rhs <= self.n as int,
            isize::MIN < rhs,
        ensures
            r.0 < self.n,
            r.0 as int == (v.0 + rhs) % (self.n as int),
    {
        let n = self.n;
        let ghost ni = n as int;
        let off: usize = if rhs >= 0 {
            (rhs as usize) % n
        } else {
            (n - (((-rhs) as usize) % n)) % n
        };
        proof {
            vstd::arithmetic::div_mod::lemma_mod_division_less_than_divisor(rhs as int, ni);
            if rhs >= 0 {
                assert(off as int == rhs as int % ni);
            } else {
                let a = -(rhs as int);
                let m = a % ni;
                vstd::arithmetic::div_mod::lemma_mod_division_less_than_divisor(a, ni);
                if m == 0 {
                    assert(a == ni) by {
                        vstd::arithmetic::div_mod::lemma_fundamental_div_mod(a, ni);
                        assert(a / ni == 1) by {
                            if a / ni <= 0 {
                                assert(ni * (a / ni) <= 0) by (nonlinear_arith)
                                    requires
                                        ni >= 1 && a / ni <= 0,
                                ;
                            }
                            if a / ni >= 2 {
                                assert(ni * (a / ni) >= 2 * ni) by (nonlinear_arith)
                                    requires
                                        ni >= 1 && a / ni >= 2,
                                ;
                            }
                        }
                    }
                    lemma_fundamental_div_mod_converse(rhs as int, ni, -1, 0);
                    lemma_mod_self_0(ni);
                    assert(off as int == 0);
                } else {
                    assert(a < ni) by {
                        if a == ni {
                            lemma_mod_self_0(ni);
                        }
                    }
                    lemma_small_mod(a as nat, ni as nat);
                    assert(m == a);
                    lemma_small_mod((ni - m) as nat, ni as nat);
                    lemma_fundamental_div_mod_converse(rhs as int, ni, -1, ni - m);
                    assert(off as int == ni - m);
                }
            }
            assert(off as int == rhs as int % ni);
            assert(off < n);
        }
        let s = if v.0 < n - off {
            v.0 + off
        } else {
            v.0 - (n - off)
        };
        proof {
            lemma_add_mod_noop(v.0 as int, rhs as int, ni);
            lemma_small_mod(v.0 as nat, n as nat);
            if v.0 < n - off {
                lemma_small_mod((v.0 + off) as nat, n as nat);
            } else {
                lemma_fundamental_div_mod_converse(v.0 + off, ni, 1, v.0 + off - ni);
            }
        }
        RingVertex(s)
    }
}

} // verus!
