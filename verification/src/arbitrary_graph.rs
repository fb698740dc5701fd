//! The arbitrary-regular graph: a simple repaired pairing from the
//! configuration model, materialized into per-vertex adjacency arrays.

use vstd::prelude::*;

use vstd::arithmetic::div_mod::lemma_fundamental_div_mod_converse;
use vstd::arithmetic::mul::lemma_mul_inequality;

use crate::deg::deg;
use crate::deg::is_matching;
use crate::deg::lemma_cell_count;
use crate::deg::lemma_matching_range;
use crate::deg::pcnt;
use crate::graph::Graph;
use crate::graph::lemma_push_contains;
use crate::rng::rand_below;

verus! {

/// A random d-regular simple graph, stored as `d` neighbour entries per
/// vertex.
pub struct ArbitraryGraph {
    d: usize,
    data: Vec<Vertex>,
}

/// A vertex of an arbitrary-regular graph, by position.
#[derive(Copy, Clone, Debug, Hash, Eq, PartialEq, Structural)]
pub struct Vertex(pub usize);

/// Some pair among the first `k` of `cs` connects `a` and `b`, in either
/// order.
pub open spec fn cp_links(cs: Seq<(usize, usize)>, k: int, a: usize, b: usize) -> bool {
    exists|i: int| 0 <= i < k && ((#[trigger] cs[i]) == (a, b) || cs[i] == (b, a))
}

impl ArbitraryGraph {
    /// The flat adjacency array: `d` entries per vertex.
    pub closed spec fn spec_data(&self) -> Seq<Vertex> {
        self.data@
    }

    /// The degree.
    pub closed spec fn spec_deg(&self) -> int {
        self.d as int
    }

    /// The number of vertices.
    pub open spec fn nverts(&self) -> int {
        self.spec_data().len() as int / self.spec_deg()
    }

    /// `b` appears among the neighbour entries of vertex `a`.
    pub open spec fn in_nbrs(&self, a: int, b: int) -> bool {
        exists|j: int|
            0 <= j < self.spec_deg() && (#[trigger] self.spec_data()[a * self.spec_deg() + j]).0
                == b
    }

    /// The adjacency array describes a d-regular simple graph: entries are
    /// valid vertices, no vertex lists itself, no vertex lists a
    /// neighbour twice, and the neighbour relation is symmetric.
    pub open spec fn inv(&self) -> bool {
        &&& self.spec_deg() >= 1
        &&& self.spec_data().len() == self.nverts() * self.spec_deg()
        &&& self.spec_data().len() <= usize::MAX
        &&& forall|v: int, j: int|
            0 <= v < self.nverts() && 0 <= j < self.spec_deg() ==> (
            #[trigger] self.spec_data()[v * self.spec_deg() + j]).0 < self.nverts()
                && self.spec_data()[v * self.spec_deg() + j].0 != v
        &&& forall|v: int, j1: int, j2: int|
            #![trigger self.spec_data()[v * self.spec_deg() + j1], self.spec_data()[v * self.spec_deg() + j2]]
            0 <= v < self.nverts() && 0 <= j1 < j2 < self.spec_deg()
                ==> self.spec_data()[v * self.spec_deg() + j1].0 != self.spec_data()[v
                * self.spec_deg() + j2].0
        &&& forall|a: int, b: int|
            #![trigger self.in_nbrs(a, b)]
            0 <= a < self.nverts() && 0 <= b < self.nverts() ==> (self.in_nbrs(a, b)
                <==> self.in_nbrs(b, a))
    }

    /// A vertex slot lies inside the flat array and decomposes uniquely.
    proof fn lemma_slot(&self, v: int, j: int)
        requires
            self.spec_deg() >= 1,
            self.spec_data().len() == self.nverts() * self.spec_deg(),
            0 <= v < self.nverts(),
            0 <= j < self.spec_deg(),
        ensures
            0 <= v * self.spec_deg() + j < self.spec_data().len(),
            0 <= v * self.spec_deg() <= v * self.spec_deg() + j,
    {
        let d = self.spec_deg();
        let n = self.nverts();
        lemma_mul_inequality(v, n - 1, d);
        assert((n - 1) * d + (d - 1) < n * d) by (nonlinear_arith)
            requires
                d >= 1,
        ;
        assert(v * d >= 0) by (nonlinear_arith)
            requires
                v >= 0 && d >= 0,
        ;
    }

    /// The neighbour entries of `v`, as a slice of the flat array.
    pub fn neighbours(&self, v: Vertex) -> (r: &[Vertex])
        requires
            self.inv(),
            (v.0 as int) < self.nverts(),
        ensures
            r@.len() == self.spec_deg(),
            forall|j: int|
                0 <= j < r@.len() ==> (#[trigger] r@[j]) == self.spec_data()[v.0
                    * self.spec_deg() + j],
    {
        proof {
            self.lemma_slot(v.0 as int, 0);
            self.lemma_slot(v.0 as int, self.spec_deg() - 1);
        }
        let lo = v.0 * self.d;
        let hi = lo + self.d;
        let r = vstd::slice::slice_subrange(self.data.as_slice(), lo, hi);
        proof {
            assert forall|j: int|
                0 <= j < r@.len() implies (#[trigger] r@[j]) == self.spec_data()[v.0
                * self.spec_deg() + j] by {
                assert(r@[j] == self.spec_data().subrange(lo as int, hi as int)[j]);
            }
        }
        r
    }

    /// Materialize a random simple d-regular graph from the configuration
    /// model, retrying generation at most `attempts` times; `None` reports
    /// an exhausted retry budget.
    pub fn random(n: usize, d: usize, attempts: u64, rng: &mut rand::rngs::StdRng) -> (r: Option<
        ArbitraryGraph,
    >)
        requires
            n >= 1,
            d >= 1,
            (n * d) % 2 == 0,
            n * d <= usize::MAX,
            n * n <= usize::MAX,
            n * d * (d - 1) <= usize::MAX,
            4 * (d - 1) * (d - 1) <= usize::MAX,
        ensures
            match r {
                Some(g) => g.inv() && g.nverts() == n as int && g.spec_deg() == d as int,
                None => true,
            },
    {
        let pairing = match deg(n, d, attempts, rng) {
            None => {
                return None;
            },
            Some(p) => p,
        };
        let cps = pairing.cell_pairs();
        let ghost cs = cps@;
        let m = cps.len();
        proof {
            // The cell-pair list of a simple pairing: cells in range, no
            // loops, no two pairs over one cell pair.
            assert forall|i: int|
                0 <= i < m implies (#[trigger] cs[i]).0 < n && cs[i].1 < n && cs[i].0
                != cs[i].1 by {
                assert(!pairing.is_loop_at(i));
            }
            assert forall|i: int, i2: int|
                0 <= i < i2 < m implies !((cs[i2].0 == (#[trigger] cs[i]).0 && cs[i2].1 == cs[i].1)
                || (cs[i2].0 == cs[i].1 && (#[trigger] cs[i2]).1 == cs[i].0)) by {
                assert(!pairing.links(i2, pairing.pcell0(i), pairing.pcell1(i)));
            }
            // Each cell occurs exactly `d` times among the cell pairs.
            assert forall|v: int| 0 <= v < n implies pcnt(cs, v) == d by {
                lemma_cell_count(pairing.spec_pairs(), cs, d as int, v);
                assert(is_matching(pairing.spec_pairs(), n as int * d as int));
                assert(v * d + d <= n * d) by (nonlinear_arith)
                    requires
                        0 <= v < n && d >= 1,
                ;
                assert(v * d >= 0) by (nonlinear_arith)
                    requires
                        v >= 0 && d >= 0,
                ;
                lemma_matching_range(
                    pairing.spec_pairs(),
                    v * d,
                    v * d + d,
                    n as int * d as int,
                );
            }
        }
        let mut res: Vec<Vec<usize>> = Vec::new();
        let mut i: usize = 0;
        while i < n
            invariant
                i <= n,
                res@.len() == i,
                forall|v: int| 0 <= v < i ==> (#[trigger] res@[v])@.len() == 0,
            decreases n - i,
        {
            res.push(Vec::new());
            i += 1;
        }
        let mut kk: usize = 0;
        proof {
            assert(cs.subrange(0, 0) =~= Seq::<(usize, usize)>::empty());
            assert forall|v: int| 0 <= v < n implies pcnt(cs.subrange(0, 0), v) == 0 by {}
        }
        while kk < m
            invariant
                kk <= m,
                m == cs.len(),
                cps@ == cs,
                n >= 1,
                d >= 1,
                res@.len() == n,
                forall|i2: int|
                    0 <= i2 < m ==> (#[trigger] cs[i2]).0 < n && cs[i2].1 < n && cs[i2].0
                        != cs[i2].1,
                forall|i2: int, i3: int|
                    0 <= i2 < i3 < m ==> !((cs[i3].0 == (#[trigger] cs[i2]).0 && cs[i3].1
                        == cs[i2].1) || (cs[i3].0 == cs[i2].1 && (#[trigger] cs[i3]).1
                        == cs[i2].0)),
                forall|v: int|
                    0 <= v < n ==> (#[trigger] res@[v])@.len() == pcnt(
                        cs.subrange(0, kk as int),
                        v,
                    ),
                forall|v: int, j: int|
                    0 <= v < n && 0 <= j < res@[v]@.len() ==> ((#[trigger] res@[v]@[j]) < n
                        && res@[v]@[j] as int != v && cp_links(
                        cs,
                        kk as int,
                        v as usize,
                        res@[v]@[j],
                    )),
                forall|v: int, j1: int, j2: int|
                    #![trigger res@[v]@[j1], res@[v]@[j2]]
                    0 <= v < n && 0 <= j1 < j2 < res@[v]@.len() ==> res@[v]@[j1] != res@[v]@[j2],
                forall|i2: int|
                    0 <= i2 < kk ==> (#[trigger] res@[cs[i2].0 as int])@.contains(cs[i2].1)
                        && res@[cs[i2].1 as int]@.contains(cs[i2].0),
            decreases m - kk,
        {
            let (c1, c2) = cps[kk];
            let ghost tbl = res@;
            let ghost row1 = res@[c1 as int]@;
            res[c1].push(c2);
            let ghost row2 = res@[c2 as int]@;
            res[c2].push(c1);
            proof {
                assert(cs[kk as int] == (c1, c2));
                assert(c1 != c2);
                assert(row2 == tbl[c2 as int]@);
                assert(res@[c1 as int]@ == row1.push(c2));
                assert(res@[c2 as int]@ == row2.push(c1));
                assert(forall|v: int|
                    0 <= v < n && v != c1 && v != c2 ==> (#[trigger] res@[v])@ == tbl[v]@);
                lemma_push_contains(row1, c2);
                lemma_push_contains(row2, c1);
                let sub0 = cs.subrange(0, kk as int);
                let sub1 = cs.subrange(0, kk + 1);
                assert(sub1.drop_last() =~= sub0);
                assert(sub1.last() == (c1, c2));
                // Counts advance by this pair's contribution.
                assert forall|v: int|
                    0 <= v < n implies (#[trigger] res@[v])@.len() == pcnt(sub1, v) by {
                    assert(pcnt(sub1, v) == pcnt(sub0, v) + crate::deg::hcontrib((c1, c2), v));
                }
                // Provenance, including the two new entries.
                assert forall|v: int, j: int|
                    0 <= v < n && 0 <= j < res@[v]@.len() implies ((#[trigger] res@[v]@[j]) < n
                    && res@[v]@[j] as int != v && cp_links(
                    cs,
                    kk + 1,
                    v as usize,
                    res@[v]@[j],
                )) by {
                    if v == c1 && j == row1.len() {
                        assert(res@[v]@[j] == c2);
                        assert(cs[kk as int] == ((v as usize), c2));
                    } else if v == c2 && j == row2.len() {
                        assert(res@[v]@[j] == c1);
                        assert(cs[kk as int] == (c1, (v as usize)));
                    } else {
                        assert(res@[v]@[j] == tbl[v]@[j]);
                        assert(cp_links(cs, kk as int, v as usize, tbl[v]@[j]));
                        let i0 = choose|i0: int|
                            0 <= i0 < kk && ((#[trigger] cs[i0]) == ((v as usize), tbl[v]@[j])
                                || cs[i0] == (tbl[v]@[j], (v as usize)));
                        assert(0 <= i0 < kk + 1);
                    }
                }
                // No duplicate neighbour entries appear.
                assert forall|v: int, j1: int, j2: int|
                    #![trigger res@[v]@[j1], res@[v]@[j2]]
                    0 <= v < n && 0 <= j1 < j2 < res@[v]@.len() implies res@[v]@[j1]
                    != res@[v]@[j2] by {
                    if v == c1 && j2 == row1.len() {
                        assert(res@[v]@[j1] == row1[j1]);
                        if row1[j1] == c2 {
                            assert(cp_links(cs, kk as int, c1, c2));
                            let i0 = choose|i0: int|
                                0 <= i0 < kk && ((#[trigger] cs[i0]) == (c1, c2) || cs[i0] == (
                                c2,
                                c1,
                                ));
                            assert(false);
                        }
                    } else if v == c2 && j2 == row2.len() {
                        assert(res@[v]@[j1] == row2[j1]);
                        if row2[j1] == c1 {
                            assert(cp_links(cs, kk as int, c2, c1));
                            let i0 = choose|i0: int|
                                0 <= i0 < kk && ((#[trigger] cs[i0]) == (c2, c1) || cs[i0] == (
                                c1,
                                c2,
                                ));
                            assert(false);
                        }
                    } else if v == c1 {
                        assert(res@[v]@[j1] == row1[j1] && res@[v]@[j2] == row1[j2]);
                    } else if v == c2 {
                        assert(res@[v]@[j1] == row2[j1] && res@[v]@[j2] == row2[j2]);
                    } else {
                        assert(res@[v]@[j1] == tbl[v]@[j1] && res@[v]@[j2] == tbl[v]@[j2]);
                    }
                }
                // Both directions of every processed pair are recorded.
                assert forall|i2: int|
                    0 <= i2 < kk + 1 implies (#[trigger] res@[cs[i2].0 as int])@.contains(
                    cs[i2].1,
                ) && res@[cs[i2].1 as int]@.contains(cs[i2].0) by {
                    if i2 == kk {
                        assert(row1.push(c2).contains(c2));
                        assert(row2.push(c1).contains(c1));
                        assert(res@[cs[i2].0 as int]@ == row1.push(c2));
                        assert(res@[cs[i2].1 as int]@ == row2.push(c1));
                    } else {
                        let a0 = cs[i2].0;
                        let b0 = cs[i2].1;
                        assert(tbl[a0 as int]@.contains(b0));
                        assert(tbl[b0 as int]@.contains(a0));
                        if a0 == c1 {
                            assert(res@[a0 as int]@ == row1.push(c2));
                            assert(row1.push(c2).contains(b0));
                        } else if a0 == c2 {
                            assert(res@[a0 as int]@ == row2.push(c1));
                            assert(row2.push(c1).contains(b0));
                        } else {
                            assert(res@[a0 as int]@ == tbl[a0 as int]@);
                        }
                        if b0 == c1 {
                            assert(res@[b0 as int]@ == row1.push(c2));
                            assert(row1.push(c2).contains(a0));
                        } else if b0 == c2 {
                            assert(res@[b0 as int]@ == row2.push(c1));
                            assert(row2.push(c1).contains(a0));
                        } else {
                            assert(res@[b0 as int]@ == tbl[b0 as int]@);
                        }
                    }
                }
            }
            kk += 1;
        }
        proof {
            assert(cs.subrange(0, m as int) =~= cs);
            assert forall|v: int| 0 <= v < n implies (#[trigger] res@[v])@.len() == d by {}
        }
        // Flatten the per-vertex lists into one array of `d` entries per
        // vertex.
        let mut data: Vec<Vertex> = Vec::new();
        let mut v: usize = 0;
        while v < n
            invariant
                v <= n,
                n >= 1,
                d >= 1,
                n * d <= usize::MAX,
                res@.len() == n,
                forall|w: int| 0 <= w < n ==> (#[trigger] res@[w])@.len() == d,
                data@.len() == v * d,
                forall|w: int, j: int|
                    #![trigger res@[w]@[j]]
                    0 <= w < v && 0 <= j < d ==> data@[w * d + j] == Vertex(res@[w]@[j]),
            decreases n - v,
        {
            proof {
                lemma_mul_inequality(v as int, n as int - 1, d as int);
                assert((n - 1) * d + d <= n * d) by (nonlinear_arith)
                    requires
                        n >= 1 && d >= 1,
                ;
                assert(v as int * d >= 0) by (nonlinear_arith)
                    requires
                        d >= 0,
                ;
            }
            let ghost base = data@.len() as int;
            let mut j: usize = 0;
            while j < d
                invariant
                    j <= d,
                    v < n,
                    res@.len() == n,
                    (res@[v as int])@.len() == d,
                    base == v as int * d,
                    base + d <= n * d,
                    n * d <= usize::MAX,
                    data@.len() == base + j,
                    forall|jj: int|
                        #![trigger res@[v as int]@[jj]]
                        0 <= jj < j ==> data@[base + jj] == Vertex(res@[v as int]@[jj]),
                    forall|w: int, jj: int|
                        #![trigger res@[w]@[jj]]
                        0 <= w < v && 0 <= jj < d ==> data@[w * d as int + jj] == Vertex(
                            res@[w]@[jj],
                        ),
                decreases d - j,
            {
                let x = res[v][j];
                let ghost pre_data = data@;
                data.push(Vertex(x));
                proof {
                    assert forall|w: int, jj: int|
                        #![trigger res@[w]@[jj]]
                        0 <= w < v && 0 <= jj < d implies data@[w * d as int + jj] == Vertex(
                        res@[w]@[jj],
                    ) by {
                        assert(w * d as int + jj < base) by (nonlinear_arith)
                            requires
                                0 <= w < v as int && 0 <= jj < d as int && base == v as int * d,
                        ;
                        assert(data@[w * d as int + jj] == pre_data[w * d as int + jj]);
                    }
                }
                j += 1;
            }
            proof {
                assert forall|jj: int|
                    #![trigger res@[v as int]@[jj]]
                    0 <= jj < d implies data@[v as int * (d as int) + jj] == Vertex(
                    res@[v as int]@[jj],
                ) by {
                    assert(data@[base + jj] == Vertex(res@[v as int]@[jj]));
                }
                assert(v as int * d + d == (v as int + 1) * d) by (nonlinear_arith);
            }
            v += 1;
        }
        let total = data.len();
        let g = ArbitraryGraph { d, data };
        proof {
            assert(g.spec_data().len() == total);
        }
        proof {
            assert(g.spec_data().len() == n as int * d as int) by (nonlinear_arith)
                requires
                    g.spec_data().len() == n as int * d,
            ;
            assert(g.nverts() == n as int) by {
                vstd::arithmetic::div_mod::lemma_div_multiples_vanish(n as int, d as int);
                assert(n as int * d as int == d as int * n as int) by (nonlinear_arith);
            }
            assert(g.spec_deg() == d as int);
            assert forall|w: int, j: int|
                0 <= w < n && 0 <= j < d implies (#[trigger] g.spec_data()[w * g.spec_deg() + j])
                == Vertex(res@[w]@[j]) by {
                assert(g.spec_data()[w * d as int + j] == Vertex(res@[w]@[j]));
            }
            assert(g.inv()) by {
                assert forall|a: int, b: int|
                    #![trigger g.in_nbrs(a, b)]
                    0 <= a < n && 0 <= b < n implies (g.in_nbrs(a, b) <==> g.in_nbrs(b, a)) by {
                    g.lemma_nbrs_sym(cs, res@, a, b, n as int, m as int);
                    g.lemma_nbrs_sym(cs, res@, b, a, n as int, m as int);
                }
            }
        }
        Some(g)
    }

    /// One direction of neighbour symmetry, via the recorded pair that
    /// produced the entry.
    proof fn lemma_nbrs_sym(
        &self,
        cs: Seq<(usize, usize)>,
        res: Seq<Vec<usize>>,
        a: int,
        b: int,
        n: int,
        m: int,
    )
        requires
            self.spec_deg() >= 1,
            self.nverts() == n,
            self.spec_data().len() == n * self.spec_deg(),
            0 <= a < n,
            0 <= b < n,
            self.spec_data().len() <= usize::MAX,
            res.len() == n,
            forall|w: int| 0 <= w < n ==> (#[trigger] res[w])@.len() == self.spec_deg(),
            forall|w: int, j: int|
                0 <= w < n && 0 <= j < self.spec_deg() ==> (#[trigger] self.spec_data()[w
                    * self.spec_deg() + j]) == Vertex(res[w]@[j]),
            forall|w: int, j: int|
                0 <= w < n && 0 <= j < res[w]@.len() ==> ((#[trigger] res[w]@[j]) < n
                    && res[w]@[j] as int != w && cp_links(cs, m, w as usize, res[w]@[j])),
            forall|i2: int|
                0 <= i2 < m ==> (#[trigger] res[cs[i2].0 as int])@.contains(cs[i2].1)
                    && res[cs[i2].1 as int]@.contains(cs[i2].0),
            forall|i2: int| 0 <= i2 < m ==> (#[trigger] cs[i2]).0 < n && cs[i2].1 < n,
        ensures
            self.in_nbrs(a, b) ==> self.in_nbrs(b, a),
    {
        let d = self.spec_deg();
        assert(n <= n * d) by (nonlinear_arith)
            requires
                d >= 1 && n >= 0,
        ;
        if self.in_nbrs(a, b) {
            let j = choose|j: int| 0 <= j < d && (#[trigger] self.spec_data()[a * d + j]).0 == b;
            assert(self.spec_data()[a * d + j] == Vertex(res[a]@[j]));
            assert(res[a]@[j] as int == b);
            assert(cp_links(cs, m, a as usize, res[a]@[j]));
            let i0 = choose|i0: int|
                0 <= i0 < m && ((#[trigger] cs[i0]) == ((a as usize), res[a]@[j]) || cs[i0] == (
                res[a]@[j],
                (a as usize),
                ));
            assert(res[cs[i0].0 as int]@.contains(cs[i0].1) && res[cs[i0].1 as int]@.contains(
                cs[i0].0,
            ));
            assert(res[b]@.contains(a as usize));
            let j2 = choose|j2: int| 0 <= j2 < res[b]@.len() && res[b]@[j2] == a as usize;
            assert(self.spec_data()[b * d + j2] == Vertex(res[b]@[j2]));
            assert(self.spec_data()[b * d + j2].0 == a);
        }
    }
}

impl Graph for ArbitraryGraph {
    type Vertex = Vertex;

    open spec fn wf(&self) -> bool {
        self.inv()
    }

    open spec fn spec_n(&self) -> int {
        self.nverts()
    }

    open spec fn spec_d(&self) -> int {
        self.spec_deg()
    }

    open spec fn valid_vertex(&self, v: Vertex) -> bool {
        (v.0 as int) < self.nverts()
    }

    open spec fn spec_idx(&self, v: Vertex) -> int {
        v.0 as int
    }

    open spec fn edge(&self, u: Vertex, v: Vertex) -> bool {
        &&& (u.0 as int) < self.nverts()
        &&& (v.0 as int) < self.nverts()
        &&& self.in_nbrs(u.0 as int, v.0 as int)
    }

    proof fn edge_symmetric(&self, u: Vertex, v: Vertex) {
    }

    proof fn idx_injective(&self, u: Vertex, v: Vertex) {
    }

    fn n(&self) -> (r: usize) {
        proof {
            assert(self.spec_data().len() as int / self.spec_deg() == self.nverts());
        }
        self.data.len() / self.d
    }

    fn d(&self) -> (r: usize) {
        self.d
    }

    fn as_idx(&self, v: Vertex) -> (r: usize) {
        v.0
    }

    fn iter_vertices(&self) -> (r: Vec<Vertex>) {
        let n = self.data.len() / self.d;
        let mut r: Vec<Vertex> = Vec::new();
        let mut k: usize = 0;
        while k < n
            invariant
                k <= n,
                n == self.nverts(),
                r@.len() == k,
                forall|i: int| 0 <= i < k ==> (#[trigger] r@[i]) == Vertex(i as usize),
            decreases n - k,
        {
            r.push(Vertex(k));
            k += 1;
        }
        proof {
            assert forall|i: int|
                0 <= i < r@.len() implies self.valid_vertex(#[trigger] r@[i]) && self.spec_idx(
                r@[i],
            ) == i by {
                assert(r@[i] == Vertex(i as usize));
            }
        }
        r
    }

    fn iter_neighbours(&self, v: Vertex) -> (r: Vec<Vertex>) {
        let mut r: Vec<Vertex> = Vec::new();
        let mut j: usize = 0;
        proof {
            self.lemma_slot(v.0 as int, 0);
        }
        while j < self.d
            invariant
                j <= self.d,
                self.inv(),
                (v.0 as int) < self.nverts(),
                r@.len() == j,
                forall|k: int|
                    0 <= k < j ==> (#[trigger] r@[k]) == self.spec_data()[v.0 * self.spec_deg()
                        + k],
            decreases self.d - j,
        {
            proof {
                self.lemma_slot(v.0 as int, j as int);
            }
            let x = self.data[v.0 * self.d + j];
            r.push(x);
            j += 1;
        }
        proof {
            assert forall|k: int|
                0 <= k < r@.len() implies self.valid_vertex(#[trigger] r@[k]) && self.edge(
                v,
                r@[k],
            ) && self.spec_idx(r@[k]) != self.spec_idx(v) by {
                assert(self.spec_data()[v.0 * self.spec_deg() + k].0 < self.nverts());
                assert(self.in_nbrs(v.0 as int, r@[k].0 as int));
            }
            assert forall|k1: int, k2: int|
                0 <= k1 < k2 < r@.len() implies self.spec_idx(#[trigger] r@[k1]) != self.spec_idx(
                #[trigger] r@[k2],
            ) by {
                assert(self.spec_data()[v.0 * self.spec_deg() + k1].0 != self.spec_data()[v.0
                    * self.spec_deg() + k2].0);
            }
            assert forall|u: Vertex|
                self.valid_vertex(u) && #[trigger] self.edge(v, u) && self.spec_idx(u)
                    != self.spec_idx(v) implies exists|k: int| 0 <= k < r@.len() && r@[k] == u by {
                let j0 = choose|j0: int|
                    0 <= j0 < self.spec_deg() && (#[trigger] self.spec_data()[v.0 * self.spec_deg()
                        + j0]).0 == u.0;
                assert(r@[j0] == self.spec_data()[v.0 * self.spec_deg() + j0]);
                assert(r@[j0].0 == u.0);
                assert(u == Vertex(u.0) && r@[j0] == Vertex(r@[j0].0));
            }
        }
        r
    }

    fn has_edge(&self, v: Vertex, u: Vertex) -> (r: bool) {
        let mut j: usize = 0;
        while j < self.d
            invariant
                j <= self.d,
                self.inv(),
                (v.0 as int) < self.nverts(),
                forall|k: int|
                    0 <= k < j ==> (#[trigger] self.spec_data()[v.0 * self.spec_deg() + k]).0
                        != u.0,
            decreases self.d - j,
        {
            proof {
                self.lemma_slot(v.0 as int, j as int);
            }
            if self.data[v.0 * self.d + j] == u {
                return true;
            }
            j += 1;
        }
        proof {
            if self.in_nbrs(v.0 as int, u.0 as int) {
                let j0 = choose|j0: int|
                    0 <= j0 < self.spec_deg() && (#[trigger] self.spec_data()[v.0 * self.spec_deg()
                        + j0]).0 == u.0;
                assert(false);
            }
        }
        false
    }

    /// Samples a uniform vertex, then a uniform incident slot.
    fn random_edge(&self, rng: &mut rand::rngs::StdRng) -> (r: (Vertex, Vertex)) {
        let n = self.data.len() / self.d;
        let v = Vertex(rand_below(rng, n));
        let off = rand_below(rng, self.d);
        proof {
            self.lemma_slot(v.0 as int, off as int);
        }
        let u = self.data[v.0 * self.d + off];
        proof {
            assert(self.in_nbrs(v.0 as int, u.0 as int));
        }
        (v, u)
    }
}

} // verus!
