//! Configuration-model generator for random d-regular multigraphs, with a
//! switching repair engine that removes self-loops and multi-edges.
//!
//! A `Pairing` is a perfect matching over `n * d` half-edges, kept together
//! with a bucket table that lists, for every unordered cell pair, the pair
//! indices connecting the two cells.  The generator draws a uniformly random
//! matching; the repair engine rewires defective pairs locally until the
//! pairing is simple, restarting generation when no rewiring is possible.

use vstd::prelude::*;
use vstd::multiset::Multiset;
use vstd::arithmetic::div_mod::lemma_fundamental_div_mod_converse;
use vstd::arithmetic::div_mod::lemma_multiply_divide_lt;
use vstd::arithmetic::mul::lemma_mul_inequality;

use crate::graph::lemma_push_contains;
use crate::rng::pick_pair;
use crate::rng::rand_below;
use crate::rng::shuffle;

verus! {

/// The cell (vertex) that half-edge `h` belongs to, at degree `d`.
pub open spec fn cell_of(d: int, h: int) -> int {
    h / d
}

/// Canonical position of the unordered cell pair `{c1, c2}` in the flat
/// `n x n` bucket table: the larger cell times `n`, plus the smaller.
pub open spec fn cpi(n: int, c1: int, c2: int) -> int {
    if c1 > c2 {
        c1 * n + c2
    } else {
        c2 * n + c1
    }
}

/// How many endpoints of the single pair `p` equal the half-edge `h`.
pub open spec fn hcontrib(p: (usize, usize), h: int) -> int {
    (if p.0 as int == h {
        1int
    } else {
        0int
    }) + (if p.1 as int == h {
        1int
    } else {
        0int
    })
}

/// Occurrences of half-edge `h` among the endpoints of the pair list `s`.
pub open spec fn pcnt(s: Seq<(usize, usize)>, h: int) -> int
    decreases s.len(),
{
    if s.len() == 0 {
        0
    } else {
        pcnt(s.drop_last(), h) + hcontrib(s.last(), h)
    }
}

/// `s` is a perfect matching of the half-edges `0 .. nd`: each occurs
/// exactly once among all endpoints.
pub open spec fn is_matching(s: Seq<(usize, usize)>, nd: int) -> bool {
    forall|h: int| 0 <= h < nd ==> pcnt(s, h) == 1
}

/// The bucket position of the cell pair that `p` connects, at table width
/// `n` and degree `d`.
pub open spec fn cp_in(n: int, d: int, p: (usize, usize)) -> int {
    cpi(n, cell_of(d, p.0 as int), cell_of(d, p.1 as int))
}

/// Occurrences of the value `h` in the list `s`.
pub open spec fn scnt(s: Seq<usize>, h: int) -> int
    decreases s.len(),
{
    if s.len() == 0 {
        0
    } else {
        scnt(s.drop_last(), h) + (if s.last() as int == h {
            1int
        } else {
            0int
        })
    }
}

/// A half-edge below `n * d` lies in a cell below `n`.
proof fn lemma_cell_range(n: int, d: int, h: int)
    requires
        d >= 1,
        0 <= h < n * d,
    ensures
        0 <= cell_of(d, h) < n,
{
    assert(d * n == n * d) by (nonlinear_arith);
    lemma_multiply_divide_lt(h, d, n);
    assert(cell_of(d, h) >= 0) by (nonlinear_arith)
        requires
            h >= 0 && d >= 1,
    ;
}

/// A canonical cell-pair position of cells below `n` lies inside the
/// `n x n` table.
proof fn lemma_cpi_range(n: int, c1: int, c2: int)
    requires
        0 <= c1 < n,
        0 <= c2 < n,
    ensures
        0 <= cpi(n, c1, c2) < n * n,
{
    let hi = if c1 > c2 {
        c1
    } else {
        c2
    };
    lemma_mul_inequality(hi, n - 1, n);
    assert((n - 1) * n + (n - 1) < n * n) by (nonlinear_arith)
        requires
            n >= 1,
    ;
    assert(hi * n >= 0) by (nonlinear_arith)
        requires
            hi >= 0 && n >= 0,
    ;
}

/// The half-edges of `ps` all lie in pairwise different cells.
pub open spec fn distinct_cells(d: int, ps: Seq<usize>) -> bool {
    forall|i: int, j: int|
        0 <= i < j < ps.len() ==> cell_of(d, ps[i] as int) != cell_of(d, ps[j] as int)
}

/// Different unordered cell pairs have different canonical positions.
proof fn lemma_cpi_distinct(n: int, a1: int, a2: int, b1: int, b2: int)
    requires
        0 <= a1 < n,
        0 <= a2 < n,
        0 <= b1 < n,
        0 <= b2 < n,
        !((a1 == b1 && a2 == b2) || (a1 == b2 && a2 == b1)),
    ensures
        cpi(n, a1, a2) != cpi(n, b1, b2),
{
    if cpi(n, a1, a2) == cpi(n, b1, b2) {
        Pairing::lemma_cpi_injective(n, a1, a2, b1, b2);
    }
}

/// Appending a value raises its count by one and no other.
proof fn lemma_scnt_push(s: Seq<usize>, v: usize)
    ensures
        forall|h: int|
            scnt(s.push(v), h) == scnt(s, h) + (if v as int == h {
                1int
            } else {
                0int
            }),
{
    assert(s.push(v).drop_last() =~= s);
}

/// Appending a pair raises the counts of its endpoints and no other.
proof fn lemma_pcnt_push(s: Seq<(usize, usize)>, p: (usize, usize))
    ensures
        forall|h: int| #[trigger] pcnt(s.push(p), h) == pcnt(s, h) + hcontrib(p, h),
{
    assert(s.push(p).drop_last() =~= s);
}

/// Value counts agree with multiset counts.
proof fn lemma_scnt_multiset(s: Seq<usize>, x: usize)
    ensures
        s.to_multiset().count(x) == scnt(s, x as int),
    decreases s.len(),
{
    broadcast use vstd::seq_lib::group_to_multiset_ensures;

    if s.len() == 0 {
        assert(s.to_multiset() =~= Multiset::empty());
    } else {
        let pre = s.drop_last();
        lemma_scnt_multiset(pre, x);
        assert(s =~= pre.push(s.last()));
        assert(pre.push(s.last()).to_multiset() =~= pre.to_multiset().insert(s.last()));
    }
}

/// `s` with every occurrence of `x` removed, order otherwise kept.
pub open spec fn seq_without(s: Seq<usize>, x: usize) -> Seq<usize>
    decreases s.len(),
{
    if s.len() == 0 {
        s
    } else {
        let t = seq_without(s.drop_last(), x);
        if s.last() == x {
            t
        } else {
            t.push(s.last())
        }
    }
}

/// No value occurs twice in `s`.
pub open spec fn nodup_u(s: Seq<usize>) -> bool {
    forall|k1: int, k2: int| 0 <= k1 < k2 < s.len() ==> s[k1] != s[k2]
}

/// What removing one value does to membership, duplicate-freedom and length.
proof fn lemma_without(s: Seq<usize>, x: usize)
    ensures
        forall|y: usize| #[trigger] seq_without(s, x).contains(y) <==> (s.contains(y) && y != x),
        nodup_u(s) ==> nodup_u(seq_without(s, x)),
        nodup_u(s) && s.contains(x) ==> seq_without(s, x).len() == s.len() - 1,
        !s.contains(x) ==> seq_without(s, x) == s,
        seq_without(s, x).len() <= s.len(),
    decreases s.len(),
{
    if s.len() == 0 {
        assert(forall|y: usize| !s.contains(y));
        assert(seq_without(s, x) =~= s);
    } else {
        let pre = s.drop_last();
        let lst = s.last();
        lemma_without(pre, x);
        assert(forall|y: usize| #[trigger] s.contains(y) <==> (pre.contains(y) || lst == y)) by {
            assert forall|y: usize| #[trigger] s.contains(y) implies (pre.contains(y) || lst == y) by {
                let i = choose|i: int| 0 <= i < s.len() && s[i] == y;
                if i < s.len() - 1 {
                    assert(pre[i] == y);
                }
            }
            assert forall|y: usize| (pre.contains(y) || lst == y) implies #[trigger] s.contains(y) by {
                if pre.contains(y) {
                    let i = choose|i: int| 0 <= i < pre.len() && pre[i] == y;
                    assert(s[i] == y);
                } else {
                    assert(s[s.len() - 1] == y);
                }
            }
        }
        if nodup_u(s) {
            assert(nodup_u(pre));
            assert(!pre.contains(lst)) by {
                if pre.contains(lst) {
                    let i = choose|i: int| 0 <= i < pre.len() && pre[i] == lst;
                    assert(s[i] == s[s.len() - 1]);
                }
            }
        }
        let t = seq_without(pre, x);
        if lst == x {
            assert(seq_without(s, x) == t);
        } else {
            assert(seq_without(s, x) == t.push(lst));
            assert(forall|y: usize| #[trigger] t.push(lst).contains(y) <==> (t.contains(y) || y
                == lst)) by {
                assert forall|y: usize| #[trigger] t.push(lst).contains(y) implies (t.contains(y)
                    || y == lst) by {
                    let i = choose|i: int| 0 <= i < t.push(lst).len() && t.push(lst)[i] == y;
                    if i < t.len() {
                        assert(t[i] == y);
                    }
                }
                assert forall|y: usize| (t.contains(y) || y == lst) implies #[trigger] t.push(
                    lst,
                ).contains(y) by {
                    if t.contains(y) {
                        let i = choose|i: int| 0 <= i < t.len() && t[i] == y;
                        assert(t.push(lst)[i] == y);
                    } else {
                        assert(t.push(lst)[t.len() as int] == y);
                    }
                }
            }
            if nodup_u(s) {
                assert(!t.contains(lst));
                assert(nodup_u(t.push(lst))) by {
                    assert forall|k1: int, k2: int|
                        0 <= k1 < k2 < t.push(lst).len() implies t.push(lst)[k1] != t.push(
                        lst,
                    )[k2] by {
                        if k2 == t.len() {
                            assert(t.contains(t[k1]));
                        }
                    }
                }
            }
        }
        if !s.contains(x) {
            assert(seq_without(s, x) =~= s);
        }
    }
}

/// What overwriting one pair does to an endpoint count.
proof fn lemma_pcnt_update(s: Seq<(usize, usize)>, i: int, p: (usize, usize), h: int)
    requires
        0 <= i < s.len(),
    ensures
        pcnt(s.update(i, p), h) == pcnt(s, h) - hcontrib(s[i], h) + hcontrib(p, h),
    decreases s.len(),
{
    let u = s.update(i, p);
    if i == s.len() - 1 {
        assert(u.drop_last() =~= s.drop_last());
        assert(u.last() == p);
    } else {
        assert(u.drop_last() =~= s.drop_last().update(i, p));
        assert(u.last() == s.last());
        lemma_pcnt_update(s.drop_last(), i, p, h);
    }
}

/// A perfect matching over `n * d` half-edges in `n` cells of `d` slots,
/// plus the derived bucket table over unordered cell pairs.
pub struct Pairing {
    d: usize,
    pairs: Vec<(usize, usize)>,
    edges: Vec<Vec<usize>>,
}

impl Pairing {
    /// Degree: the number of half-edge slots per cell.
    pub closed spec fn spec_d(&self) -> int {
        self.d as int
    }

    /// The number of pairs in the matching.
    pub closed spec fn spec_m(&self) -> int {
        self.pairs@.len() as int
    }

    /// The number of cells.
    pub closed spec fn spec_n(&self) -> int {
        2 * self.spec_m() / self.spec_d()
    }

    /// The pair list itself.
    pub closed spec fn spec_pairs(&self) -> Seq<(usize, usize)> {
        self.pairs@
    }

    /// The bucket at position `e` of the cell-pair table: the pair indices
    /// connecting that cell pair.
    pub closed spec fn bucket(&self, e: int) -> Seq<usize> {
        self.edges@[e]@
    }

    /// The cell pair that `p` connects, as a bucket position.
    pub open spec fn cp_of(&self, p: (usize, usize)) -> int {
        cp_in(self.spec_n(), self.spec_d(), p)
    }

    /// The cell of the first endpoint of pair `i`.
    pub open spec fn pcell0(&self, i: int) -> int {
        cell_of(self.spec_d(), self.spec_pairs()[i].0 as int)
    }

    /// The cell of the second endpoint of pair `i`.
    pub open spec fn pcell1(&self, i: int) -> int {
        cell_of(self.spec_d(), self.spec_pairs()[i].1 as int)
    }

    /// Pair `i` is a loop: both endpoints lie in one cell.
    pub open spec fn is_loop_at(&self, i: int) -> bool {
        self.pcell0(i) == self.pcell1(i)
    }

    /// Pair `i` connects the unordered cell pair `{c1, c2}`.
    pub open spec fn links(&self, i: int, c1: int, c2: int) -> bool {
        (self.pcell0(i) == c1 && self.pcell1(i) == c2) || (self.pcell0(i) == c2
            && self.pcell1(i) == c1)
    }

    /// Every endpoint is a half-edge index below `n * d`.
    pub open spec fn endpoints_ok(&self) -> bool {
        forall|i: int|
            0 <= i < self.spec_m() ==> (#[trigger] self.spec_pairs()[i]).0 < self.spec_n()
                * self.spec_d() && self.spec_pairs()[i].1 < self.spec_n() * self.spec_d()
    }

    /// The pairing is simple: no loops, and no two pairs connect the same
    /// cell pair.
    pub open spec fn is_simple(&self) -> bool {
        &&& forall|i: int| 0 <= i < self.spec_m() ==> !self.is_loop_at(i)
        &&& forall|i: int, j: int|
            0 <= i < j < self.spec_m() ==> !(#[trigger] self.links(j, self.pcell0(i), self.pcell1(i)))
    }

    /// The matching covers each half-edge exactly once.
    pub open spec fn matching_ok(&self) -> bool {
        is_matching(self.spec_pairs(), self.spec_n() * self.spec_d())
    }

    /// The bucket at `e` holds only indices of pairs that indeed connect
    /// the cell pair `e`, each at most once.
    pub closed spec fn bucket_wf(&self, e: int) -> bool {
        &&& forall|k: int|
            0 <= k < self.bucket(e).len() ==> (#[trigger] self.bucket(e)[k]) < self.spec_m()
                && self.cp_of(self.spec_pairs()[self.bucket(e)[k] as int]) == e
        &&& nodup_u(self.bucket(e))
    }

    /// Structural invariant: sizes agree, endpoints are in range, and the
    /// bucket table partitions the pair indices by cell pair.
    pub closed spec fn wf(&self) -> bool {
        &&& 1 <= self.spec_d()
        &&& (2 * self.spec_m()) % self.spec_d() == 0
        &&& 2 * self.spec_m() == self.spec_n() * self.spec_d()
        &&& 2 * self.spec_m() <= usize::MAX
        &&& self.edges@.len() == self.spec_n() * self.spec_n()
        &&& self.endpoints_ok()
        &&& forall|e: int| 0 <= e < self.edges@.len() ==> self.bucket_wf(e)
        &&& forall|i: int|
            0 <= i < self.spec_m() ==> #[trigger] self.bucket(
                self.cp_of(self.spec_pairs()[i]),
            ).contains(i as usize)
    }

    /// The number of cells.
    pub fn n(&self) -> (r: usize)
        requires
            self.wf(),
        ensures
            r as int == self.spec_n(),
    {
        self.pairs.len() * 2 / self.d
    }

    /// Whether two half-edges belong to the same cell.
    fn same_cell(&self, p1: usize, p2: usize) -> (r: bool)
        requires
            self.wf(),
        ensures
            r == (cell_of(self.spec_d(), p1 as int) == cell_of(self.spec_d(), p2 as int)),
    {
        p1 / self.d == p2 / self.d
    }

    /// A cell is always below `n` when its half-edge is in range.
    proof fn lemma_cell_in_range(&self, h: int)
        requires
            self.wf(),
            0 <= h < self.spec_n() * self.spec_d(),
        ensures
            0 <= cell_of(self.spec_d(), h) < self.spec_n(),
    {
        assert(self.spec_d() * self.spec_n() == self.spec_n() * self.spec_d()) by (nonlinear_arith);
        lemma_multiply_divide_lt(h, self.spec_d(), self.spec_n());
        assert(cell_of(self.spec_d(), h) >= 0) by (nonlinear_arith)
            requires h >= 0 && self.spec_d() >= 1;
    }

    /// A canonical bucket position is always inside the table.
    proof fn lemma_cpi_in_range(&self, c1: int, c2: int)
        requires
            self.wf(),
            0 <= c1 < self.spec_n(),
            0 <= c2 < self.spec_n(),
        ensures
            0 <= cpi(self.spec_n(), c1, c2) < self.spec_n() * self.spec_n(),
    {
        let n = self.spec_n();
        let hi = if c1 > c2 { c1 } else { c2 };
        let lo = if c1 > c2 { c2 } else { c1 };
        lemma_mul_inequality(hi, n - 1, n);
        assert((n - 1) * n + (n - 1) < n * n) by (nonlinear_arith)
            requires n >= 1;
        assert(hi * n >= 0) by (nonlinear_arith)
            requires hi >= 0 && n >= 0;
    }

    /// Two cell pairs with the same canonical position are the same
    /// unordered pair.
    proof fn lemma_cpi_injective(n: int, a1: int, a2: int, b1: int, b2: int)
        requires
            0 <= a1 < n,
            0 <= a2 < n,
            0 <= b1 < n,
            0 <= b2 < n,
            cpi(n, a1, a2) == cpi(n, b1, b2),
        ensures
            (a1 == b1 && a2 == b2) || (a1 == b2 && a2 == b1),
    {
        let ahi = if a1 > a2 { a1 } else { a2 };
        let alo = if a1 > a2 { a2 } else { a1 };
        let bhi = if b1 > b2 { b1 } else { b2 };
        let blo = if b1 > b2 { b2 } else { b1 };
        lemma_fundamental_div_mod_converse(ahi * n + alo, n, ahi, alo);
        lemma_fundamental_div_mod_converse(bhi * n + blo, n, bhi, blo);
    }

    /// Position of the bucket for the cell pair of half-edges `p1`, `p2`.
    fn edges_idx(&self, p1: usize, p2: usize) -> (r: usize)
        requires
            self.wf(),
            p1 < self.spec_n() * self.spec_d(),
            p2 < self.spec_n() * self.spec_d(),
        ensures
            r as int == self.cp_of((p1, p2)),
            r < self.spec_n() * self.spec_n(),
    {
        proof {
            self.lemma_cell_in_range(p1 as int);
            self.lemma_cell_in_range(p2 as int);
            self.lemma_cpi_in_range(
                cell_of(self.spec_d(), p1 as int),
                cell_of(self.spec_d(), p2 as int),
            );
        }
        let c1 = p1 / self.d;
        let c2 = p2 / self.d;
        let n = self.n();
        let (hi, lo) = if c1 > c2 {
            (c1, c2)
        } else {
            (c2, c1)
        };
        assert(hi * n + lo < n * n);
        assert(self.edges@.len() <= usize::MAX) by {
            let ghost l = self.edges.len();
        }
        hi * n + lo
    }

    /// The pair stored at index `idx`.
    pub fn get_pair(&self, idx: usize) -> (r: (usize, usize))
        requires
            self.wf(),
            idx < self.spec_m(),
        ensures
            r == self.spec_pairs()[idx as int],
            r.0 < self.spec_n() * self.spec_d(),
            r.1 < self.spec_n() * self.spec_d(),
    {
        proof {
            assert((self.spec_pairs()[idx as int]).0 < self.spec_n() * self.spec_d());
        }
        self.pairs[idx]
    }

    /// The number of pairs in the matching.
    pub fn m(&self) -> (r: usize)
        requires
            self.wf(),
        ensures
            r as int == self.spec_m(),
    {
        self.pairs.len()
    }

    /// Atomically rewrite pair `idx` to `(p1, p2)`: the index leaves the
    /// bucket of the old cell pair, the pair list is updated, and the index
    /// is appended to the bucket of the new cell pair, keeping both
    /// structures consistent.
    pub fn replace_pair(&mut self, idx: usize, p1: usize, p2: usize)
        requires
            old(self).wf(),
            idx < old(self).spec_m(),
            p1 < old(self).spec_n() * old(self).spec_d(),
            p2 < old(self).spec_n() * old(self).spec_d(),
        ensures
            final(self).wf(),
            final(self).spec_d() == old(self).spec_d(),
            final(self).spec_m() == old(self).spec_m(),
            final(self).spec_n() == old(self).spec_n(),
            final(self).spec_pairs() == old(self).spec_pairs().update(idx as int, (p1, p2)),
            ({
                let oe = old(self).cp_of(old(self).spec_pairs()[idx as int]);
                let ne = old(self).cp_of((p1, p2));
                &&& final(self).bucket(ne) == if oe == ne {
                    seq_without(old(self).bucket(oe), idx).push(idx)
                } else {
                    old(self).bucket(ne).push(idx)
                }
                &&& oe != ne ==> final(self).bucket(oe) == seq_without(old(self).bucket(oe), idx)
                &&& forall|e: int|
                    0 <= e < old(self).spec_n() * old(self).spec_n() && e != oe && e != ne
                        ==> (#[trigger] final(self).bucket(e)) == old(self).bucket(e)
            }),
    {
        proof {
            assert((self.spec_pairs()[idx as int]).0 < self.spec_n() * self.spec_d());
        }
        let (old_p1, old_p2) = self.pairs[idx];
        let oe = self.edges_idx(old_p1, old_p2);
        let ne = self.edges_idx(p1, p2);
        let blen = self.edges[oe].len();
        let mut nb: Vec<usize> = Vec::new();
        let mut k: usize = 0;
        while k < blen
            invariant
                k <= blen,
                blen == self.edges@[oe as int]@.len(),
                oe < self.edges@.len(),
                nb@ == seq_without(self.edges@[oe as int]@.subrange(0, k as int), idx),
            decreases blen - k,
        {
            proof {
                let b = self.edges@[oe as int]@;
                assert(b.subrange(0, k + 1).drop_last() =~= b.subrange(0, k as int));
                assert(b.subrange(0, k + 1).last() == b[k as int]);
            }
            let x = self.edges[oe][k];
            if x != idx {
                nb.push(x);
            }
            k += 1;
        }
        proof {
            assert(self.edges@[oe as int]@.subrange(0, blen as int) =~= self.edges@[oe as int]@);
            assert(nb@ == seq_without(old(self).bucket(oe as int), idx));
        }
        self.edges[oe] = nb;
        self.pairs[idx] = (p1, p2);
        self.edges[ne].push(idx);
        proof {
            let prev = *old(self);
            assert(self.spec_pairs() == prev.spec_pairs().update(idx as int, (p1, p2)));
            if oe == ne {
                assert(self.bucket(ne as int) == seq_without(prev.bucket(oe as int), idx).push(
                    idx,
                ));
            } else {
                assert(self.bucket(oe as int) == seq_without(prev.bucket(oe as int), idx));
                assert(self.bucket(ne as int) == prev.bucket(ne as int).push(idx));
            }
            assert forall|e: int|
                0 <= e < self.edges@.len() && e != oe && e != ne implies (#[trigger] self.bucket(
                e,
            )) == prev.bucket(e) by {}
            self.lemma_replace_pair_wf(prev, idx, p1, p2, oe as int, ne as int);
        }
    }

    /// The bookkeeping behind `replace_pair`: rewriting one pair and moving
    /// its index between the two affected buckets preserves the invariant.
    proof fn lemma_replace_pair_wf(
        &self,
        prev: Pairing,
        idx: usize,
        p1: usize,
        p2: usize,
        oe: int,
        ne: int,
    )
        requires
            prev.wf(),
            idx < prev.spec_m(),
            p1 < prev.spec_n() * prev.spec_d(),
            p2 < prev.spec_n() * prev.spec_d(),
            oe == prev.cp_of(prev.spec_pairs()[idx as int]),
            ne == prev.cp_of((p1, p2)),
            self.spec_d() == prev.spec_d(),
            self.spec_pairs() == prev.spec_pairs().update(idx as int, (p1, p2)),
            self.edges@.len() == prev.edges@.len(),
            oe != ne ==> self.bucket(oe) == seq_without(prev.bucket(oe), idx),
            oe != ne ==> self.bucket(ne) == prev.bucket(ne).push(idx),
            oe == ne ==> self.bucket(ne) == seq_without(prev.bucket(oe), idx).push(idx),
            forall|e: int|
                0 <= e < self.edges@.len() && e != oe && e != ne ==> (#[trigger] self.bucket(e))
                    == prev.bucket(e),
        ensures
            self.wf(),
            self.spec_m() == prev.spec_m(),
            self.spec_n() == prev.spec_n(),
    {
        assert(self.spec_m() == prev.spec_m());
        assert(self.spec_n() == prev.spec_n());
        let n = prev.spec_n();
        let d = prev.spec_d();
        let m = prev.spec_m();
        lemma_without(prev.bucket(oe), idx);
        // Both affected bucket positions are inside the table.
        prev.lemma_cell_in_range(p1 as int);
        prev.lemma_cell_in_range(p2 as int);
        prev.lemma_cpi_in_range(cell_of(d, p1 as int), cell_of(d, p2 as int));
        prev.lemma_cell_in_range(prev.spec_pairs()[idx as int].0 as int);
        prev.lemma_cell_in_range(prev.spec_pairs()[idx as int].1 as int);
        prev.lemma_cpi_in_range(prev.pcell0(idx as int), prev.pcell1(idx as int));
        // `idx` sits in no bucket other than `oe`.
        assert forall|e: int|
            0 <= e < self.edges@.len() && e != oe implies !(#[trigger] prev.bucket(e)).contains(
            idx,
        ) by {
            assert(prev.bucket_wf(e));
            if prev.bucket(e).contains(idx) {
                let k = choose|k: int| 0 <= k < prev.bucket(e).len() && prev.bucket(e)[k] == idx;
                assert(prev.bucket(e)[k] == idx);
                assert(prev.cp_of(prev.spec_pairs()[idx as int]) == e);
            }
        }
        // Cell pairs of untouched pairs are unchanged.
        assert forall|i: int|
            0 <= i < m && i != idx implies self.cp_of(#[trigger] self.spec_pairs()[i])
                == prev.cp_of(prev.spec_pairs()[i]) by {
            assert(self.spec_pairs()[i] == prev.spec_pairs()[i]);
        }
        assert(self.cp_of(self.spec_pairs()[idx as int]) == ne);
        assert(self.endpoints_ok()) by {
            assert forall|i: int|
                0 <= i < m implies (#[trigger] self.spec_pairs()[i]).0 < n * d
                    && self.spec_pairs()[i].1 < n * d by {
                if i != idx {
                    assert(self.spec_pairs()[i] == prev.spec_pairs()[i]);
                    assert((prev.spec_pairs()[i]).0 < n * d && prev.spec_pairs()[i].1 < n * d);
                }
            }
        }
        // Every bucket remains well formed.
        assert forall|e: int| 0 <= e < self.edges@.len() implies self.bucket_wf(e) by {
            assert(prev.bucket_wf(e));
            if e == ne {
                let b = self.bucket(ne);
                let base = if oe == ne {
                    seq_without(prev.bucket(oe), idx)
                } else {
                    prev.bucket(ne)
                };
                assert(b == base.push(idx));
                assert(nodup_u(base)) by {
                    assert(prev.bucket_wf(oe));
                }
                assert(!base.contains(idx)) by {
                    if oe != ne {
                        assert(!prev.bucket(ne).contains(idx));
                    }
                }
                assert forall|k: int|
                    0 <= k < b.len() implies (#[trigger] b[k]) < m && self.cp_of(
                    self.spec_pairs()[b[k] as int],
                ) == ne by {
                    if k < base.len() {
                        assert(b[k] == base[k]);
                        assert(base.contains(base[k]));
                        if oe == ne {
                            assert(prev.bucket(oe).contains(base[k]) && base[k] != idx);
                        } else {
                            assert(base[k] != idx);
                        }
                        let e0 = if oe == ne { oe } else { ne };
                        assert(prev.bucket(e0).contains(base[k]));
                        let j = choose|j: int|
                            0 <= j < prev.bucket(e0).len() && prev.bucket(e0)[j] == base[k];
                        assert(prev.bucket_wf(e0));
                        assert(prev.bucket(e0)[j] == base[k]);
                        assert(base[k] < m && prev.cp_of(prev.spec_pairs()[base[k] as int]) == e0);
                    } else {
                        assert(b[k] == idx);
                    }
                }
                assert(nodup_u(b)) by {
                    assert forall|k1: int, k2: int|
                        0 <= k1 < k2 < b.len() implies b[k1] != b[k2] by {
                        if k2 == base.len() {
                            assert(b[k1] == base[k1]);
                            assert(base.contains(base[k1]));
                            assert(b[k2] == idx);
                        } else {
                            assert(b[k1] == base[k1] && b[k2] == base[k2]);
                        }
                    }
                }
            } else if e == oe {
                let b = self.bucket(oe);
                assert(b == seq_without(prev.bucket(oe), idx));
                assert(prev.bucket_wf(oe));
                assert forall|k: int|
                    0 <= k < b.len() implies (#[trigger] b[k]) < m && self.cp_of(
                    self.spec_pairs()[b[k] as int],
                ) == oe by {
                    assert(b.contains(b[k]));
                    assert(prev.bucket(oe).contains(b[k]) && b[k] != idx);
                    let j = choose|j: int|
                        0 <= j < prev.bucket(oe).len() && prev.bucket(oe)[j] == b[k];
                    assert(prev.bucket(oe)[j] == b[k]);
                }
                assert(nodup_u(prev.bucket(oe)));
                assert(nodup_u(b));
            } else {
                let b = self.bucket(e);
                assert(b == prev.bucket(e));
                assert(!prev.bucket(e).contains(idx));
                assert forall|k: int|
                    0 <= k < b.len() implies (#[trigger] b[k]) < m && self.cp_of(
                    self.spec_pairs()[b[k] as int],
                ) == e by {
                    assert(prev.bucket(e)[k] == b[k]);
                    assert(b.contains(b[k]));
                    assert(b[k] != idx);
                }
            }
        }
        // Every pair index is still listed in the bucket of its cell pair.
        assert forall|i: int|
            0 <= i < m implies #[trigger] self.bucket(self.cp_of(self.spec_pairs()[i])).contains(
            i as usize,
        ) by {
            if i == idx {
                let b = self.bucket(ne);
                assert(b[b.len() - 1] == idx);
                assert(b.contains(idx));
            } else {
                let e = prev.cp_of(prev.spec_pairs()[i]);
                assert(prev.bucket(self.cp_of(prev.spec_pairs()[i])).contains(i as usize));
                assert(prev.bucket(e).contains(i as usize));
                assert(self.cp_of(self.spec_pairs()[i]) == e);
                if e == oe && oe == ne {
                    let b = self.bucket(ne);
                    let base = seq_without(prev.bucket(oe), idx);
                    assert(base.contains(i as usize));
                    let k = choose|k: int| 0 <= k < base.len() && base[k] == i as usize;
                    assert(b[k] == i as usize);
                    assert(b.contains(i as usize));
                } else if e == oe {
                    assert(self.bucket(oe).contains(i as usize));
                } else if e == ne {
                    let b = self.bucket(ne);
                    let k = choose|k: int|
                        0 <= k < prev.bucket(ne).len() && prev.bucket(ne)[k] == i as usize;
                    assert(b[k] == i as usize);
                    assert(b.contains(i as usize));
                } else {
                    assert((prev.spec_pairs()[i]).0 < n * d);
                    prev.lemma_cell_in_range(prev.spec_pairs()[i].0 as int);
                    prev.lemma_cell_in_range(prev.spec_pairs()[i].1 as int);
                    prev.lemma_cpi_in_range(prev.pcell0(i), prev.pcell1(i));
                    assert(0 <= e < self.edges@.len());
                    assert(self.bucket(e) == prev.bucket(e));
                }
            }
        }
    }

    /// Swap the two endpoints of pair `idx` in place; the cell pair, and so
    /// every bucket, is unchanged.
    fn swap_ends(&mut self, idx: usize)
        requires
            old(self).wf(),
            idx < old(self).spec_m(),
        ensures
            final(self).wf(),
            final(self).spec_d() == old(self).spec_d(),
            final(self).spec_m() == old(self).spec_m(),
            final(self).spec_n() == old(self).spec_n(),
            final(self).spec_pairs() == old(self).spec_pairs().update(
                idx as int,
                (old(self).spec_pairs()[idx as int].1, old(self).spec_pairs()[idx as int].0),
            ),
            forall|e: int|
                0 <= e < old(self).spec_n() * old(self).spec_n()
                    ==> (#[trigger] final(self).bucket(e)) == old(self).bucket(e),
    {
        let (a, b) = self.pairs[idx];
        self.pairs[idx] = (b, a);
        proof {
            let prev = *old(self);
            let m = prev.spec_m();
            let n = prev.spec_n();
            let d = prev.spec_d();
            assert(self.spec_m() == m && self.spec_n() == n && self.spec_d() == d);
            assert(self.cp_of(self.spec_pairs()[idx as int]) == prev.cp_of(
                prev.spec_pairs()[idx as int],
            ));
            assert forall|i: int|
                0 <= i < m implies self.cp_of(#[trigger] self.spec_pairs()[i]) == prev.cp_of(
                prev.spec_pairs()[i],
            ) by {
                if i != idx {
                    assert(self.spec_pairs()[i] == prev.spec_pairs()[i]);
                }
            }
            assert(self.endpoints_ok()) by {
                assert forall|i: int|
                    0 <= i < m implies (#[trigger] self.spec_pairs()[i]).0 < n * d
                        && self.spec_pairs()[i].1 < n * d by {
                    assert((prev.spec_pairs()[i]).0 < n * d && prev.spec_pairs()[i].1 < n * d);
                    if i != idx {
                        assert(self.spec_pairs()[i] == prev.spec_pairs()[i]);
                    }
                }
            }
            assert forall|e: int| 0 <= e < self.edges@.len() implies self.bucket_wf(e) by {
                assert(prev.bucket_wf(e));
                assert(self.bucket(e) == prev.bucket(e));
                assert forall|k: int|
                    0 <= k < self.bucket(e).len() implies (#[trigger] self.bucket(e)[k]) < m
                        && self.cp_of(self.spec_pairs()[self.bucket(e)[k] as int]) == e by {
                    assert(prev.bucket(e)[k] < m && prev.cp_of(
                        prev.spec_pairs()[prev.bucket(e)[k] as int],
                    ) == e);
                }
            }
            assert forall|i: int|
                0 <= i < m implies #[trigger] self.bucket(
                self.cp_of(self.spec_pairs()[i]),
            ).contains(i as usize) by {
                assert(prev.bucket(prev.cp_of(prev.spec_pairs()[i])).contains(i as usize));
                assert(self.cp_of(self.spec_pairs()[i]) == prev.cp_of(prev.spec_pairs()[i]));
            }
        }
    }

    /// The number of pairs currently connecting the cells of `p1` and `p2`.
    pub fn card(&self, p1: usize, p2: usize) -> (r: usize)
        requires
            self.wf(),
            p1 < self.spec_n() * self.spec_d(),
            p2 < self.spec_n() * self.spec_d(),
        ensures
            r as int == self.bucket(self.cp_of((p1, p2))).len(),
    {
        let e = self.edges_idx(p1, p2);
        self.edges[e].len()
    }

    /// Whether the given half-edges all lie in pairwise different cells.
    fn disjoint(&self, ps: &Vec<usize>) -> (r: bool)
        requires
            self.wf(),
        ensures
            r == distinct_cells(self.spec_d(), ps@),
    {
        let len = ps.len();
        let mut i: usize = 0;
        while i < len
            invariant
                i <= len,
                len == ps@.len(),
                self.wf(),
                forall|a: int, b: int|
                    0 <= a < b < ps@.len() && a < i ==> cell_of(self.spec_d(), ps@[a] as int)
                        != cell_of(self.spec_d(), ps@[b] as int),
            decreases len - i,
        {
            let mut j: usize = i + 1;
            while j < len
                invariant
                    i < j <= len || (i + 1 == j && j > len),
                    i < len,
                    len == ps@.len(),
                    self.wf(),
                    forall|b: int|
                        i < b < j ==> cell_of(self.spec_d(), ps@[i as int] as int) != cell_of(
                            self.spec_d(),
                            ps@[b] as int,
                        ),
                decreases len - j,
            {
                if ps[i] / self.d == ps[j] / self.d {
                    return false;
                }
                j += 1;
            }
            i += 1;
        }
        true
    }

    /// The loop-switch condition: donor pairs `i1 = (p1, p6)` and
    /// `i2 = (p4, p5)` can repair the loop `(p2, p3)` at `l_idx` when the
    /// five half-edges `p1, p2, p4, p5, p6` occupy five different cells,
    /// each donor is its cell pair's sole connection, and the three target
    /// cell pairs `(p1, p2)`, `(p3, p4)`, `(p5, p6)` are empty.
    pub open spec fn l_ok(&self, l_idx: int, i1: int, i2: int) -> bool {
        let lp = self.spec_pairs()[l_idx];
        let q1 = self.spec_pairs()[i1];
        let q2 = self.spec_pairs()[i2];
        &&& distinct_cells(self.spec_d(), seq![q1.0, lp.0, q2.0, q2.1, q1.1])
        &&& self.bucket(self.cp_of(q1)).len() == 1
        &&& self.bucket(self.cp_of(q2)).len() == 1
        &&& self.bucket(cp_in(self.spec_n(), self.spec_d(), (q1.0, lp.0))).len() == 0
        &&& self.bucket(cp_in(self.spec_n(), self.spec_d(), (lp.1, q2.0))).len() == 0
        &&& self.bucket(cp_in(self.spec_n(), self.spec_d(), (q2.1, q1.1))).len() == 0
    }

    /// All pairs of donor indices that could repair the loop at `l_idx`,
    /// exactly those that satisfy the loop-switch condition.
    pub fn l_forward_possibilities(&self, l_idx: usize) -> (r: Vec<(usize, usize)>)
        requires
            self.wf(),
            l_idx < self.spec_m(),
            self.is_loop_at(l_idx as int),
        ensures
            forall|k: int|
                0 <= k < r@.len() ==> (#[trigger] r@[k]).0 < self.spec_m() && r@[k].1
                    < self.spec_m() && self.l_ok(l_idx as int, r@[k].0 as int, r@[k].1 as int),
            forall|i1: int, i2: int|
                0 <= i1 < self.spec_m() && 0 <= i2 < self.spec_m() && self.l_ok(
                    l_idx as int,
                    i1,
                    i2,
                ) ==> r@.contains((i1 as usize, i2 as usize)),
    {
        let m = self.m();
        let (p2, p3) = self.get_pair(l_idx);
        let mut r: Vec<(usize, usize)> = Vec::new();
        let mut i1: usize = 0;
        while i1 < m
            invariant
                i1 <= m,
                m == self.spec_m(),
                self.wf(),
                l_idx < self.spec_m(),
                self.is_loop_at(l_idx as int),
                p2 == self.spec_pairs()[l_idx as int].0,
                p3 == self.spec_pairs()[l_idx as int].1,
                forall|k: int|
                    0 <= k < r@.len() ==> (#[trigger] r@[k]).0 < self.spec_m() && r@[k].1
                        < self.spec_m() && self.l_ok(l_idx as int, r@[k].0 as int, r@[k].1 as int),
                forall|a: int, b: int|
                    0 <= a < i1 && 0 <= b < self.spec_m() && self.l_ok(l_idx as int, a, b)
                        ==> r@.contains((a as usize, b as usize)),
            decreases m - i1,
        {
            let (p1, p6) = self.get_pair(i1);
            let mut i2: usize = 0;
            while i2 < m
                invariant
                    i2 <= m,
                    i1 < m,
                    m == self.spec_m(),
                    self.wf(),
                    l_idx < self.spec_m(),
                    self.is_loop_at(l_idx as int),
                    p2 == self.spec_pairs()[l_idx as int].0,
                    p3 == self.spec_pairs()[l_idx as int].1,
                    p1 == self.spec_pairs()[i1 as int].0,
                    p6 == self.spec_pairs()[i1 as int].1,
                    forall|k: int|
                        0 <= k < r@.len() ==> (#[trigger] r@[k]).0 < self.spec_m() && r@[k].1
                            < self.spec_m() && self.l_ok(
                            l_idx as int,
                            r@[k].0 as int,
                            r@[k].1 as int,
                        ),
                    forall|a: int, b: int|
                        0 <= a < i1 && 0 <= b < self.spec_m() && self.l_ok(l_idx as int, a, b)
                            ==> r@.contains((a as usize, b as usize)),
                    forall|b: int|
                        0 <= b < i2 && self.l_ok(l_idx as int, i1 as int, b) ==> r@.contains(
                            (i1, b as usize),
                        ),
                decreases m - i2,
            {
                let (p4, p5) = self.get_pair(i2);
                let ps = vec![p1, p2, p4, p5, p6];
                let cond = self.disjoint(&ps) && self.card(p1, p6) == 1 && self.card(p4, p5) == 1
                    && self.card(p1, p2) == 0 && self.card(p3, p4) == 0 && self.card(p5, p6) == 0;
                proof {
                    assert(ps@ =~= seq![p1, p2, p4, p5, p6]);
                    assert(cond == self.l_ok(l_idx as int, i1 as int, i2 as int));
                }
                if cond {
                    let ghost pre = r@;
                    r.push((i1, i2));
                    proof {
                        lemma_push_contains(pre, (i1, i2));
                        assert(r@[pre.len() as int] == (i1, i2));
                    }
                }
                i2 += 1;
            }
            i1 += 1;
        }
        r
    }

    /// One loop-removal switch.  The loop `(p2, p3)` at `l_idx` and the two
    /// donors `(p1, p6)`, `(p4, p5)` are rewritten to `(p1, p2)`,
    /// `(p3, p4)`, `(p5, p6)`: afterwards the loop's cell pair is empty,
    /// each of the three target cell pairs holds exactly one pair, the two
    /// donor cell pairs are empty, every other cell pair is untouched, and
    /// the pair count and the endpoint multiset are unchanged.
    pub fn l_switch(&mut self, l_idx: usize, idx1: usize, idx2: usize)
        requires
            old(self).wf(),
            l_idx < old(self).spec_m(),
            idx1 < old(self).spec_m(),
            idx2 < old(self).spec_m(),
            old(self).is_loop_at(l_idx as int),
            old(self).bucket(old(self).cp_of(old(self).spec_pairs()[l_idx as int])).len() == 1,
            old(self).l_ok(l_idx as int, idx1 as int, idx2 as int),
        ensures
            final(self).wf(),
            final(self).spec_d() == old(self).spec_d(),
            final(self).spec_m() == old(self).spec_m(),
            final(self).spec_n() == old(self).spec_n(),
            forall|h: int|
                #[trigger] pcnt(final(self).spec_pairs(), h) == pcnt(old(self).spec_pairs(), h),
            ({
                let n = old(self).spec_n();
                let d = old(self).spec_d();
                let p2 = old(self).spec_pairs()[l_idx as int].0;
                let p3 = old(self).spec_pairs()[l_idx as int].1;
                let p1 = old(self).spec_pairs()[idx1 as int].0;
                let p6 = old(self).spec_pairs()[idx1 as int].1;
                let p4 = old(self).spec_pairs()[idx2 as int].0;
                let p5 = old(self).spec_pairs()[idx2 as int].1;
                let el = cp_in(n, d, (p2, p3));
                let e16 = cp_in(n, d, (p1, p6));
                let e45 = cp_in(n, d, (p4, p5));
                let e12 = cp_in(n, d, (p1, p2));
                let e34 = cp_in(n, d, (p3, p4));
                let e56 = cp_in(n, d, (p5, p6));
                &&& final(self).spec_pairs() == old(self).spec_pairs().update(
                    l_idx as int,
                    (p1, p2),
                ).update(idx1 as int, (p3, p4)).update(idx2 as int, (p5, p6))
                &&& final(self).bucket(el).len() == 0
                &&& final(self).bucket(e16).len() == 0
                &&& final(self).bucket(e45).len() == 0
                &&& final(self).bucket(e12) == old(self).bucket(e12).push(l_idx)
                &&& final(self).bucket(e34) == old(self).bucket(e34).push(idx1)
                &&& final(self).bucket(e56) == old(self).bucket(e56).push(idx2)
                &&& final(self).bucket(e12).len() == 1
                &&& final(self).bucket(e34).len() == 1
                &&& final(self).bucket(e56).len() == 1
                &&& forall|e: int|
                    0 <= e < n * n && e != el && e != e16 && e != e45 && e != e12 && e != e34 && e
                        != e56 ==> (#[trigger] final(self).bucket(e)) == old(self).bucket(e)
            }),
    {
        let (p2, p3) = self.get_pair(l_idx);
        let (p1, p6) = self.get_pair(idx1);
        let (p4, p5) = self.get_pair(idx2);
        let ghost s0 = *self;
        let ghost n = self.spec_n();
        let ghost d = self.spec_d();
        let ghost el = cp_in(n, d, (p2, p3));
        let ghost e16 = cp_in(n, d, (p1, p6));
        let ghost e45 = cp_in(n, d, (p4, p5));
        let ghost e12 = cp_in(n, d, (p1, p2));
        let ghost e34 = cp_in(n, d, (p3, p4));
        let ghost e56 = cp_in(n, d, (p5, p6));
        proof {
            self.lemma_l_switch_setup(l_idx, idx1, idx2);
        }
        self.replace_pair(l_idx, p1, p2);
        let ghost s1 = *self;
        self.replace_pair(idx1, p3, p4);
        let ghost s2 = *self;
        self.replace_pair(idx2, p5, p6);
        proof {
            let c1 = cell_of(d, p1 as int);
            let c = cell_of(d, p2 as int);
            let c4 = cell_of(d, p4 as int);
            let c5 = cell_of(d, p5 as int);
            let c6 = cell_of(d, p6 as int);
            // The loop bucket held only `l_idx` and is emptied.
            lemma_without(s0.bucket(el), l_idx);
            assert(s0.bucket(el).contains(l_idx)) by {
                assert(s0.bucket(s0.cp_of(s0.spec_pairs()[l_idx as int])).contains((l_idx as int) as usize));
            }
            assert(s1.bucket(el) == seq_without(s0.bucket(el), l_idx));
            assert(s1.bucket(el).len() == 0);
            // The first donor bucket held only `idx1` and is emptied.
            lemma_without(s1.bucket(e16), idx1);
            assert(s1.bucket(e16) == s0.bucket(e16));
            assert(s1.bucket(e16).contains(idx1)) by {
                assert(s0.bucket(s0.cp_of(s0.spec_pairs()[idx1 as int])).contains((idx1 as int) as usize));
            }
            assert(s2.bucket(e16) == seq_without(s1.bucket(e16), idx1));
            assert(s2.bucket(e16).len() == 0);
            // The second donor bucket held only `idx2` and is emptied.
            lemma_without(s2.bucket(e45), idx2);
            assert(s2.bucket(e45) == s0.bucket(e45));
            assert(s2.bucket(e45).contains(idx2)) by {
                assert(s0.bucket(s0.cp_of(s0.spec_pairs()[idx2 as int])).contains((idx2 as int) as usize));
            }
            assert(self.bucket(e45) == seq_without(s2.bucket(e45), idx2));
            assert(self.bucket(e45).len() == 0);
            // Target buckets gain exactly their one new pair.
            assert(self.bucket(e12) == s0.bucket(e12).push(l_idx));
            assert(self.bucket(e34) == s0.bucket(e34).push(idx1));
            assert(self.bucket(e56) == s0.bucket(e56).push(idx2));
            assert(self.bucket(el).len() == 0);
            assert(self.bucket(e16).len() == 0);
            // Everything else is untouched.
            assert forall|e: int|
                0 <= e < n * n && e != el && e != e16 && e != e45 && e != e12 && e != e34 && e
                    != e56 implies (#[trigger] self.bucket(e)) == s0.bucket(e) by {
                assert(s1.bucket(e) == s0.bucket(e));
                assert(s2.bucket(e) == s1.bucket(e));
            }
            // The endpoint multiset is unchanged.
            assert forall|h: int|
                #[trigger] pcnt(self.spec_pairs(), h) == pcnt(s0.spec_pairs(), h) by {
                lemma_pcnt_update(s0.spec_pairs(), l_idx as int, (p1, p2), h);
                lemma_pcnt_update(s1.spec_pairs(), idx1 as int, (p3, p4), h);
                lemma_pcnt_update(s2.spec_pairs(), idx2 as int, (p5, p6), h);
                assert(s1.spec_pairs()[idx1 as int] == (p1, p6));
                assert(s2.spec_pairs()[idx2 as int] == (p4, p5));
            }
        }
    }

    /// Groundwork for the loop switch: the three pair indices are pairwise
    /// different and the six affected cell-pair positions are pairwise
    /// different and in range.
    proof fn lemma_l_switch_setup(&self, l_idx: usize, idx1: usize, idx2: usize)
        requires
            self.wf(),
            l_idx < self.spec_m(),
            idx1 < self.spec_m(),
            idx2 < self.spec_m(),
            self.is_loop_at(l_idx as int),
            self.l_ok(l_idx as int, idx1 as int, idx2 as int),
        ensures
            ({
                let n = self.spec_n();
                let d = self.spec_d();
                let p2 = self.spec_pairs()[l_idx as int].0;
                let p3 = self.spec_pairs()[l_idx as int].1;
                let p1 = self.spec_pairs()[idx1 as int].0;
                let p6 = self.spec_pairs()[idx1 as int].1;
                let p4 = self.spec_pairs()[idx2 as int].0;
                let p5 = self.spec_pairs()[idx2 as int].1;
                let el = cp_in(n, d, (p2, p3));
                let e16 = cp_in(n, d, (p1, p6));
                let e45 = cp_in(n, d, (p4, p5));
                let e12 = cp_in(n, d, (p1, p2));
                let e34 = cp_in(n, d, (p3, p4));
                let e56 = cp_in(n, d, (p5, p6));
                &&& l_idx != idx1 && l_idx != idx2 && idx1 != idx2
                &&& el != e16 && el != e45 && el != e12 && el != e34 && el != e56
                &&& e16 != e45 && e16 != e12 && e16 != e34 && e16 != e56
                &&& e45 != e12 && e45 != e34 && e45 != e56
                &&& e12 != e34 && e12 != e56
                &&& e34 != e56
                &&& 0 <= el < n * n && 0 <= e16 < n * n && 0 <= e45 < n * n
                &&& 0 <= e12 < n * n && 0 <= e34 < n * n && 0 <= e56 < n * n
            }),
    {
        let n = self.spec_n();
        let d = self.spec_d();
        let p2 = self.spec_pairs()[l_idx as int].0;
        let p3 = self.spec_pairs()[l_idx as int].1;
        let p1 = self.spec_pairs()[idx1 as int].0;
        let p6 = self.spec_pairs()[idx1 as int].1;
        let p4 = self.spec_pairs()[idx2 as int].0;
        let p5 = self.spec_pairs()[idx2 as int].1;
        let sq = seq![p1, p2, p4, p5, p6];
        assert(distinct_cells(d, sq));
        let c1 = cell_of(d, p1 as int);
        let c = cell_of(d, p2 as int);
        let c4 = cell_of(d, p4 as int);
        let c5 = cell_of(d, p5 as int);
        let c6 = cell_of(d, p6 as int);
        assert(sq[0] == p1 && sq[1] == p2 && sq[2] == p4 && sq[3] == p5 && sq[4] == p6);
        assert(c1 != c && c1 != c4 && c1 != c5 && c1 != c6);
        assert(c != c4 && c != c5 && c != c6);
        assert(c4 != c5 && c4 != c6);
        assert(c5 != c6);
        assert(cell_of(d, p3 as int) == c);
        assert((self.spec_pairs()[l_idx as int]).0 < n * d);
        assert((self.spec_pairs()[idx1 as int]).0 < n * d);
        assert((self.spec_pairs()[idx2 as int]).0 < n * d);
        lemma_cell_range(n, d, p1 as int);
        lemma_cell_range(n, d, p2 as int);
        lemma_cell_range(n, d, p3 as int);
        lemma_cell_range(n, d, p4 as int);
        lemma_cell_range(n, d, p5 as int);
        lemma_cell_range(n, d, p6 as int);
        lemma_cpi_range(n, c, c);
        lemma_cpi_range(n, c1, c6);
        lemma_cpi_range(n, c4, c5);
        lemma_cpi_range(n, c1, c);
        lemma_cpi_range(n, c, c4);
        lemma_cpi_range(n, c5, c6);
        lemma_cpi_distinct(n, c, c, c1, c6);
        lemma_cpi_distinct(n, c, c, c4, c5);
        lemma_cpi_distinct(n, c, c, c1, c);
        lemma_cpi_distinct(n, c, c, c, c4);
        lemma_cpi_distinct(n, c, c, c5, c6);
        lemma_cpi_distinct(n, c1, c6, c4, c5);
        lemma_cpi_distinct(n, c1, c6, c1, c);
        lemma_cpi_distinct(n, c1, c6, c, c4);
        lemma_cpi_distinct(n, c1, c6, c5, c6);
        lemma_cpi_distinct(n, c4, c5, c1, c);
        lemma_cpi_distinct(n, c4, c5, c, c4);
        lemma_cpi_distinct(n, c4, c5, c5, c6);
        lemma_cpi_distinct(n, c1, c, c, c4);
        lemma_cpi_distinct(n, c1, c, c5, c6);
        lemma_cpi_distinct(n, c, c4, c5, c6);
    }

    /// The multi-edge-switch condition: donor pairs `i1 = (p1, p5)` and
    /// `i2 = (p4, p8)` can repair the doubly-connected cell pair whose two
    /// pairs are `a = (p2, p6)` and `b = (p3, p7)` when the six half-edges
    /// `p1, p2, p4, p5, p6, p8` occupy six different cells, each donor is
    /// its cell pair's sole connection, and the four target cell pairs
    /// `(p1, p2)`, `(p3, p4)`, `(p5, p6)`, `(p7, p8)` are empty.
    pub open spec fn d_ok(&self, a: int, b: int, i1: int, i2: int) -> bool {
        let pa = self.spec_pairs()[a];
        let pb = self.spec_pairs()[b];
        let q1 = self.spec_pairs()[i1];
        let q2 = self.spec_pairs()[i2];
        &&& distinct_cells(self.spec_d(), seq![q1.0, pa.0, q2.0, q1.1, pa.1, q2.1])
        &&& self.bucket(self.cp_of(q1)).len() == 1
        &&& self.bucket(self.cp_of(q2)).len() == 1
        &&& self.bucket(cp_in(self.spec_n(), self.spec_d(), (q1.0, pa.0))).len() == 0
        &&& self.bucket(cp_in(self.spec_n(), self.spec_d(), (pb.0, q2.0))).len() == 0
        &&& self.bucket(cp_in(self.spec_n(), self.spec_d(), (q1.1, pa.1))).len() == 0
        &&& self.bucket(cp_in(self.spec_n(), self.spec_d(), (pb.1, q2.1))).len() == 0
    }

    /// All pairs of donor indices that could repair the doubly-connected
    /// cell pair of `d_idx1` and `d_idx2`, exactly those that satisfy the
    /// multi-edge-switch condition.
    pub fn d_forward_possibilities(&self, d_idx1: usize, d_idx2: usize) -> (r: Vec<
        (usize, usize),
    >)
        requires
            self.wf(),
            d_idx1 < self.spec_m(),
            d_idx2 < self.spec_m(),
            self.pcell0(d_idx2 as int) == self.pcell0(d_idx1 as int),
            self.pcell1(d_idx2 as int) == self.pcell1(d_idx1 as int),
        ensures
            forall|k: int|
                0 <= k < r@.len() ==> (#[trigger] r@[k]).0 < self.spec_m() && r@[k].1
                    < self.spec_m() && self.d_ok(
                    d_idx1 as int,
                    d_idx2 as int,
                    r@[k].0 as int,
                    r@[k].1 as int,
                ),
            forall|i1: int, i2: int|
                0 <= i1 < self.spec_m() && 0 <= i2 < self.spec_m() && self.d_ok(
                    d_idx1 as int,
                    d_idx2 as int,
                    i1,
                    i2,
                ) ==> r@.contains((i1 as usize, i2 as usize)),
    {
        let m = self.m();
        let (p2, p6) = self.get_pair(d_idx1);
        let (p3, p7) = self.get_pair(d_idx2);
        let mut r: Vec<(usize, usize)> = Vec::new();
        let mut i1: usize = 0;
        while i1 < m
            invariant
                i1 <= m,
                m == self.spec_m(),
                self.wf(),
                d_idx1 < self.spec_m(),
                d_idx2 < self.spec_m(),
                p2 == self.spec_pairs()[d_idx1 as int].0,
                p6 == self.spec_pairs()[d_idx1 as int].1,
                p3 == self.spec_pairs()[d_idx2 as int].0,
                p7 == self.spec_pairs()[d_idx2 as int].1,
                forall|k: int|
                    0 <= k < r@.len() ==> (#[trigger] r@[k]).0 < self.spec_m() && r@[k].1
                        < self.spec_m() && self.d_ok(
                        d_idx1 as int,
                        d_idx2 as int,
                        r@[k].0 as int,
                        r@[k].1 as int,
                    ),
                forall|a: int, b: int|
                    0 <= a < i1 && 0 <= b < self.spec_m() && self.d_ok(
                        d_idx1 as int,
                        d_idx2 as int,
                        a,
                        b,
                    ) ==> r@.contains((a as usize, b as usize)),
            decreases m - i1,
        {
            let (p1, p5) = self.get_pair(i1);
            let mut i2: usize = 0;
            while i2 < m
                invariant
                    i2 <= m,
                    i1 < m,
                    m == self.spec_m(),
                    self.wf(),
                    d_idx1 < self.spec_m(),
                    d_idx2 < self.spec_m(),
                    p2 == self.spec_pairs()[d_idx1 as int].0,
                    p6 == self.spec_pairs()[d_idx1 as int].1,
                    p3 == self.spec_pairs()[d_idx2 as int].0,
                    p7 == self.spec_pairs()[d_idx2 as int].1,
                    p1 == self.spec_pairs()[i1 as int].0,
                    p5 == self.spec_pairs()[i1 as int].1,
                    forall|k: int|
                        0 <= k < r@.len() ==> (#[trigger] r@[k]).0 < self.spec_m() && r@[k].1
                            < self.spec_m() && self.d_ok(
                            d_idx1 as int,
                            d_idx2 as int,
                            r@[k].0 as int,
                            r@[k].1 as int,
                        ),
                    forall|a: int, b: int|
                        0 <= a < i1 && 0 <= b < self.spec_m() && self.d_ok(
                            d_idx1 as int,
                            d_idx2 as int,
                            a,
                            b,
                        ) ==> r@.contains((a as usize, b as usize)),
                    forall|b: int|
                        0 <= b < i2 && self.d_ok(d_idx1 as int, d_idx2 as int, i1 as int, b)
                            ==> r@.contains((i1, b as usize)),
                decreases m - i2,
            {
                let (p4, p8) = self.get_pair(i2);
                let ps = vec![p1, p2, p4, p5, p6, p8];
                let cond = self.disjoint(&ps) && self.card(p1, p5) == 1 && self.card(p4, p8) == 1
                    && self.card(p1, p2) == 0 && self.card(p3, p4) == 0 && self.card(p5, p6) == 0
                    && self.card(p7, p8) == 0;
                proof {
                    assert(ps@ =~= seq![p1, p2, p4, p5, p6, p8]);
                    assert(cond == self.d_ok(d_idx1 as int, d_idx2 as int, i1 as int, i2 as int));
                }
                if cond {
                    let ghost pre = r@;
                    r.push((i1, i2));
                    proof {
                        lemma_push_contains(pre, (i1, i2));
                        assert(r@[pre.len() as int] == (i1, i2));
                    }
                }
                i2 += 1;
            }
            i1 += 1;
        }
        r
    }

    /// One multi-edge-removal switch.  The two parallel pairs `(p2, p6)`,
    /// `(p3, p7)` of a doubly-connected cell pair and the two donors
    /// `(p1, p5)`, `(p4, p8)` are rewritten to `(p1, p2)`, `(p3, p4)`,
    /// `(p5, p6)`, `(p7, p8)`: afterwards the defective cell pair and both
    /// donor cell pairs are empty, each of the four target cell pairs holds
    /// exactly one pair, every other cell pair is untouched, and the pair
    /// count and the endpoint multiset are unchanged.
    #[verifier::rlimit(60)]
    pub fn d_switch(&mut self, d_idx1: usize, d_idx2: usize, idx1: usize, idx2: usize)
        requires
            old(self).wf(),
            d_idx1 < old(self).spec_m(),
            d_idx2 < old(self).spec_m(),
            idx1 < old(self).spec_m(),
            idx2 < old(self).spec_m(),
            d_idx1 != d_idx2,
            !old(self).is_loop_at(d_idx1 as int),
            old(self).pcell0(d_idx2 as int) == old(self).pcell0(d_idx1 as int),
            old(self).pcell1(d_idx2 as int) == old(self).pcell1(d_idx1 as int),
            old(self).bucket(old(self).cp_of(old(self).spec_pairs()[d_idx1 as int])).len() == 2,
            old(self).d_ok(d_idx1 as int, d_idx2 as int, idx1 as int, idx2 as int),
        ensures
            final(self).wf(),
            final(self).spec_d() == old(self).spec_d(),
            final(self).spec_m() == old(self).spec_m(),
            final(self).spec_n() == old(self).spec_n(),
            forall|h: int|
                #[trigger] pcnt(final(self).spec_pairs(), h) == pcnt(old(self).spec_pairs(), h),
            ({
                let n = old(self).spec_n();
                let d = old(self).spec_d();
                let p2 = old(self).spec_pairs()[d_idx1 as int].0;
                let p6 = old(self).spec_pairs()[d_idx1 as int].1;
                let p3 = old(self).spec_pairs()[d_idx2 as int].0;
                let p7 = old(self).spec_pairs()[d_idx2 as int].1;
                let p1 = old(self).spec_pairs()[idx1 as int].0;
                let p5 = old(self).spec_pairs()[idx1 as int].1;
                let p4 = old(self).spec_pairs()[idx2 as int].0;
                let p8 = old(self).spec_pairs()[idx2 as int].1;
                let e26 = cp_in(n, d, (p2, p6));
                let e15 = cp_in(n, d, (p1, p5));
                let e48 = cp_in(n, d, (p4, p8));
                let e12 = cp_in(n, d, (p1, p2));
                let e34 = cp_in(n, d, (p3, p4));
                let e56 = cp_in(n, d, (p5, p6));
                let e78 = cp_in(n, d, (p7, p8));
                &&& final(self).spec_pairs() == old(self).spec_pairs().update(
                    d_idx1 as int,
                    (p1, p2),
                ).update(d_idx2 as int, (p3, p4)).update(idx1 as int, (p5, p6)).update(
                    idx2 as int,
                    (p7, p8),
                )
                &&& final(self).bucket(e26).len() == 0
                &&& final(self).bucket(e15).len() == 0
                &&& final(self).bucket(e48).len() == 0
                &&& final(self).bucket(e12) == old(self).bucket(e12).push(d_idx1)
                &&& final(self).bucket(e34) == old(self).bucket(e34).push(d_idx2)
                &&& final(self).bucket(e56) == old(self).bucket(e56).push(idx1)
                &&& final(self).bucket(e78) == old(self).bucket(e78).push(idx2)
                &&& final(self).bucket(e12).len() == 1
                &&& final(self).bucket(e34).len() == 1
                &&& final(self).bucket(e56).len() == 1
                &&& final(self).bucket(e78).len() == 1
                &&& forall|e: int|
                    0 <= e < n * n && e != e26 && e != e15 && e != e48 && e != e12 && e != e34 && e
                        != e56 && e != e78 ==> (#[trigger] final(self).bucket(e)) == old(
                        self,
                    ).bucket(e)
            }),
    {
        let (p2, p6) = self.get_pair(d_idx1);
        let (p3, p7) = self.get_pair(d_idx2);
        let (p1, p5) = self.get_pair(idx1);
        let (p4, p8) = self.get_pair(idx2);
        let ghost s0 = *self;
        let ghost n = self.spec_n();
        let ghost d = self.spec_d();
        let ghost e26 = cp_in(n, d, (p2, p6));
        let ghost e15 = cp_in(n, d, (p1, p5));
        let ghost e48 = cp_in(n, d, (p4, p8));
        let ghost e12 = cp_in(n, d, (p1, p2));
        let ghost e34 = cp_in(n, d, (p3, p4));
        let ghost e56 = cp_in(n, d, (p5, p6));
        let ghost e78 = cp_in(n, d, (p7, p8));
        proof {
            self.lemma_d_switch_setup(d_idx1, d_idx2, idx1, idx2);
            assert(s0.cp_of(s0.spec_pairs()[d_idx2 as int]) == e26);
        }
        self.replace_pair(d_idx1, p1, p2);
        let ghost s1 = *self;
        self.replace_pair(d_idx2, p3, p4);
        let ghost s2 = *self;
        self.replace_pair(idx1, p5, p6);
        let ghost s3 = *self;
        self.replace_pair(idx2, p7, p8);
        proof {
            // The defective bucket held exactly the two parallel pairs and
            // is emptied in two steps.
            assert(s0.bucket_wf(e26));
            assert(nodup_u(s0.bucket(e26)));
            lemma_without(s0.bucket(e26), d_idx1);
            assert(s0.bucket(e26).contains((d_idx1 as int) as usize)) by {
                assert(s0.bucket(s0.cp_of(s0.spec_pairs()[d_idx1 as int])).contains(
                    (d_idx1 as int) as usize,
                ));
            }
            assert(s1.bucket(e26) == seq_without(s0.bucket(e26), d_idx1));
            assert(s1.bucket(e26).len() == 1);
            lemma_without(s1.bucket(e26), d_idx2);
            assert(s1.bucket(e26).contains((d_idx2 as int) as usize)) by {
                assert(s0.bucket(s0.cp_of(s0.spec_pairs()[d_idx2 as int])).contains(
                    (d_idx2 as int) as usize,
                ));
                assert(s0.bucket(e26).contains((d_idx2 as int) as usize));
            }
            assert(s2.bucket(e26) == seq_without(s1.bucket(e26), d_idx2));
            assert(s2.bucket(e26).len() == 0);
            // Donor buckets held one pair each and are emptied.
            lemma_without(s2.bucket(e15), idx1);
            assert(s2.bucket(e15) == s0.bucket(e15));
            assert(s2.bucket(e15).contains((idx1 as int) as usize)) by {
                assert(s0.bucket(s0.cp_of(s0.spec_pairs()[idx1 as int])).contains(
                    (idx1 as int) as usize,
                ));
            }
            assert(s3.bucket(e15) == seq_without(s2.bucket(e15), idx1));
            assert(s3.bucket(e15).len() == 0);
            lemma_without(s3.bucket(e48), idx2);
            assert(s3.bucket(e48) == s0.bucket(e48));
            assert(s3.bucket(e48).contains((idx2 as int) as usize)) by {
                assert(s0.bucket(s0.cp_of(s0.spec_pairs()[idx2 as int])).contains(
                    (idx2 as int) as usize,
                ));
            }
            assert(self.bucket(e48) == seq_without(s3.bucket(e48), idx2));
            assert(self.bucket(e48).len() == 0);
            // Target buckets gain exactly their one new pair.
            assert(self.bucket(e12) == s0.bucket(e12).push(d_idx1));
            assert(self.bucket(e34) == s0.bucket(e34).push(d_idx2));
            assert(self.bucket(e56) == s0.bucket(e56).push(idx1));
            assert(self.bucket(e78) == s0.bucket(e78).push(idx2));
            assert(self.bucket(e26).len() == 0);
            assert(self.bucket(e15).len() == 0);
            // Everything else is untouched.
            assert forall|e: int|
                0 <= e < n * n && e != e26 && e != e15 && e != e48 && e != e12 && e != e34 && e
                    != e56 && e != e78 implies (#[trigger] self.bucket(e)) == s0.bucket(e) by {
                assert(s1.bucket(e) == s0.bucket(e));
                assert(s2.bucket(e) == s1.bucket(e));
                assert(s3.bucket(e) == s2.bucket(e));
            }
            // The endpoint multiset is unchanged.
            assert forall|h: int|
                #[trigger] pcnt(self.spec_pairs(), h) == pcnt(s0.spec_pairs(), h) by {
                lemma_pcnt_update(s0.spec_pairs(), d_idx1 as int, (p1, p2), h);
                lemma_pcnt_update(s1.spec_pairs(), d_idx2 as int, (p3, p4), h);
                lemma_pcnt_update(s2.spec_pairs(), idx1 as int, (p5, p6), h);
                lemma_pcnt_update(s3.spec_pairs(), idx2 as int, (p7, p8), h);
                assert(s1.spec_pairs()[d_idx2 as int] == (p3, p7));
                assert(s2.spec_pairs()[idx1 as int] == (p1, p5));
                assert(s3.spec_pairs()[idx2 as int] == (p4, p8));
            }
        }
    }

    /// Groundwork for the multi-edge switch: the four pair indices are
    /// pairwise different and the seven affected cell-pair positions are
    /// pairwise different and in range.
    proof fn lemma_d_switch_setup(&self, d_idx1: usize, d_idx2: usize, idx1: usize, idx2: usize)
        requires
            self.wf(),
            d_idx1 < self.spec_m(),
            d_idx2 < self.spec_m(),
            idx1 < self.spec_m(),
            idx2 < self.spec_m(),
            d_idx1 != d_idx2,
            !self.is_loop_at(d_idx1 as int),
            self.pcell0(d_idx2 as int) == self.pcell0(d_idx1 as int),
            self.pcell1(d_idx2 as int) == self.pcell1(d_idx1 as int),
            self.bucket(self.cp_of(self.spec_pairs()[d_idx1 as int])).len() == 2,
            self.d_ok(d_idx1 as int, d_idx2 as int, idx1 as int, idx2 as int),
        ensures
            ({
                let n = self.spec_n();
                let d = self.spec_d();
                let p2 = self.spec_pairs()[d_idx1 as int].0;
                let p6 = self.spec_pairs()[d_idx1 as int].1;
                let p3 = self.spec_pairs()[d_idx2 as int].0;
                let p7 = self.spec_pairs()[d_idx2 as int].1;
                let p1 = self.spec_pairs()[idx1 as int].0;
                let p5 = self.spec_pairs()[idx1 as int].1;
                let p4 = self.spec_pairs()[idx2 as int].0;
                let p8 = self.spec_pairs()[idx2 as int].1;
                let e26 = cp_in(n, d, (p2, p6));
                let e15 = cp_in(n, d, (p1, p5));
                let e48 = cp_in(n, d, (p4, p8));
                let e12 = cp_in(n, d, (p1, p2));
                let e34 = cp_in(n, d, (p3, p4));
                let e56 = cp_in(n, d, (p5, p6));
                let e78 = cp_in(n, d, (p7, p8));
                &&& d_idx1 != idx1 && d_idx1 != idx2 && d_idx2 != idx1 && d_idx2 != idx2 && idx1
                    != idx2
                &&& cp_in(n, d, (p3, p7)) == e26
                &&& e26 != e15 && e26 != e48 && e26 != e12 && e26 != e34 && e26 != e56 && e26
                    != e78
                &&& e15 != e48 && e15 != e12 && e15 != e34 && e15 != e56 && e15 != e78
                &&& e48 != e12 && e48 != e34 && e48 != e56 && e48 != e78
                &&& e12 != e34 && e12 != e56 && e12 != e78
                &&& e34 != e56 && e34 != e78
                &&& e56 != e78
                &&& 0 <= e26 < n * n && 0 <= e15 < n * n && 0 <= e48 < n * n
                &&& 0 <= e12 < n * n && 0 <= e34 < n * n && 0 <= e56 < n * n && 0 <= e78 < n * n
            }),
    {
        let n = self.spec_n();
        let d = self.spec_d();
        let p2 = self.spec_pairs()[d_idx1 as int].0;
        let p6 = self.spec_pairs()[d_idx1 as int].1;
        let p3 = self.spec_pairs()[d_idx2 as int].0;
        let p7 = self.spec_pairs()[d_idx2 as int].1;
        let p1 = self.spec_pairs()[idx1 as int].0;
        let p5 = self.spec_pairs()[idx1 as int].1;
        let p4 = self.spec_pairs()[idx2 as int].0;
        let p8 = self.spec_pairs()[idx2 as int].1;
        let sq = seq![p1, p2, p4, p5, p6, p8];
        assert(distinct_cells(d, sq));
        let c1 = cell_of(d, p1 as int);
        let c2 = cell_of(d, p2 as int);
        let c4 = cell_of(d, p4 as int);
        let c5 = cell_of(d, p5 as int);
        let c6 = cell_of(d, p6 as int);
        let c8 = cell_of(d, p8 as int);
        assert(sq[0] == p1 && sq[1] == p2 && sq[2] == p4 && sq[3] == p5 && sq[4] == p6 && sq[5]
            == p8);
        assert(c1 != c2 && c1 != c4 && c1 != c5 && c1 != c6 && c1 != c8);
        assert(c2 != c4 && c2 != c5 && c2 != c6 && c2 != c8);
        assert(c4 != c5 && c4 != c6 && c4 != c8);
        assert(c5 != c6 && c5 != c8);
        assert(c6 != c8);
        assert(cell_of(d, p3 as int) == c2);
        assert(cell_of(d, p7 as int) == c6);
        assert((self.spec_pairs()[d_idx1 as int]).0 < n * d);
        assert((self.spec_pairs()[d_idx2 as int]).0 < n * d);
        assert((self.spec_pairs()[idx1 as int]).0 < n * d);
        assert((self.spec_pairs()[idx2 as int]).0 < n * d);
        lemma_cell_range(n, d, p1 as int);
        lemma_cell_range(n, d, p2 as int);
        lemma_cell_range(n, d, p3 as int);
        lemma_cell_range(n, d, p4 as int);
        lemma_cell_range(n, d, p5 as int);
        lemma_cell_range(n, d, p6 as int);
        lemma_cell_range(n, d, p7 as int);
        lemma_cell_range(n, d, p8 as int);
        lemma_cpi_range(n, c2, c6);
        lemma_cpi_range(n, c1, c5);
        lemma_cpi_range(n, c4, c8);
        lemma_cpi_range(n, c1, c2);
        lemma_cpi_range(n, c2, c4);
        lemma_cpi_range(n, c5, c6);
        lemma_cpi_range(n, c6, c8);
        lemma_cpi_distinct(n, c2, c6, c1, c5);
        lemma_cpi_distinct(n, c2, c6, c4, c8);
        lemma_cpi_distinct(n, c2, c6, c1, c2);
        lemma_cpi_distinct(n, c2, c6, c2, c4);
        lemma_cpi_distinct(n, c2, c6, c5, c6);
        lemma_cpi_distinct(n, c2, c6, c6, c8);
        lemma_cpi_distinct(n, c1, c5, c4, c8);
        lemma_cpi_distinct(n, c1, c5, c1, c2);
        lemma_cpi_distinct(n, c1, c5, c2, c4);
        lemma_cpi_distinct(n, c1, c5, c5, c6);
        lemma_cpi_distinct(n, c1, c5, c6, c8);
        lemma_cpi_distinct(n, c4, c8, c1, c2);
        lemma_cpi_distinct(n, c4, c8, c2, c4);
        lemma_cpi_distinct(n, c4, c8, c5, c6);
        lemma_cpi_distinct(n, c4, c8, c6, c8);
        lemma_cpi_distinct(n, c1, c2, c2, c4);
        lemma_cpi_distinct(n, c1, c2, c5, c6);
        lemma_cpi_distinct(n, c1, c2, c6, c8);
        lemma_cpi_distinct(n, c2, c4, c5, c6);
        lemma_cpi_distinct(n, c2, c4, c6, c8);
        lemma_cpi_distinct(n, c5, c6, c6, c8);
        // The four indices are pairwise different.
        if idx1 == d_idx1 || idx1 == d_idx2 || idx2 == d_idx1 || idx2 == d_idx2 {
            assert(false);
        }
    }

    /// The cells connected by each pair, in pair-list order.
    pub fn cell_pairs(&self) -> (r: Vec<(usize, usize)>)
        requires
            self.wf(),
        ensures
            r@.len() == self.spec_m(),
            r@.len() == self.spec_pairs().len(),
            forall|i: int|
                0 <= i < r@.len() ==> (#[trigger] r@[i]).0 as int == self.pcell0(i)
                    && r@[i].1 as int == self.pcell1(i) && r@[i].0 < self.spec_n() && r@[i].1
                    < self.spec_n(),
    {
        let m = self.pairs.len();
        let mut r: Vec<(usize, usize)> = Vec::new();
        let mut i: usize = 0;
        while i < m
            invariant
                i <= m,
                m == self.spec_m(),
                self.wf(),
                r@.len() == i,
                forall|j: int|
                    0 <= j < i ==> (#[trigger] r@[j]).0 as int == self.pcell0(j) && r@[j].1 as int
                        == self.pcell1(j) && r@[j].0 < self.spec_n() && r@[j].1 < self.spec_n(),
            decreases m - i,
        {
            let (a, b) = self.pairs[i];
            proof {
                assert((self.spec_pairs()[i as int]).0 < self.spec_n() * self.spec_d());
                lemma_cell_range(self.spec_n(), self.spec_d(), a as int);
                lemma_cell_range(self.spec_n(), self.spec_d(), b as int);
            }
            r.push((a / self.d, b / self.d));
            i += 1;
        }
        r
    }

    /// The number of pairs in the bucket at position `e`.
    fn bucket_len(&self, e: usize) -> (r: usize)
        requires
            self.wf(),
            (e as int) < self.spec_n() * self.spec_n(),
        ensures
            r as int == self.bucket(e as int).len(),
    {
        self.edges[e].len()
    }

    /// The pair index stored at position `k` of the bucket at `e`.
    fn bucket_member(&self, e: usize, k: usize) -> (r: usize)
        requires
            self.wf(),
            (e as int) < self.spec_n() * self.spec_n(),
            (k as int) < self.bucket(e as int).len(),
        ensures
            r == self.bucket(e as int)[k as int],
            r < self.spec_m(),
            self.cp_of(self.spec_pairs()[r as int]) == e as int,
    {
        proof {
            assert(self.bucket_wf(e as int));
        }
        self.edges[e][k]
    }

    /// Every pair's cell-pair position lies inside the bucket table.
    proof fn lemma_cp_in_table(&self, i: int)
        requires
            self.wf(),
            0 <= i < self.spec_m(),
        ensures
            0 <= self.cp_of(self.spec_pairs()[i]) < self.spec_n() * self.spec_n(),
    {
        let n = self.spec_n();
        let d = self.spec_d();
        assert((self.spec_pairs()[i]).0 < n * d);
        lemma_cell_range(n, d, self.spec_pairs()[i].0 as int);
        lemma_cell_range(n, d, self.spec_pairs()[i].1 as int);
        lemma_cpi_range(
            n,
            cell_of(d, self.spec_pairs()[i].0 as int),
            cell_of(d, self.spec_pairs()[i].1 as int),
        );
    }

    /// A pair whose bucket position decomposes as `e = c1 * n + c2` with
    /// `c1, c2` below `n` connects exactly the cells `{c1, c2}`.
    proof fn lemma_scan_member(&self, e: int, c1: int, c2: int, i: int)
        requires
            self.wf(),
            0 <= i < self.spec_m(),
            self.cp_of(self.spec_pairs()[i]) == e,
            0 <= c1 < self.spec_n(),
            0 <= c2 < self.spec_n(),
            e == c1 * self.spec_n() + c2,
        ensures
            self.links(i, c1, c2),
    {
        let n = self.spec_n();
        let d = self.spec_d();
        assert((self.spec_pairs()[i]).0 < n * d);
        lemma_cell_range(n, d, self.spec_pairs()[i].0 as int);
        lemma_cell_range(n, d, self.spec_pairs()[i].1 as int);
        let a = self.pcell0(i);
        let b = self.pcell1(i);
        let hi = if a > b {
            a
        } else {
            b
        };
        let lo = if a > b {
            b
        } else {
            a
        };
        lemma_fundamental_div_mod_converse(e, n, hi, lo);
        lemma_fundamental_div_mod_converse(e, n, c1, c2);
        assert(hi * n == n * hi) by (nonlinear_arith);
        assert(c1 * n == n * c1) by (nonlinear_arith);
    }

    /// Scan facts for the loop list: the listed indices are pairwise
    /// different loops, each alone in its bucket, and every loop is listed.
    pub open spec fn loops_listed(&self, rem: Seq<usize>) -> bool {
        &&& forall|k: int|
            0 <= k < rem.len() ==> (#[trigger] rem[k]) < self.spec_m() && self.is_loop_at(
                rem[k] as int,
            ) && self.bucket(self.cp_of(self.spec_pairs()[rem[k] as int])).len() == 1
        &&& forall|i: int|
            0 <= i < self.spec_m() && #[trigger] self.is_loop_at(i) ==> rem.contains(i as usize)
        &&& nodup_u(rem)
    }

    /// One entry of the multi-edge list: two different non-loop pairs that
    /// connect the same cell pair, which holds exactly two pairs.
    pub open spec fn dentry_ok(&self, en: (usize, usize)) -> bool {
        &&& en.0 < self.spec_m() && en.1 < self.spec_m() && en.0 != en.1
        &&& !self.is_loop_at(en.0 as int) && !self.is_loop_at(en.1 as int)
        &&& self.cp_of(self.spec_pairs()[en.0 as int]) == self.cp_of(
            self.spec_pairs()[en.1 as int],
        )
        &&& self.bucket(self.cp_of(self.spec_pairs()[en.0 as int])).len() == 2
    }

    /// Scan facts for the multi-edge list: the entries describe pairwise
    /// different doubly-connected cell pairs, and every doubly-connected
    /// cell pair is described by one of them.
    pub open spec fn doubles_listed(&self, rem: Seq<(usize, usize)>) -> bool {
        &&& forall|k: int| 0 <= k < rem.len() ==> self.dentry_ok(#[trigger] rem[k])
        &&& forall|k1: int, k2: int|
            0 <= k1 < k2 < rem.len() ==> self.cp_of(self.spec_pairs()[rem[k1].0 as int])
                != self.cp_of(self.spec_pairs()[rem[k2].0 as int])
        &&& forall|i: int, j: int|
            #![trigger self.spec_pairs()[i], self.spec_pairs()[j]]
            0 <= i < j < self.spec_m() && !self.is_loop_at(i) && self.cp_of(self.spec_pairs()[i])
                == self.cp_of(self.spec_pairs()[j]) ==> (rem.contains((i as usize, j as usize))
                || rem.contains((j as usize, i as usize)))
    }

    /// Remove every listed doubly-connected cell pair by one switch each,
    /// drawing the donor pairs uniformly from the valid candidates; `None`
    /// means some defect had no candidates and generation must restart.
    /// No loops are created, and afterwards the pairing is simple.
    pub fn no_doubles(
        &mut self,
        double_idxs: Vec<(usize, usize)>,
        rng: &mut rand::rngs::StdRng,
    ) -> (r: Option<()>)
        requires
            old(self).wf(),
            forall|i: int| 0 <= i < old(self).spec_m() ==> !(#[trigger] old(self).is_loop_at(i)),
            old(self).doubles_listed(double_idxs@),
        ensures
            final(self).wf(),
            final(self).spec_d() == old(self).spec_d(),
            final(self).spec_m() == old(self).spec_m(),
            final(self).spec_n() == old(self).spec_n(),
            forall|h: int|
                #[trigger] pcnt(final(self).spec_pairs(), h) == pcnt(old(self).spec_pairs(), h),
            r is Some ==> final(self).is_simple(),
    {
        let len = double_idxs.len();
        let mut k: usize = 0;
        proof {
            assert(double_idxs@.skip(0) =~= double_idxs@);
        }
        while k < len
            invariant
                k <= len,
                len == double_idxs@.len(),
                self.wf(),
                self.spec_d() == old(self).spec_d(),
                self.spec_m() == old(self).spec_m(),
                self.spec_n() == old(self).spec_n(),
                forall|i: int| 0 <= i < self.spec_m() ==> !(#[trigger] self.is_loop_at(i)),
                self.doubles_listed(double_idxs@.skip(k as int)),
                forall|h: int|
                    #[trigger] pcnt(self.spec_pairs(), h) == pcnt(old(self).spec_pairs(), h),
            decreases len - k,
        {
            let (a, b) = double_idxs[k];
            proof {
                let rem = double_idxs@.skip(k as int);
                assert(rem[0] == double_idxs@[k as int]);
                assert(self.dentry_ok((a, b)));
            }
            let (p2, p6) = self.get_pair(a);
            let (p3, p7) = self.get_pair(b);
            proof {
                self.lemma_double_alignment(a, b);
            }
            if self.same_cell(p2, p7) {
                let ghost pre_swap = *self;
                self.swap_ends(b);
                proof {
                    self.lemma_swap_keeps_phase(
                        pre_swap,
                        b,
                        double_idxs@.skip(k as int),
                        *old(self),
                    );
                }
            }
            proof {
                assert(self.pcell0(b as int) == self.pcell0(a as int) && self.pcell1(b as int)
                    == self.pcell1(a as int));
            }
            let cands = self.d_forward_possibilities(a, b);
            let picked = pick_pair(rng, &cands);
            let (idx1, idx2) = match picked {
                None => {
                    return None;
                },
                Some(c) => c,
            };
            proof {
                let i = choose|i: int| 0 <= i < cands@.len() && cands@[i] == (idx1, idx2);
                assert(cands@[i].0 < self.spec_m());
            }
            let ghost cur = *self;
            self.d_switch(a, b, idx1, idx2);
            proof {
                self.lemma_d_switch_phase(cur, a, b, idx1, idx2, double_idxs@, k as int);
            }
            k += 1;
        }
        proof {
            assert(double_idxs@.skip(len as int) =~= Seq::<(usize, usize)>::empty());
            assert forall|i: int, j: int|
                0 <= i < j < self.spec_m() implies !(#[trigger] self.links(
                j,
                self.pcell0(i),
                self.pcell1(i),
            )) by {
                if self.links(j, self.pcell0(i), self.pcell1(i)) {
                    assert(self.cp_of(self.spec_pairs()[i]) == self.cp_of(self.spec_pairs()[j]));
                    assert(!self.is_loop_at(i));
                    let rem = double_idxs@.skip(len as int);
                    assert(rem.contains((i as usize, j as usize)) || rem.contains(
                        (j as usize, i as usize),
                    ));
                }
            }
            assert(self.is_simple());
        }
        Some(())
    }

    /// The two pairs of a doubly-connected cell pair read the same two
    /// cells, in one order or the other.
    proof fn lemma_double_alignment(&self, a: usize, b: usize)
        requires
            self.wf(),
            self.dentry_ok((a, b)),
        ensures
            (self.pcell0(b as int) == self.pcell0(a as int) && self.pcell1(b as int)
                == self.pcell1(a as int)) || (self.pcell0(b as int) == self.pcell1(a as int)
                && self.pcell1(b as int) == self.pcell0(a as int)),
            self.pcell0(b as int) == self.pcell1(a as int) <==> self.pcell1(a as int)
                == self.pcell0(b as int),
    {
        let n = self.spec_n();
        let d = self.spec_d();
        assert((self.spec_pairs()[a as int]).0 < n * d);
        assert((self.spec_pairs()[b as int]).0 < n * d);
        lemma_cell_range(n, d, self.spec_pairs()[a as int].0 as int);
        lemma_cell_range(n, d, self.spec_pairs()[a as int].1 as int);
        lemma_cell_range(n, d, self.spec_pairs()[b as int].0 as int);
        lemma_cell_range(n, d, self.spec_pairs()[b as int].1 as int);
        Self::lemma_cpi_injective(
            n,
            self.pcell0(a as int),
            self.pcell1(a as int),
            self.pcell0(b as int),
            self.pcell1(b as int),
        );
    }

    /// Swapping the endpoints of one listed pair keeps the phase facts: no
    /// loops appear, the multi-edge list stays valid, and endpoint counts
    /// are unchanged.
    proof fn lemma_swap_keeps_phase(
        &self,
        pre: Pairing,
        b: usize,
        rem: Seq<(usize, usize)>,
        start: Pairing,
    )
        requires
            pre.wf(),
            self.wf(),
            b < pre.spec_m(),
            forall|i: int| 0 <= i < pre.spec_m() ==> !(#[trigger] pre.is_loop_at(i)),
            pre.doubles_listed(rem),
            forall|h: int| #[trigger] pcnt(pre.spec_pairs(), h) == pcnt(start.spec_pairs(), h),
            self.spec_d() == pre.spec_d(),
            self.spec_m() == pre.spec_m(),
            self.spec_n() == pre.spec_n(),
            self.spec_pairs() == pre.spec_pairs().update(
                b as int,
                (pre.spec_pairs()[b as int].1, pre.spec_pairs()[b as int].0),
            ),
            forall|e: int|
                0 <= e < pre.spec_n() * pre.spec_n() ==> (#[trigger] self.bucket(e)) == pre.bucket(
                    e,
                ),
        ensures
            forall|i: int| 0 <= i < self.spec_m() ==> !(#[trigger] self.is_loop_at(i)),
            self.doubles_listed(rem),
            forall|h: int| #[trigger] pcnt(self.spec_pairs(), h) == pcnt(start.spec_pairs(), h),
    {
        let m = pre.spec_m();
        assert(forall|i: int|
            0 <= i < m && i != b ==> (#[trigger] self.spec_pairs()[i]) == pre.spec_pairs()[i]);
        assert forall|i: int|
            0 <= i < m implies self.cp_of(#[trigger] self.spec_pairs()[i]) == pre.cp_of(
            pre.spec_pairs()[i],
        ) && (self.is_loop_at(i) == pre.is_loop_at(i)) by {
            if i != b {
                assert(self.spec_pairs()[i] == pre.spec_pairs()[i]);
            }
        }
        assert forall|h: int|
            #[trigger] pcnt(self.spec_pairs(), h) == pcnt(start.spec_pairs(), h) by {
            lemma_pcnt_update(
                pre.spec_pairs(),
                b as int,
                (pre.spec_pairs()[b as int].1, pre.spec_pairs()[b as int].0),
                h,
            );
        }
        assert forall|kk: int| 0 <= kk < rem.len() implies self.dentry_ok(#[trigger] rem[kk]) by {
            assert(pre.dentry_ok(rem[kk]));
            assert(self.bucket(self.cp_of(self.spec_pairs()[rem[kk].0 as int])) == pre.bucket(
                pre.cp_of(pre.spec_pairs()[rem[kk].0 as int]),
            )) by {
                let ea = pre.cp_of(pre.spec_pairs()[rem[kk].0 as int]);
                let n = pre.spec_n();
                let d = pre.spec_d();
                assert((pre.spec_pairs()[rem[kk].0 as int]).0 < n * d);
                lemma_cell_range(n, d, pre.spec_pairs()[rem[kk].0 as int].0 as int);
                lemma_cell_range(n, d, pre.spec_pairs()[rem[kk].0 as int].1 as int);
                lemma_cpi_range(
                    n,
                    cell_of(d, pre.spec_pairs()[rem[kk].0 as int].0 as int),
                    cell_of(d, pre.spec_pairs()[rem[kk].0 as int].1 as int),
                );
            }
        }
        assert forall|i: int, j: int|
            #![trigger self.spec_pairs()[i], self.spec_pairs()[j]]
            0 <= i < j < m && !self.is_loop_at(i) && self.cp_of(self.spec_pairs()[i])
                == self.cp_of(self.spec_pairs()[j]) implies (rem.contains((i as usize, j as usize))
                || rem.contains((j as usize, i as usize))) by {
            assert(pre.cp_of(pre.spec_pairs()[i]) == pre.cp_of(pre.spec_pairs()[j]));
            assert(!pre.is_loop_at(i));
            assert(pre.spec_pairs()[j] == pre.spec_pairs()[j]);
        }
    }

    /// One multi-edge switch keeps the phase invariants: no loops appear
    /// and the remaining multi-edge list stays valid.
    proof fn lemma_d_switch_phase(
        &self,
        cur: Pairing,
        a: usize,
        b: usize,
        idx1: usize,
        idx2: usize,
        all: Seq<(usize, usize)>,
        k: int,
    )
        requires
            cur.wf(),
            self.wf(),
            0 <= k < all.len(),
            cur.doubles_listed(all.skip(k)),
            all[k] == (a, b),
            a < cur.spec_m(),
            b < cur.spec_m(),
            idx1 < cur.spec_m(),
            idx2 < cur.spec_m(),
            a != b,
            forall|i: int| 0 <= i < cur.spec_m() ==> !(#[trigger] cur.is_loop_at(i)),
            cur.pcell0(b as int) == cur.pcell0(a as int),
            cur.pcell1(b as int) == cur.pcell1(a as int),
            cur.bucket(cur.cp_of(cur.spec_pairs()[a as int])).len() == 2,
            cur.d_ok(a as int, b as int, idx1 as int, idx2 as int),
            self.spec_d() == cur.spec_d(),
            self.spec_m() == cur.spec_m(),
            self.spec_n() == cur.spec_n(),
            ({
                let n = cur.spec_n();
                let d = cur.spec_d();
                let p2 = cur.spec_pairs()[a as int].0;
                let p6 = cur.spec_pairs()[a as int].1;
                let p3 = cur.spec_pairs()[b as int].0;
                let p7 = cur.spec_pairs()[b as int].1;
                let p1 = cur.spec_pairs()[idx1 as int].0;
                let p5 = cur.spec_pairs()[idx1 as int].1;
                let p4 = cur.spec_pairs()[idx2 as int].0;
                let p8 = cur.spec_pairs()[idx2 as int].1;
                let e26 = cp_in(n, d, (p2, p6));
                let e15 = cp_in(n, d, (p1, p5));
                let e48 = cp_in(n, d, (p4, p8));
                let e12 = cp_in(n, d, (p1, p2));
                let e34 = cp_in(n, d, (p3, p4));
                let e56 = cp_in(n, d, (p5, p6));
                let e78 = cp_in(n, d, (p7, p8));
                &&& self.spec_pairs() == cur.spec_pairs().update(a as int, (p1, p2)).update(
                    b as int,
                    (p3, p4),
                ).update(idx1 as int, (p5, p6)).update(idx2 as int, (p7, p8))
                &&& self.bucket(e26).len() == 0
                &&& self.bucket(e15).len() == 0
                &&& self.bucket(e48).len() == 0
                &&& self.bucket(e12) == cur.bucket(e12).push(a)
                &&& self.bucket(e34) == cur.bucket(e34).push(b)
                &&& self.bucket(e56) == cur.bucket(e56).push(idx1)
                &&& self.bucket(e78) == cur.bucket(e78).push(idx2)
                &&& forall|e: int|
                    0 <= e < n * n && e != e26 && e != e15 && e != e48 && e != e12 && e != e34 && e
                        != e56 && e != e78 ==> (#[trigger] self.bucket(e)) == cur.bucket(e)
            }),
        ensures
            forall|i: int| 0 <= i < self.spec_m() ==> !(#[trigger] self.is_loop_at(i)),
            self.doubles_listed(all.skip(k + 1)),
    {
        let n = cur.spec_n();
        let d = cur.spec_d();
        let m = cur.spec_m();
        let p2 = cur.spec_pairs()[a as int].0;
        let p6 = cur.spec_pairs()[a as int].1;
        let p3 = cur.spec_pairs()[b as int].0;
        let p7 = cur.spec_pairs()[b as int].1;
        let p1 = cur.spec_pairs()[idx1 as int].0;
        let p5 = cur.spec_pairs()[idx1 as int].1;
        let p4 = cur.spec_pairs()[idx2 as int].0;
        let p8 = cur.spec_pairs()[idx2 as int].1;
        let e26 = cp_in(n, d, (p2, p6));
        let e15 = cp_in(n, d, (p1, p5));
        let e48 = cp_in(n, d, (p4, p8));
        let e12 = cp_in(n, d, (p1, p2));
        let e34 = cp_in(n, d, (p3, p4));
        let e56 = cp_in(n, d, (p5, p6));
        let e78 = cp_in(n, d, (p7, p8));
        let c1 = cell_of(d, p1 as int);
        let c2 = cell_of(d, p2 as int);
        let c4 = cell_of(d, p4 as int);
        let c5 = cell_of(d, p5 as int);
        let c6 = cell_of(d, p6 as int);
        let c8 = cell_of(d, p8 as int);
        cur.lemma_d_switch_setup(a, b, idx1, idx2);
        assert((cur.spec_pairs()[a as int]).0 < n * d);
        assert((cur.spec_pairs()[b as int]).0 < n * d);
        assert((cur.spec_pairs()[idx1 as int]).0 < n * d);
        assert((cur.spec_pairs()[idx2 as int]).0 < n * d);
        lemma_cell_range(n, d, p1 as int);
        lemma_cell_range(n, d, p2 as int);
        lemma_cell_range(n, d, p3 as int);
        lemma_cell_range(n, d, p4 as int);
        lemma_cell_range(n, d, p5 as int);
        lemma_cell_range(n, d, p6 as int);
        lemma_cell_range(n, d, p7 as int);
        lemma_cell_range(n, d, p8 as int);
        let old_rem = all.skip(k);
        let rem = all.skip(k + 1);
        assert(old_rem[0] == (a, b));
        assert(forall|j: int| 0 <= j < rem.len() ==> rem[j] == old_rem[j + 1]);
        assert(cur.dentry_ok((a, b)));
        // No pair is a loop afterwards.
        assert(forall|i: int|
            0 <= i < m && i != a && i != b && i != idx1 && i != idx2 ==> (
            #[trigger] self.spec_pairs()[i]) == cur.spec_pairs()[i]);
        assert forall|i: int| 0 <= i < m implies !(#[trigger] self.is_loop_at(i)) by {
            if i != a && i != b && i != idx1 && i != idx2 {
                assert(self.spec_pairs()[i] == cur.spec_pairs()[i]);
                assert(!cur.is_loop_at(i));
            }
        }
        // The singleton target buckets.
        assert(self.bucket(e12) =~= seq![a]) by {
            assert(cur.bucket(e12) =~= Seq::<usize>::empty());
        }
        assert(self.bucket(e34) =~= seq![b]) by {
            assert(cur.bucket(e34) =~= Seq::<usize>::empty());
        }
        assert(self.bucket(e56) =~= seq![idx1]) by {
            assert(cur.bucket(e56) =~= Seq::<usize>::empty());
        }
        assert(self.bucket(e78) =~= seq![idx2]) by {
            assert(cur.bucket(e78) =~= Seq::<usize>::empty());
        }
        // Untouched pairs with a doubly-connected cell pair keep it.
        assert forall|x: int|
            0 <= x < m && x != a && x != b && x != idx1 && x != idx2 && cur.bucket(
                cur.cp_of(cur.spec_pairs()[x]),
            ).len() == 2 && cur.cp_of(cur.spec_pairs()[x]) != e26 implies self.cp_of(
            #[trigger] self.spec_pairs()[x],
        ) == cur.cp_of(cur.spec_pairs()[x]) && self.bucket(cur.cp_of(cur.spec_pairs()[x]))
            == cur.bucket(cur.cp_of(cur.spec_pairs()[x])) by {
            assert(self.spec_pairs()[x] == cur.spec_pairs()[x]);
            let ea = cur.cp_of(cur.spec_pairs()[x]);
            assert((cur.spec_pairs()[x]).0 < n * d);
            lemma_cell_range(n, d, cur.spec_pairs()[x].0 as int);
            lemma_cell_range(n, d, cur.spec_pairs()[x].1 as int);
            lemma_cpi_range(
                n,
                cell_of(d, cur.spec_pairs()[x].0 as int),
                cell_of(d, cur.spec_pairs()[x].1 as int),
            );
            assert(cur.bucket(e15).len() == 1);
            assert(cur.bucket(e48).len() == 1);
            assert(cur.bucket(e12).len() == 0);
            assert(cur.bucket(e34).len() == 0);
            assert(cur.bucket(e56).len() == 0);
            assert(cur.bucket(e78).len() == 0);
            assert(ea != e26 && ea != e15 && ea != e48 && ea != e12 && ea != e34 && ea != e56 && ea
                != e78);
            assert(self.bucket(ea) == cur.bucket(ea));
        }
        // The remaining list entries are intact.
        assert forall|kk: int| 0 <= kk < rem.len() implies self.dentry_ok(#[trigger] rem[kk]) by {
            let x = rem[kk].0;
            let y = rem[kk].1;
            assert(old_rem[kk + 1] == rem[kk]);
            assert(cur.dentry_ok(rem[kk]));
            assert(cur.cp_of(cur.spec_pairs()[x as int]) != cur.cp_of(
                cur.spec_pairs()[old_rem[0].0 as int],
            ));
            assert(cur.cp_of(cur.spec_pairs()[a as int]) == e26);
            assert(x != a);
            assert(x != b) by {
                if x == b {
                    assert(cur.cp_of(cur.spec_pairs()[b as int]) == e26);
                }
            }
            assert(x != idx1) by {
                if x == idx1 {
                    assert(cur.bucket(e15).len() == 1);
                }
            }
            assert(x != idx2) by {
                if x == idx2 {
                    assert(cur.bucket(e48).len() == 1);
                }
            }
            assert(y != a && y != b) by {
                if y == a || y == b {
                    assert(cur.cp_of(cur.spec_pairs()[y as int]) == e26);
                }
            }
            assert(y != idx1 && y != idx2) by {
                assert(cur.bucket(e15).len() == 1);
                assert(cur.bucket(e48).len() == 1);
            }
            assert(self.spec_pairs()[x as int] == cur.spec_pairs()[x as int]);
            assert(self.spec_pairs()[y as int] == cur.spec_pairs()[y as int]);
            assert(self.bucket(self.cp_of(self.spec_pairs()[x as int])) == cur.bucket(
                cur.cp_of(cur.spec_pairs()[x as int]),
            ));
        }
        // Entries still cover pairwise different cell pairs.
        assert forall|k1: int, k2: int|
            0 <= k1 < k2 < rem.len() implies self.cp_of(self.spec_pairs()[rem[k1].0 as int])
            != self.cp_of(self.spec_pairs()[rem[k2].0 as int]) by {
            assert(old_rem[k1 + 1] == rem[k1] && old_rem[k2 + 1] == rem[k2]);
            assert(self.dentry_ok(rem[k1]));
            assert(self.dentry_ok(rem[k2]));
            assert(self.cp_of(self.spec_pairs()[rem[k1].0 as int]) == cur.cp_of(
                cur.spec_pairs()[rem[k1].0 as int],
            ));
            assert(self.cp_of(self.spec_pairs()[rem[k2].0 as int]) == cur.cp_of(
                cur.spec_pairs()[rem[k2].0 as int],
            ));
        }
        // Every doubly-connected cell pair that remains is still listed.
        assert forall|i: int, j: int|
            #![trigger self.spec_pairs()[i], self.spec_pairs()[j]]
            0 <= i < j < m && !self.is_loop_at(i) && self.cp_of(self.spec_pairs()[i])
                == self.cp_of(self.spec_pairs()[j]) implies (rem.contains((i as usize, j as usize))
                || rem.contains((j as usize, i as usize))) by {
            let ti = (i == a || i == b || i == idx1 || i == idx2);
            let tj = (j == a || j == b || j == idx1 || j == idx2);
            if ti && tj {
                assert(self.cp_of(self.spec_pairs()[a as int]) == e12);
                assert(self.cp_of(self.spec_pairs()[b as int]) == e34);
                assert(self.cp_of(self.spec_pairs()[idx1 as int]) == e56);
                assert(self.cp_of(self.spec_pairs()[idx2 as int]) == e78);
                assert(false);
            } else if ti || tj {
                let u = if ti {
                    j
                } else {
                    i
                };
                let eu = self.cp_of(self.spec_pairs()[u]);
                assert(self.cp_of(self.spec_pairs()[a as int]) == e12);
                assert(self.cp_of(self.spec_pairs()[b as int]) == e34);
                assert(self.cp_of(self.spec_pairs()[idx1 as int]) == e56);
                assert(self.cp_of(self.spec_pairs()[idx2 as int]) == e78);
                assert(eu == e12 || eu == e34 || eu == e56 || eu == e78);
                assert(self.bucket(self.cp_of(self.spec_pairs()[u])).contains((u as int) as usize));
                assert(u == a || u == b || u == idx1 || u == idx2);
                assert(false);
            } else {
                assert(self.spec_pairs()[i] == cur.spec_pairs()[i]);
                assert(self.spec_pairs()[j] == cur.spec_pairs()[j]);
                assert(!cur.is_loop_at(i));
                assert(cur.cp_of(cur.spec_pairs()[i]) == cur.cp_of(cur.spec_pairs()[j]));
                assert(old_rem.contains((i as usize, j as usize)) || old_rem.contains(
                    (j as usize, i as usize),
                ));
                let en = if old_rem.contains((i as usize, j as usize)) {
                    (i as usize, j as usize)
                } else {
                    (j as usize, i as usize)
                };
                let kk = choose|kk: int| 0 <= kk < old_rem.len() && old_rem[kk] == en;
                assert(kk != 0) by {
                    assert(old_rem[0] == (a, b));
                }
                assert(rem[kk - 1] == old_rem[kk]);
                assert(rem.contains(en));
            }
        }
    }

    /// Remove every listed loop by one switch each, drawing the donor pairs
    /// uniformly from the valid candidates; `None` means some loop had no
    /// candidates and generation must restart.  Multi-edge structure is
    /// untouched: any valid multi-edge list stays valid.
    pub fn no_loops(&mut self, loop_idxs: Vec<usize>, rng: &mut rand::rngs::StdRng) -> (r: Option<
        (),
    >)
        requires
            old(self).wf(),
            old(self).loops_listed(loop_idxs@),
        ensures
            final(self).wf(),
            final(self).spec_d() == old(self).spec_d(),
            final(self).spec_m() == old(self).spec_m(),
            final(self).spec_n() == old(self).spec_n(),
            forall|h: int|
                #[trigger] pcnt(final(self).spec_pairs(), h) == pcnt(old(self).spec_pairs(), h),
            r is Some ==> forall|i: int|
                0 <= i < final(self).spec_m() ==> !(#[trigger] final(self).is_loop_at(i)),
            r is Some ==> forall|rem: Seq<(usize, usize)>|
                old(self).doubles_listed(rem) ==> #[trigger] final(self).doubles_listed(rem),
    {
        let len = loop_idxs.len();
        let mut k: usize = 0;
        proof {
            assert(loop_idxs@.skip(0) =~= loop_idxs@);
        }
        while k < len
            invariant
                k <= len,
                len == loop_idxs@.len(),
                self.wf(),
                self.spec_d() == old(self).spec_d(),
                self.spec_m() == old(self).spec_m(),
                self.spec_n() == old(self).spec_n(),
                self.loops_listed(loop_idxs@.skip(k as int)),
                forall|h: int|
                    #[trigger] pcnt(self.spec_pairs(), h) == pcnt(old(self).spec_pairs(), h),
                forall|rem: Seq<(usize, usize)>|
                    old(self).doubles_listed(rem) ==> #[trigger] self.doubles_listed(rem),
            decreases len - k,
        {
            let loop_idx = loop_idxs[k];
            proof {
                let rem = loop_idxs@.skip(k as int);
                assert(rem[0] == loop_idxs@[k as int]);
            }
            let cands = self.l_forward_possibilities(loop_idx);
            let picked = pick_pair(rng, &cands);
            let (idx1, idx2) = match picked {
                None => {
                    return None;
                },
                Some(c) => c,
            };
            proof {
                let i = choose|i: int| 0 <= i < cands@.len() && cands@[i] == (idx1, idx2);
                assert(cands@[i].0 < self.spec_m());
            }
            let ghost cur = *self;
            self.l_switch(loop_idx, idx1, idx2);
            proof {
                self.lemma_l_switch_phase(cur, loop_idx, idx1, idx2, loop_idxs@, k as int);
            }
            k += 1;
        }
        proof {
            assert(loop_idxs@.skip(len as int) =~= Seq::<usize>::empty());
            assert forall|i: int| 0 <= i < self.spec_m() implies !(#[trigger] self.is_loop_at(
                i,
            )) by {
                if self.is_loop_at(i) {
                    assert(loop_idxs@.skip(len as int).contains(i as usize));
                }
            }
        }
        Some(())
    }

    /// One loop switch keeps the phase invariants: the remaining loop list
    /// stays valid, and any valid multi-edge list stays valid.
    proof fn lemma_l_switch_phase(
        &self,
        cur: Pairing,
        l_idx: usize,
        idx1: usize,
        idx2: usize,
        all: Seq<usize>,
        k: int,
    )
        requires
            cur.wf(),
            self.wf(),
            0 <= k < all.len(),
            cur.loops_listed(all.skip(k)),
            all[k] == l_idx,
            l_idx < cur.spec_m(),
            idx1 < cur.spec_m(),
            idx2 < cur.spec_m(),
            cur.is_loop_at(l_idx as int),
            cur.l_ok(l_idx as int, idx1 as int, idx2 as int),
            self.spec_d() == cur.spec_d(),
            self.spec_m() == cur.spec_m(),
            self.spec_n() == cur.spec_n(),
            ({
                let n = cur.spec_n();
                let d = cur.spec_d();
                let p2 = cur.spec_pairs()[l_idx as int].0;
                let p3 = cur.spec_pairs()[l_idx as int].1;
                let p1 = cur.spec_pairs()[idx1 as int].0;
                let p6 = cur.spec_pairs()[idx1 as int].1;
                let p4 = cur.spec_pairs()[idx2 as int].0;
                let p5 = cur.spec_pairs()[idx2 as int].1;
                let el = cp_in(n, d, (p2, p3));
                let e16 = cp_in(n, d, (p1, p6));
                let e45 = cp_in(n, d, (p4, p5));
                let e12 = cp_in(n, d, (p1, p2));
                let e34 = cp_in(n, d, (p3, p4));
                let e56 = cp_in(n, d, (p5, p6));
                &&& self.spec_pairs() == cur.spec_pairs().update(l_idx as int, (p1, p2)).update(
                    idx1 as int,
                    (p3, p4),
                ).update(idx2 as int, (p5, p6))
                &&& self.bucket(el).len() == 0
                &&& self.bucket(e16).len() == 0
                &&& self.bucket(e45).len() == 0
                &&& self.bucket(e12) == cur.bucket(e12).push(l_idx)
                &&& self.bucket(e34) == cur.bucket(e34).push(idx1)
                &&& self.bucket(e56) == cur.bucket(e56).push(idx2)
                &&& forall|e: int|
                    0 <= e < n * n && e != el && e != e16 && e != e45 && e != e12 && e != e34 && e
                        != e56 ==> (#[trigger] self.bucket(e)) == cur.bucket(e)
            }),
        ensures
            self.loops_listed(all.skip(k + 1)),
            forall|rem: Seq<(usize, usize)>|
                cur.doubles_listed(rem) ==> #[trigger] self.doubles_listed(rem),
    {
        let n = cur.spec_n();
        let d = cur.spec_d();
        let m = cur.spec_m();
        let p2 = cur.spec_pairs()[l_idx as int].0;
        let p3 = cur.spec_pairs()[l_idx as int].1;
        let p1 = cur.spec_pairs()[idx1 as int].0;
        let p6 = cur.spec_pairs()[idx1 as int].1;
        let p4 = cur.spec_pairs()[idx2 as int].0;
        let p5 = cur.spec_pairs()[idx2 as int].1;
        let el = cp_in(n, d, (p2, p3));
        let e16 = cp_in(n, d, (p1, p6));
        let e45 = cp_in(n, d, (p4, p5));
        let e12 = cp_in(n, d, (p1, p2));
        let e34 = cp_in(n, d, (p3, p4));
        let e56 = cp_in(n, d, (p5, p6));
        let c1 = cell_of(d, p1 as int);
        let c = cell_of(d, p2 as int);
        let c4 = cell_of(d, p4 as int);
        let c5 = cell_of(d, p5 as int);
        let c6 = cell_of(d, p6 as int);
        cur.lemma_l_switch_setup(l_idx, idx1, idx2);
        assert((cur.spec_pairs()[l_idx as int]).0 < n * d);
        assert((cur.spec_pairs()[idx1 as int]).0 < n * d);
        assert((cur.spec_pairs()[idx2 as int]).0 < n * d);
        lemma_cell_range(n, d, p1 as int);
        lemma_cell_range(n, d, p2 as int);
        lemma_cell_range(n, d, p3 as int);
        lemma_cell_range(n, d, p4 as int);
        lemma_cell_range(n, d, p5 as int);
        lemma_cell_range(n, d, p6 as int);
        let old_rem = all.skip(k);
        let rem = all.skip(k + 1);
        assert(old_rem[0] == l_idx);
        assert(forall|j: int| 0 <= j < rem.len() ==> rem[j] == old_rem[j + 1]);
        // The touched pairs are not loops afterwards; untouched pairs are
        // unchanged.
        assert(!self.is_loop_at(l_idx as int));
        assert(!self.is_loop_at(idx1 as int));
        assert(!self.is_loop_at(idx2 as int));
        assert(!cur.is_loop_at(idx1 as int));
        assert(!cur.is_loop_at(idx2 as int));
        assert(forall|i: int|
            0 <= i < m && i != l_idx && i != idx1 && i != idx2 ==> (#[trigger] self.spec_pairs()[i])
                == cur.spec_pairs()[i]);
        // The remaining loop list is intact.
        assert forall|j: int| 0 <= j < rem.len() implies (#[trigger] rem[j]) < m && self.is_loop_at(
            rem[j] as int,
        ) && self.bucket(self.cp_of(self.spec_pairs()[rem[j] as int])).len() == 1 by {
            let r = rem[j];
            assert(old_rem[j + 1] == r);
            assert(r < m && cur.is_loop_at(r as int));
            assert(r != l_idx) by {
                assert(nodup_u(old_rem));
            }
            assert(r != idx1 && r != idx2);
            assert(self.spec_pairs()[r as int] == cur.spec_pairs()[r as int]);
            let cr = cell_of(d, cur.spec_pairs()[r as int].0 as int);
            assert((cur.spec_pairs()[r as int]).0 < n * d);
            lemma_cell_range(n, d, cur.spec_pairs()[r as int].0 as int);
            let er = cur.cp_of(cur.spec_pairs()[r as int]);
            assert(er == cpi(n, cr, cr));
            lemma_cpi_range(n, cr, cr);
            assert(er != el) by {
                if er == el {
                    assert(cur.bucket(cur.cp_of(cur.spec_pairs()[r as int])).contains(
                        (r as int) as usize,
                    ));
                    assert(cur.bucket(cur.cp_of(cur.spec_pairs()[l_idx as int])).contains(
                        (l_idx as int) as usize,
                    ));
                    assert(cur.bucket(el).len() == 1);
                    let ka = choose|ka: int|
                        0 <= ka < cur.bucket(el).len() && cur.bucket(el)[ka] == r;
                    let kb = choose|kb: int|
                        0 <= kb < cur.bucket(el).len() && cur.bucket(el)[kb] == l_idx;
                    assert(ka == 0 && kb == 0);
                }
            }
            lemma_cpi_distinct(n, cr, cr, c1, c6);
            lemma_cpi_distinct(n, cr, cr, c4, c5);
            lemma_cpi_distinct(n, cr, cr, c1, c);
            lemma_cpi_distinct(n, cr, cr, c, c4);
            lemma_cpi_distinct(n, cr, cr, c5, c6);
            assert(self.bucket(er) == cur.bucket(er));
            assert(self.cp_of(self.spec_pairs()[r as int]) == er);
        }
        assert forall|i: int|
            0 <= i < m && #[trigger] self.is_loop_at(i) implies rem.contains(i as usize) by {
            assert(i != l_idx && i != idx1 && i != idx2);
            assert(self.spec_pairs()[i] == cur.spec_pairs()[i]);
            assert(cur.is_loop_at(i));
            assert(old_rem.contains(i as usize));
            let j = choose|j: int| 0 <= j < old_rem.len() && old_rem[j] == i as usize;
            assert(j != 0) by {
                assert(old_rem[0] == l_idx);
            }
            assert(rem[j - 1] == i as usize);
        }
        assert(nodup_u(rem)) by {
            assert(nodup_u(old_rem));
            assert forall|k1: int, k2: int| 0 <= k1 < k2 < rem.len() implies rem[k1] != rem[k2] by {
                assert(rem[k1] == old_rem[k1 + 1] && rem[k2] == old_rem[k2 + 1]);
            }
        }
        assert(self.loops_listed(rem));
        // Any valid multi-edge list stays valid: the switch only touches
        // cell pairs holding zero or one pair, never a doubly-connected one.
        assert(self.bucket(e12) =~= seq![l_idx]) by {
            assert(cur.bucket(e12) =~= Seq::<usize>::empty());
        }
        assert(self.bucket(e34) =~= seq![idx1]) by {
            assert(cur.bucket(e34) =~= Seq::<usize>::empty());
        }
        assert(self.bucket(e56) =~= seq![idx2]) by {
            assert(cur.bucket(e56) =~= Seq::<usize>::empty());
        }
        assert forall|a: int|
            0 <= a < m && a != l_idx && a != idx1 && a != idx2 && !cur.is_loop_at(a)
                && cur.bucket(cur.cp_of(cur.spec_pairs()[a])).len() == 2 implies self.cp_of(
            #[trigger] self.spec_pairs()[a],
        ) == cur.cp_of(cur.spec_pairs()[a]) && self.bucket(cur.cp_of(cur.spec_pairs()[a]))
            == cur.bucket(cur.cp_of(cur.spec_pairs()[a])) by {
            assert(self.spec_pairs()[a] == cur.spec_pairs()[a]);
            let ea = cur.cp_of(cur.spec_pairs()[a]);
            assert((cur.spec_pairs()[a]).0 < n * d);
            lemma_cell_range(n, d, cur.spec_pairs()[a].0 as int);
            lemma_cell_range(n, d, cur.spec_pairs()[a].1 as int);
            lemma_cpi_range(
                n,
                cell_of(d, cur.spec_pairs()[a].0 as int),
                cell_of(d, cur.spec_pairs()[a].1 as int),
            );
            assert(cur.bucket(el).len() == 1);
            assert(cur.bucket(e16).len() == 1);
            assert(cur.bucket(e45).len() == 1);
            assert(cur.bucket(e12).len() == 0);
            assert(cur.bucket(e34).len() == 0);
            assert(cur.bucket(e56).len() == 0);
            assert(ea != el && ea != e16 && ea != e45 && ea != e12 && ea != e34 && ea != e56);
            assert(self.bucket(ea) == cur.bucket(ea));
        }
        assert forall|drem: Seq<(usize, usize)>|
            cur.doubles_listed(drem) implies #[trigger] self.doubles_listed(drem) by {
            assert forall|kk: int| 0 <= kk < drem.len() implies self.dentry_ok(
                #[trigger] drem[kk],
            ) by {
                let a = drem[kk].0;
                let b = drem[kk].1;
                assert(cur.dentry_ok(drem[kk]));
                assert(a != l_idx && b != l_idx);
                assert(a != idx1) by {
                    if a == idx1 {
                        assert(cur.bucket(e16).len() == 1);
                    }
                }
                assert(a != idx2 && b != idx1 && b != idx2) by {
                    assert(cur.bucket(e16).len() == 1);
                    assert(cur.bucket(e45).len() == 1);
                }
                assert(self.spec_pairs()[a as int] == cur.spec_pairs()[a as int]);
                assert(self.spec_pairs()[b as int] == cur.spec_pairs()[b as int]);
                assert(self.bucket(self.cp_of(self.spec_pairs()[a as int])) == cur.bucket(
                    cur.cp_of(cur.spec_pairs()[a as int]),
                ));
            }
            assert forall|k1: int, k2: int|
                0 <= k1 < k2 < drem.len() implies self.cp_of(self.spec_pairs()[drem[k1].0 as int])
                != self.cp_of(self.spec_pairs()[drem[k2].0 as int]) by {
                assert(cur.dentry_ok(drem[k1]));
                assert(cur.dentry_ok(drem[k2]));
                assert(self.cp_of(self.spec_pairs()[drem[k1].0 as int]) == cur.cp_of(
                    cur.spec_pairs()[drem[k1].0 as int],
                ));
                assert(self.cp_of(self.spec_pairs()[drem[k2].0 as int]) == cur.cp_of(
                    cur.spec_pairs()[drem[k2].0 as int],
                ));
            }
            assert forall|i: int, j: int|
                #![trigger self.spec_pairs()[i], self.spec_pairs()[j]]
                0 <= i < j < m && !self.is_loop_at(i) && self.cp_of(self.spec_pairs()[i])
                    == self.cp_of(self.spec_pairs()[j]) implies exists|kk: int|
                0 <= kk < drem.len() && (((#[trigger] drem[kk]).0 == i && drem[kk].1 == j) || (
                drem[kk].0 == j && drem[kk].1 == i)) by {
                let ti = (i == l_idx || i == idx1 || i == idx2);
                let tj = (j == l_idx || j == idx1 || j == idx2);
                if ti && tj {
                    assert(self.cp_of(self.spec_pairs()[l_idx as int]) == e12);
                    assert(self.cp_of(self.spec_pairs()[idx1 as int]) == e34);
                    assert(self.cp_of(self.spec_pairs()[idx2 as int]) == e56);
                    assert(false);
                } else if ti || tj {
                    let t = if ti {
                        i
                    } else {
                        j
                    };
                    let u = if ti {
                        j
                    } else {
                        i
                    };
                    let eu = self.cp_of(self.spec_pairs()[u]);
                    assert(eu == e12 || eu == e34 || eu == e56);
                    assert(self.bucket(self.cp_of(self.spec_pairs()[u])).contains(
                        (u as int) as usize,
                    ));
                    assert(u == l_idx || u == idx1 || u == idx2);
                    assert(false);
                } else {
                    assert(self.spec_pairs()[i] == cur.spec_pairs()[i]);
                    assert(self.spec_pairs()[j] == cur.spec_pairs()[j]);
                    assert(self.cp_of(cur.spec_pairs()[i]) == cur.cp_of(cur.spec_pairs()[i]));
                    assert(self.cp_of(cur.spec_pairs()[j]) == cur.cp_of(cur.spec_pairs()[j]));
                    assert(!cur.is_loop_at(i));
                    assert(cur.cp_of(cur.spec_pairs()[i]) == cur.cp_of(cur.spec_pairs()[j]));
                }
            }
        }
    }
}

/// Build the bucket table for a given pair list by a single scan, yielding
/// a consistent `Pairing` over those pairs.
pub fn rand_pairing_edges(d: usize, pairs: Vec<(usize, usize)>) -> (p: Pairing)
    requires
        d >= 1,
        (2 * pairs@.len() as int) % (d as int) == 0,
        2 * pairs@.len() <= usize::MAX,
        2 * pairs@.len() as int / d as int * (2 * pairs@.len() as int / d as int) <= usize::MAX,
        forall|i: int|
            0 <= i < pairs@.len() ==> (#[trigger] pairs@[i]).0 < 2 * pairs@.len()
                && pairs@[i].1 < 2 * pairs@.len(),
    ensures
        p.wf(),
        p.spec_d() == d as int,
        p.spec_pairs() == pairs@,
        p.spec_m() == pairs@.len(),
        p.spec_n() == 2 * pairs@.len() as int / d as int,
{
    let m = pairs.len();
    let n = m * 2 / d;
    proof {
        assert(n as int == 2 * pairs@.len() as int / d as int);
        assert(n as int * d as int == 2 * m as int) by {
            vstd::arithmetic::div_mod::lemma_fundamental_div_mod(2 * m as int, d as int);
            assert(2 * m as int / (d as int) * (d as int) == d as int * (2 * m as int / (
            d as int))) by (nonlinear_arith);
        }
    }
    let nn = n * n;
    let mut edges: Vec<Vec<usize>> = Vec::new();
    let mut i: usize = 0;
    while i < nn
        invariant
            i <= nn,
            edges@.len() == i,
            forall|e: int| 0 <= e < i ==> (#[trigger] edges@[e])@.len() == 0,
        decreases nn - i,
    {
        edges.push(Vec::new());
        i += 1;
    }
    let mut idx: usize = 0;
    while idx < m
        invariant
            idx <= m,
            m == pairs@.len(),
            d >= 1,
            n as int * d as int == 2 * m as int,
            nn == n as int * n as int,
            edges@.len() == nn,
            forall|j: int|
                0 <= j < m ==> (#[trigger] pairs@[j]).0 < n as int * d as int && pairs@[j].1
                    < n as int * d as int,
            forall|e: int, k: int|
                0 <= e < nn && 0 <= k < edges@[e]@.len() ==> (#[trigger] edges@[e]@[k]) < idx
                    && cp_in(n as int, d as int, pairs@[edges@[e]@[k] as int]) == e,
            forall|e: int| 0 <= e < nn ==> nodup_u((#[trigger] edges@[e])@),
            forall|j: int|
                0 <= j < idx ==> #[trigger] edges@[cp_in(n as int, d as int, pairs@[j])]@.contains(
                    j as usize,
                ),
        decreases m - idx,
    {
        let (a, b) = pairs[idx];
        let c1 = a / d;
        let c2 = b / d;
        proof {
            lemma_cell_range(n as int, d as int, a as int);
            lemma_cell_range(n as int, d as int, b as int);
            lemma_cpi_range(n as int, c1 as int, c2 as int);
            lemma_mul_inequality(if c1 > c2 { c1 as int } else { c2 as int }, n as int - 1, n as int);
            assert((n as int - 1) * n as int + (n as int - 1) < n as int * n as int)
                by (nonlinear_arith)
                requires
                    n as int >= 1,
            ;
        }
        let e = if c1 > c2 {
            c1 * n + c2
        } else {
            c2 * n + c1
        };
        let ghost tbl = edges@;
        let ghost before = edges@[e as int]@;
        edges[e].push(idx);
        proof {
            lemma_push_contains(before, idx);
            assert(edges@[e as int]@ == before.push(idx));
            assert(cp_in(n as int, d as int, pairs@[idx as int]) == e);
            assert forall|e2: int, k: int|
                0 <= e2 < nn && 0 <= k < edges@[e2]@.len() implies (#[trigger] edges@[e2]@[k])
                < idx + 1 && cp_in(n as int, d as int, pairs@[edges@[e2]@[k] as int]) == e2 by {
                if e2 == e {
                    if k < before.len() {
                        assert(edges@[e2]@[k] == before[k]);
                    } else {
                        assert(edges@[e2]@[k] == idx);
                    }
                }
            }
            assert forall|e2: int| 0 <= e2 < nn implies nodup_u((#[trigger] edges@[e2])@) by {
                if e2 == e {
                    assert forall|k1: int, k2: int|
                        0 <= k1 < k2 < edges@[e2]@.len() implies edges@[e2]@[k1]
                        != edges@[e2]@[k2] by {
                        if k2 == before.len() {
                            assert(edges@[e2]@[k1] == before[k1]);
                            assert(before[k1] < idx);
                            assert(edges@[e2]@[k2] == idx);
                        } else {
                            assert(edges@[e2]@[k1] == before[k1] && edges@[e2]@[k2] == before[k2]);
                        }
                    }
                }
            }
            assert forall|j: int|
                0 <= j < idx + 1 implies #[trigger] edges@[cp_in(
                n as int,
                d as int,
                pairs@[j],
            )]@.contains(j as usize) by {
                let ecp = cp_in(n as int, d as int, pairs@[j]);
                if j == idx {
                    assert(edges@[e as int]@[before.len() as int] == idx);
                } else {
                    lemma_cell_range(n as int, d as int, pairs@[j].0 as int);
                    lemma_cell_range(n as int, d as int, pairs@[j].1 as int);
                    lemma_cpi_range(
                        n as int,
                        cell_of(d as int, pairs@[j].0 as int),
                        cell_of(d as int, pairs@[j].1 as int),
                    );
                    assert(0 <= ecp < nn);
                    assert(tbl[ecp]@.contains(j as usize));
                    if ecp == e as int {
                        assert(edges@[e as int]@.contains(j as usize));
                    } else {
                        assert(edges@[ecp] == tbl[ecp]);
                    }
                }
            }
        }
        idx += 1;
    }
    let p = Pairing { d, pairs, edges };
    proof {
        assert(p.wf());
    }
    p
}

/// Draw a uniformly random perfect matching over the `n * d` half-edges:
/// shuffle them and consume the permutation two at a time.
pub fn rand_pairing(n: usize, d: usize, rng: &mut rand::rngs::StdRng) -> (p: Pairing)
    requires
        d >= 1,
        (n * d) % 2 == 0,
        n * d <= usize::MAX,
        n * n <= usize::MAX,
    ensures
        p.wf(),
        p.spec_d() == d as int,
        p.spec_n() == n as int,
        2 * p.spec_m() == n as int * d as int,
        p.matching_ok(),
{
    let nd = n * d;
    let mut perm: Vec<usize> = Vec::new();
    let mut h: usize = 0;
    while h < nd
        invariant
            h <= nd,
            perm@.len() == h,
            forall|x: int|
                #[trigger] scnt(perm@, x) == if 0 <= x < h {
                    1int
                } else {
                    0int
                },
        decreases nd - h,
    {
        let ghost pre = perm@;
        perm.push(h);
        proof {
            lemma_scnt_push(pre, h);
        }
        h += 1;
    }
    let ghost ident = perm@;
    shuffle(rng, &mut perm);
    proof {
        assert forall|x: int| #[trigger] scnt(perm@, x) == if 0 <= x < nd {
            1int
        } else {
            0int
        } by {
            broadcast use vstd::seq_lib::group_to_multiset_ensures;

            if 0 <= x < nd {
                lemma_scnt_multiset(perm@, x as usize);
                lemma_scnt_multiset(ident, x as usize);
            } else {
                if exists|j: int| 0 <= j < perm@.len() && (#[trigger] perm@[j]) as int == x {
                    let j = choose|j: int| 0 <= j < perm@.len() && (#[trigger] perm@[j]) as int == x;
                    let y = perm@[j];
                    lemma_scnt_multiset(perm@, y);
                    lemma_scnt_multiset(ident, y);
                    assert(perm@.contains(y));
                    assert(perm@.to_multiset().count(y) > 0);
                    assert(scnt(ident, y as int) == 0);
                    assert(false);
                } else {
                    lemma_scnt_zero_when_absent(perm@, x);
                }
            }
        }
        assert forall|j: int| 0 <= j < perm@.len() implies (#[trigger] perm@[j]) < nd by {
            let y = perm@[j];
            if y >= nd {
                assert(scnt(perm@, y as int) == 0);
                lemma_scnt_at_index(perm@, j);
            }
        }
    }
    let mm = nd / 2;
    let mut prs: Vec<(usize, usize)> = Vec::new();
    let mut i: usize = 0;
    proof {
        assert(2 * mm == nd);
    }
    while i < mm
        invariant
            i <= mm,
            prs@.len() == i,
            2 * mm == nd,
            nd == n * d,
            d >= 1,
            n * n <= usize::MAX,
            perm@.len() == nd,
            forall|j: int| 0 <= j < perm@.len() ==> (#[trigger] perm@[j]) < nd,
            forall|x: int|
                #[trigger] scnt(perm@, x) == if 0 <= x < nd {
                    1int
                } else {
                    0int
                },
            forall|hh: int| #[trigger] pcnt(prs@, hh) == scnt(perm@.subrange(0, 2 * i), hh),
            forall|k: int|
                0 <= k < i ==> (#[trigger] prs@[k]).0 < nd && prs@[k].1 < nd,
        decreases mm - i,
    {
        let a = perm[2 * i];
        let b = perm[2 * i + 1];
        let ghost pre = prs@;
        prs.push((a, b));
        proof {
            lemma_pcnt_push(pre, (a, b));
            let s0 = perm@.subrange(0, 2 * i as int);
            let s1 = perm@.subrange(0, 2 * i as int + 1);
            let s2 = perm@.subrange(0, 2 * (i as int + 1));
            assert(s2.drop_last() =~= s1);
            assert(s1.drop_last() =~= s0);
            assert(s2.last() == b);
            assert(s1.last() == a);
            assert forall|hh: int| #[trigger] pcnt(prs@, hh) == scnt(
                perm@.subrange(0, 2 * (i as int + 1)),
                hh,
            ) by {
                assert(pcnt(prs@, hh) == pcnt(pre, hh) + hcontrib((a, b), hh));
                assert(scnt(s2, hh) == scnt(s1, hh) + (if b as int == hh {
                    1int
                } else {
                    0int
                }));
                assert(scnt(s1, hh) == scnt(s0, hh) + (if a as int == hh {
                    1int
                } else {
                    0int
                }));
            }
        }
        i += 1;
    }
    proof {
        assert(perm@.subrange(0, nd as int) =~= perm@);
        assert(is_matching(prs@, nd as int));
        assert((2 * prs@.len() as int) % (d as int) == 0) by {
            assert(2 * prs@.len() as int == n as int * d as int);
            vstd::arithmetic::div_mod::lemma_mod_multiples_basic(n as int, d as int);
            assert(n as int * d as int == d as int * n as int) by (nonlinear_arith);
        }
        assert(2 * prs@.len() as int / d as int == n as int) by {
            vstd::arithmetic::div_mod::lemma_div_multiples_vanish(n as int, d as int);
            assert(n as int * d as int == d as int * n as int) by (nonlinear_arith);
        }
    }
    let p = rand_pairing_edges(d, prs);
    proof {
        assert(p.matching_ok());
    }
    p
}

/// One attempt at a simple random d-regular pairing: draw a uniform
/// matching, reject outright if some cell pair is triply connected, some
/// loop is doubled, or the defect counts exceed the feasibility thresholds
/// `m2 / m` (loops) and `(m2 / m)^2` (multi-edges) for `m = n * d / 2` and
/// `m2 = n * d * (d - 1)`; otherwise repair by switching.  `None` asks the
/// caller to retry.
fn try_deg(n: usize, d: usize, rng: &mut rand::rngs::StdRng) -> (r: Option<Pairing>)
    requires
        n >= 1,
        d >= 1,
        (n * d) % 2 == 0,
        n * d <= usize::MAX,
        n * n <= usize::MAX,
        n * d * (d - 1) <= usize::MAX,
        4 * (d - 1) * (d - 1) <= usize::MAX,
    ensures
        match r {
            Some(p) => {
                &&& p.wf()
                &&& p.spec_n() == n as int
                &&& p.spec_d() == d as int
                &&& 2 * p.spec_m() == n as int * d as int
                &&& p.is_simple()
                &&& p.matching_ok()
            },
            None => true,
        },
{
    let mut pairing = rand_pairing(n, d, rng);
    let nn = n * n;
    let ghost gm = pairing.spec_m();
    let mut loops: Vec<usize> = Vec::new();
    let mut doubles: Vec<(usize, usize)> = Vec::new();
    let mut e: usize = 0;
    while e < nn
        invariant
            e <= nn,
            nn == n * n,
            n >= 1,
            d >= 1,
            pairing.wf(),
            pairing.spec_n() == n as int,
            pairing.spec_d() == d as int,
            pairing.spec_m() == gm,
            pairing.matching_ok(),
            2 * pairing.spec_m() == n as int * d as int,
            forall|k: int|
                0 <= k < loops@.len() ==> (#[trigger] loops@[k]) < gm && pairing.is_loop_at(
                    loops@[k] as int,
                ) && pairing.bucket(
                    pairing.cp_of(pairing.spec_pairs()[loops@[k] as int]),
                ).len() == 1 && pairing.cp_of(pairing.spec_pairs()[loops@[k] as int]) < e,
            forall|k1: int, k2: int|
                0 <= k1 < k2 < loops@.len() ==> pairing.cp_of(
                    pairing.spec_pairs()[loops@[k1] as int],
                ) != pairing.cp_of(pairing.spec_pairs()[loops@[k2] as int]),
            forall|i: int|
                0 <= i < gm && #[trigger] pairing.is_loop_at(i) && pairing.cp_of(
                    pairing.spec_pairs()[i],
                ) < e ==> loops@.contains(i as usize),
            forall|k: int|
                0 <= k < doubles@.len() ==> pairing.dentry_ok(#[trigger] doubles@[k])
                    && pairing.cp_of(pairing.spec_pairs()[doubles@[k].0 as int]) < e,
            forall|k1: int, k2: int|
                0 <= k1 < k2 < doubles@.len() ==> pairing.cp_of(
                    pairing.spec_pairs()[doubles@[k1].0 as int],
                ) != pairing.cp_of(pairing.spec_pairs()[doubles@[k2].0 as int]),
            forall|i: int, j: int|
                #![trigger pairing.spec_pairs()[i], pairing.spec_pairs()[j]]
                0 <= i < j < gm && !pairing.is_loop_at(i) && pairing.cp_of(
                    pairing.spec_pairs()[i],
                ) == pairing.cp_of(pairing.spec_pairs()[j]) && pairing.cp_of(
                    pairing.spec_pairs()[i],
                ) < e ==> (doubles@.contains((i as usize, j as usize)) || doubles@.contains(
                    (j as usize, i as usize),
                )),
        decreases nn - e,
    {
        let c1 = e / n;
        let c2 = e % n;
        proof {
            vstd::arithmetic::div_mod::lemma_fundamental_div_mod(e as int, n as int);
            lemma_multiply_divide_lt(e as int, n as int, n as int);
            assert(e as int == n as int * c1 as int + c2 as int);
            assert(c2 < n);
            assert(n as int * c1 as int == c1 as int * n as int) by (nonlinear_arith);
            assert forall|i: int|
                0 <= i < gm && pairing.cp_of(#[trigger] pairing.spec_pairs()[i])
                    == e as int implies pairing.links(i, c1 as int, c2 as int) by {
                pairing.lemma_scan_member(e as int, c1 as int, c2 as int, i);
            }
        }
        let blen = pairing.bucket_len(e);
        if c1 == c2 {
            if blen == 1 {
                let i = pairing.bucket_member(e, 0);
                let ghost pre_loops = loops@;
                loops.push(i);
                proof {
                    lemma_push_contains(pre_loops, i);
                    assert(pairing.links(i as int, c1 as int, c2 as int));
                    assert(pairing.is_loop_at(i as int));
                    assert(loops@[pre_loops.len() as int] == i);
                }
            } else if blen >= 2 {
                return None;
            }
        } else {
            if blen == 2 {
                let x = pairing.bucket_member(e, 0);
                let y = pairing.bucket_member(e, 1);
                let ghost pre_doubles = doubles@;
                doubles.push((x, y));
                proof {
                    lemma_push_contains(pre_doubles, (x, y));
                    assert(pairing.links(x as int, c1 as int, c2 as int));
                    assert(pairing.links(y as int, c1 as int, c2 as int));
                    assert(x != y) by {
                        assert(pairing.bucket_wf(e as int));
                    }
                    assert(!pairing.is_loop_at(x as int) && !pairing.is_loop_at(y as int));
                    assert(pairing.dentry_ok((x, y)));
                    assert(doubles@[pre_doubles.len() as int] == (x, y));
                    assert(doubles@.last() == (
                        pairing.bucket(e as int)[0],
                        pairing.bucket(e as int)[1],
                    ));
                }
            } else if blen >= 3 {
                return None;
            }
        }
        proof {
            // Completeness advances by one bucket position.
            assert forall|i: int|
                0 <= i < gm && #[trigger] pairing.is_loop_at(i) && pairing.cp_of(
                    pairing.spec_pairs()[i],
                ) < e + 1 implies loops@.contains(i as usize) by {
                if pairing.cp_of(pairing.spec_pairs()[i]) == e as int {
                    assert(pairing.bucket(pairing.cp_of(pairing.spec_pairs()[i])).contains(
                        (i as int) as usize,
                    ));
                    assert(pairing.links(i, c1 as int, c2 as int));
                    if c1 == c2 {
                        assert(pairing.bucket(e as int).len() == 1);
                        let kk = choose|kk: int|
                            0 <= kk < pairing.bucket(e as int).len() && pairing.bucket(
                                e as int,
                            )[kk] == i as usize;
                        assert(kk == 0);
                    }
                }
            }
            assert forall|i: int, j: int|
                #![trigger pairing.spec_pairs()[i], pairing.spec_pairs()[j]]
                0 <= i < j < gm && !pairing.is_loop_at(i) && pairing.cp_of(
                    pairing.spec_pairs()[i],
                ) == pairing.cp_of(pairing.spec_pairs()[j]) && pairing.cp_of(
                    pairing.spec_pairs()[i],
                ) < e + 1 implies (doubles@.contains((i as usize, j as usize))
                || doubles@.contains((j as usize, i as usize))) by {
                if pairing.cp_of(pairing.spec_pairs()[i]) == e as int {
                    assert(pairing.bucket(pairing.cp_of(pairing.spec_pairs()[i])).contains(
                        (i as int) as usize,
                    ));
                    assert(pairing.bucket(pairing.cp_of(pairing.spec_pairs()[j])).contains(
                        (j as int) as usize,
                    ));
                    let ki = choose|kk: int|
                        0 <= kk < pairing.bucket(e as int).len() && pairing.bucket(e as int)[kk]
                            == i as usize;
                    let kj = choose|kk: int|
                        0 <= kk < pairing.bucket(e as int).len() && pairing.bucket(e as int)[kk]
                            == j as usize;
                    assert(pairing.links(i, c1 as int, c2 as int));
                    if c1 == c2 {
                        assert(pairing.is_loop_at(i));
                        assert(false);
                    } else {
                        assert(pairing.bucket(e as int).len() == 2) by {
                            if pairing.bucket(e as int).len() < 2 {
                                assert(ki == 0 && kj == 0);
                            }
                        }
                        assert((ki == 0 || ki == 1) && (kj == 0 || kj == 1) && ki != kj);
                        assert(doubles@.last() == (
                            pairing.bucket(e as int)[0],
                            pairing.bucket(e as int)[1],
                        ));
                        assert(doubles@[doubles@.len() - 1] == doubles@.last());
                        assert(doubles@.contains(doubles@.last()));
                    }
                }
            }
        }
        e += 1;
    }
    proof {
        assert(pairing.loops_listed(loops@)) by {
            assert forall|i: int|
                0 <= i < gm && #[trigger] pairing.is_loop_at(i) implies loops@.contains(
                i as usize,
            ) by {
                pairing.lemma_cp_in_table(i);
            }
            assert(nodup_u(loops@)) by {
                assert forall|k1: int, k2: int|
                    0 <= k1 < k2 < loops@.len() implies loops@[k1] != loops@[k2] by {
                    assert(pairing.cp_of(pairing.spec_pairs()[loops@[k1] as int]) != pairing.cp_of(
                        pairing.spec_pairs()[loops@[k2] as int],
                    ));
                }
            }
        }
        assert(pairing.doubles_listed(doubles@)) by {
            assert forall|i: int, j: int|
                #![trigger pairing.spec_pairs()[i], pairing.spec_pairs()[j]]
                0 <= i < j < gm && !pairing.is_loop_at(i) && pairing.cp_of(
                    pairing.spec_pairs()[i],
                ) == pairing.cp_of(pairing.spec_pairs()[j]) implies (doubles@.contains(
                (i as usize, j as usize),
            ) || doubles@.contains((j as usize, i as usize))) by {
                pairing.lemma_cp_in_table(i);
            }
        }
    }
    let mm = n * d / 2;
    let m2 = n * d * (d - 1);
    let t = m2 / mm;
    proof {
        assert(mm >= 1);
        assert(t as int == 2 * (d as int - 1)) by {
            assert(m2 as int == mm as int * (2 * (d as int - 1))) by (nonlinear_arith)
                requires
                    m2 as int == n as int * d as int * (d as int - 1) && 2 * mm as int == n as int
                        * d as int,
            ;
            vstd::arithmetic::div_mod::lemma_div_multiples_vanish(
                2 * (d as int - 1),
                mm as int,
            );
            assert(mm as int * (2 * (d as int - 1)) == (mm as int) * (2 * (d as int - 1)));
        }
        assert(t as int * t as int == 4 * (d as int - 1) * (d as int - 1)) by (nonlinear_arith)
            requires
                t as int == 2 * (d as int - 1),
        ;
        assert(t as int * t as int <= usize::MAX);
    }
    if doubles.len() > t * t {
        return None;
    }
    if loops.len() > t {
        return None;
    }
    let fixed_loops = pairing.no_loops(loops, rng);
    if fixed_loops.is_none() {
        return None;
    }
    let fixed_doubles = pairing.no_doubles(doubles, rng);
    if fixed_doubles.is_none() {
        return None;
    }
    proof {
        assert(pairing.matching_ok());
    }
    Some(pairing)
}

/// Generate a random simple d-regular pairing: draw and repair,
/// retrying wholly whenever an attempt is rejected or runs out of
/// switching candidates.  The number of whole retries is bounded by
/// `attempts`, so callers can observe how much work they allow; for fixed
/// degree the expected number of attempts is constant, so a small budget
/// almost always suffices.  `None` reports an exhausted budget.
pub fn deg(n: usize, d: usize, attempts: u64, rng: &mut rand::rngs::StdRng) -> (p: Option<
    Pairing,
>)
    requires
        n >= 1,
        d >= 1,
        (n * d) % 2 == 0,
        n * d <= usize::MAX,
        n * n <= usize::MAX,
        n * d * (d - 1) <= usize::MAX,
        4 * (d - 1) * (d - 1) <= usize::MAX,
    ensures
        match p {
            Some(q) => {
                &&& q.wf()
                &&& q.spec_n() == n as int
                &&& q.spec_d() == d as int
                &&& 2 * q.spec_m() == n as int * d as int
                &&& q.is_simple()
                &&& q.matching_ok()
            },
            None => true,
        },
{
    let mut left = attempts;
    while left > 0
        invariant
            n >= 1,
            d >= 1,
            (n * d) % 2 == 0,
            n * d <= usize::MAX,
            n * n <= usize::MAX,
            n * d * (d - 1) <= usize::MAX,
            4 * (d - 1) * (d - 1) <= usize::MAX,
        decreases left,
    {
        match try_deg(n, d, rng) {
            None => {},
            Some(q) => {
                return Some(q);
            },
        }
        left -= 1;
    }
    None
}

/// The sum of the endpoint counts of `s` over the half-edges `a .. b`.
pub open spec fn pcnt_range(s: Seq<(usize, usize)>, a: int, b: int) -> int
    decreases b - a,
{
    if b <= a {
        0
    } else {
        pcnt_range(s, a, b - 1) + pcnt(s, b - 1)
    }
}

/// How many endpoints of the single pair `p` fall into `a .. b`.
pub open spec fn hrange(p: (usize, usize), a: int, b: int) -> int {
    (if a <= p.0 < b {
        1int
    } else {
        0int
    }) + (if a <= p.1 < b {
        1int
    } else {
        0int
    })
}

/// Dropping the last pair removes its contribution from a range sum.
proof fn lemma_pcnt_range_drop(s: Seq<(usize, usize)>, a: int, b: int)
    requires
        s.len() > 0,
        a <= b,
    ensures
        pcnt_range(s, a, b) == pcnt_range(s.drop_last(), a, b) + hrange(s.last(), a, b),
    decreases b - a,
{
    if b > a {
        lemma_pcnt_range_drop(s, a, b - 1);
        assert(pcnt(s, b - 1) == pcnt(s.drop_last(), b - 1) + hcontrib(s.last(), b - 1));
        if a <= b - 2 {
        }
    }
}

/// Counting a cell among the cell pairs equals summing the endpoint
/// counts over that cell's half-edge range.
pub proof fn lemma_cell_count(s: Seq<(usize, usize)>, cs: Seq<(usize, usize)>, d: int, v: int)
    requires
        d >= 1,
        cs.len() == s.len(),
        forall|i: int|
            0 <= i < s.len() ==> (#[trigger] cs[i]).0 as int == cell_of(d, s[i].0 as int)
                && cs[i].1 as int == cell_of(d, s[i].1 as int),
        v >= 0,
    ensures
        pcnt(cs, v) == pcnt_range(s, v * d, v * d + d),
    decreases s.len(),
{
    if s.len() == 0 {
        lemma_pcnt_range_empty(s, v * d, v * d + d);
    } else {
        let sp = s.drop_last();
        let cp = cs.drop_last();
        lemma_cell_count(sp, cp, d, v);
        lemma_pcnt_range_drop(s, v * d, v * d + d);
        assert(pcnt_range(sp, v * d, v * d + d) == pcnt_range(s.drop_last(), v * d, v * d + d));
        lemma_cell_iff_range(d, v, s.last().0 as int);
        lemma_cell_iff_range(d, v, s.last().1 as int);
        assert(cs.last() == cs[s.len() - 1]);
        assert(hcontrib(cs.last(), v) == hrange(s.last(), v * d, v * d + d));
    }
}

/// An empty pair list has zero counts over any range.
proof fn lemma_pcnt_range_empty(s: Seq<(usize, usize)>, a: int, b: int)
    requires
        s.len() == 0,
    ensures
        pcnt_range(s, a, b) == 0,
    decreases b - a,
{
    if b > a {
        lemma_pcnt_range_empty(s, a, b - 1);
    }
}

/// A half-edge lies in cell `v` exactly when it lies in that cell's
/// half-edge range.
proof fn lemma_cell_iff_range(d: int, v: int, h: int)
    requires
        d >= 1,
        v >= 0,
        h >= 0,
    ensures
        cell_of(d, h) == v <==> v * d <= h < v * d + d,
{
    vstd::arithmetic::div_mod::lemma_fundamental_div_mod(h, d);
    if v * d <= h < v * d + d {
        lemma_fundamental_div_mod_converse(h, d, v, h - v * d);
    }
    if cell_of(d, h) == v {
        assert(d * (h / d) == (h / d) * d) by (nonlinear_arith);
        vstd::arithmetic::div_mod::lemma_mod_division_less_than_divisor(h, d);
    }
}

/// Under a perfect matching, a whole cell's half-edge range counts to the
/// degree.
pub proof fn lemma_matching_range(s: Seq<(usize, usize)>, a: int, b: int, nd: int)
    requires
        is_matching(s, nd),
        0 <= a <= b <= nd,
    ensures
        pcnt_range(s, a, b) == b - a,
    decreases b - a,
{
    if b > a {
        lemma_matching_range(s, a, b - 1, nd);
    }
}

/// A value that never occurs in `s` has count zero.
proof fn lemma_scnt_zero_when_absent(s: Seq<usize>, x: int)
    requires
        forall|j: int| 0 <= j < s.len() ==> (#[trigger] s[j]) as int != x,
    ensures
        scnt(s, x) == 0,
    decreases s.len(),
{
    if s.len() > 0 {
        lemma_scnt_zero_when_absent(s.drop_last(), x);
    }
}

/// A value present at an index has positive count.
proof fn lemma_scnt_at_index(s: Seq<usize>, j: int)
    requires
        0 <= j < s.len(),
    ensures
        scnt(s, s[j] as int) >= 1,
    decreases s.len(),
{
    if j == s.len() - 1 {
        lemma_scnt_nonneg(s.drop_last(), s[j] as int);
    } else {
        lemma_scnt_at_index(s.drop_last(), j);
    }
}

/// Counts are never negative.
proof fn lemma_scnt_nonneg(s: Seq<usize>, x: int)
    ensures
        scnt(s, x) >= 0,
    decreases s.len(),
{
    if s.len() > 0 {
        lemma_scnt_nonneg(s.drop_last(), x);
    }
}

} // verus!
