//! The hypercube graph: bit strings of a fixed width, adjacent when they
//! differ in exactly one bit.

use vstd::prelude::*;

use crate::graph::Graph;
use crate::rng::rand_below;

verus! {

/// The hypercube of dimension `d`, on `2^d` vertices.
pub struct HyperCubeGraph {
    pub d: u8,
}

/// A vertex of the hypercube: a bit string, read as a position.
#[derive(Copy, Clone, Debug, Hash, Eq, PartialEq, Structural)]
pub struct HyperCubeVertex(pub usize);

/// `x` has exactly one bit set.
pub open spec fn one_bit(x: usize) -> bool {
    x != 0 && (x & ((x - 1) as usize)) == 0
}

/// Flipping one in-range bit keeps the value in range, changes it, and
/// the difference is exactly that bit.
proof fn lemma_flip_facts(dd: u8, x: usize, i: u8)
    by (bit_vector)
    requires
        (dd as u32) < usize::BITS,
        i < dd,
        x < (1usize << dd),
    ensures
        (x ^ (1usize << i)) < (1usize << dd),
        (x ^ (1usize << i)) != x,
        x ^ (x ^ (1usize << i)) == (1usize << i),
        one_bit((1usize << i)),
{
}

/// Flipping different bits of one value gives different values.
proof fn lemma_flip_distinct(x: usize, i: u8, j: u8)
    by (bit_vector)
    requires
        (i as u32) < usize::BITS,
        (j as u32) < usize::BITS,
        i != j,
    ensures
        (x ^ (1usize << i)) != (x ^ (1usize << j)),
{
}

/// The exclusive or of two in-range values is in range, and is symmetric.
proof fn lemma_xor_facts(dd: u8, a: usize, b: usize)
    by (bit_vector)
    requires
        (dd as u32) < usize::BITS,
        a < (1usize << dd),
        b < (1usize << dd),
    ensures
        (a ^ b) < (1usize << dd),
        a ^ b == b ^ a,
        a ^ (a ^ b) == b,
{
}

/// A one-bit value below `2^dd` is a shift of one by some position below
/// `dd`.
proof fn lemma_one_bit_position(dd: u8, x: usize)
    requires
        (dd as u32) < usize::BITS,
        x < (1usize << dd),
        one_bit(x),
    ensures
        exists|i: u8| i < dd && x == (1usize << i),
    decreases dd as int,
{
    if dd == 0 {
        assert(false) by (bit_vector)
            requires
                x < (1usize << 0u8) && x != 0,
        ;
    } else {
        let p = (dd - 1) as u8;
        if x == (1usize << p) {
            assert(p < dd && x == (1usize << p));
        } else {
            assert(x < (1usize << p)) by (bit_vector)
                requires
                    one_bit(x) && x < (1usize << dd) && x != (1usize << p) && p == dd - 1 && (
                    dd as u32) < usize::BITS,
            ;
            lemma_one_bit_position(p, x);
            let i0 = choose|i0: u8| i0 < p && x == (1usize << i0);
            assert(i0 < dd && x == (1usize << i0));
        }
    }
}

impl HyperCubeVertex {
    /// The vertex reached by flipping bit `rhs`.
    pub fn flip(self, rhs: u8) -> (r: HyperCubeVertex)
        requires
            (rhs as u32) < usize::BITS,
        ensures
            r.0 == self.0 ^ (1usize << rhs),
    {
        HyperCubeVertex(self.0 ^ (1usize << rhs))
    }
}

impl Graph for HyperCubeGraph {
    type Vertex = HyperCubeVertex;

    open spec fn wf(&self) -> bool {
        (self.d as u32) < usize::BITS
    }

    open spec fn spec_n(&self) -> int {
        (1usize << self.d) as int
    }

    open spec fn spec_d(&self) -> int {
        self.d as int
    }

    open spec fn valid_vertex(&self, v: HyperCubeVertex) -> bool {
        v.0 < (1usize << self.d)
    }

    open spec fn spec_idx(&self, v: HyperCubeVertex) -> int {
        v.0 as int
    }

    open spec fn edge(&self, u: HyperCubeVertex, v: HyperCubeVertex) -> bool {
        &&& u.0 < (1usize << self.d)
        &&& v.0 < (1usize << self.d)
        &&& one_bit(u.0 ^ v.0)
    }

    proof fn edge_symmetric(&self, u: HyperCubeVertex, v: HyperCubeVertex) {
        let a = u.0;
        let b = v.0;
        assert(a ^ b == b ^ a) by (bit_vector);
    }

    proof fn idx_injective(&self, u: HyperCubeVertex, v: HyperCubeVertex) {
    }

    fn n(&self) -> (r: usize) {
        1usize << self.d
    }

    fn d(&self) -> (r: usize) {
        self.d as usize
    }

    fn as_idx(&self, v: HyperCubeVertex) -> (r: usize) {
        v.0
    }

    fn iter_vertices(&self) -> (r: Vec<HyperCubeVertex>) {
        let n = 1usize << self.d;
        let mut r: Vec<HyperCubeVertex> = Vec::new();
        let mut k: usize = 0;
        while k < n
            invariant
                k <= n,
                n == 1usize << self.d,
                r@.len() == k,
                forall|i: int| 0 <= i < k ==> (#[trigger] r@[i]) == HyperCubeVertex(i as usize),
            decreases n - k,
        {
            r.push(HyperCubeVertex(k));
            k += 1;
        }
        proof {
            assert forall|i: int|
                0 <= i < r@.len() implies self.valid_vertex(#[trigger] r@[i]) && self.spec_idx(
                r@[i],
            ) == i by {
                assert(r@[i] == HyperCubeVertex(i as usize));
            }
        }
        r
    }

    fn iter_neighbours(&self, v: HyperCubeVertex) -> (r: Vec<HyperCubeVertex>) {
        let mut r: Vec<HyperCubeVertex> = Vec::new();
        let mut i: u8 = 0;
        while i < self.d
            invariant
                i <= self.d,
                self.wf(),
                self.valid_vertex(v),
                r@.len() == i as int,
                forall|k: int|
                    0 <= k < i as int ==> (#[trigger] r@[k]).0 == v.0 ^ (1usize << (k as u8)),
            decreases self.d - i,
        {
            r.push(v.flip(i));
            i += 1;
        }
        proof {
            assert forall|k: int|
                0 <= k < r@.len() implies self.valid_vertex(#[trigger] r@[k]) && self.edge(
                v,
                r@[k],
            ) && self.spec_idx(r@[k]) != self.spec_idx(v) by {
                lemma_flip_facts(self.d, v.0, k as u8);
                lemma_xor_facts(self.d, v.0, r@[k].0);
            }
            assert forall|k1: int, k2: int|
                0 <= k1 < k2 < r@.len() implies self.spec_idx(#[trigger] r@[k1]) != self.spec_idx(
                #[trigger] r@[k2],
            ) by {
                lemma_flip_distinct(v.0, k1 as u8, k2 as u8);
            }
            assert forall|u: HyperCubeVertex|
                self.valid_vertex(u) && #[trigger] self.edge(v, u) && self.spec_idx(u)
                    != self.spec_idx(v) implies exists|k: int| 0 <= k < r@.len() && r@[k] == u by {
                let x = v.0 ^ u.0;
                lemma_xor_facts(self.d, v.0, u.0);
                lemma_one_bit_position(self.d, x);
                let i0 = choose|i0: u8| i0 < self.d && x == (1usize << i0);
                assert(r@[i0 as int].0 == v.0 ^ (1usize << i0));
                assert(r@[i0 as int].0 == u.0);
                assert(r@[i0 as int] == HyperCubeVertex(r@[i0 as int].0));
                assert(u == HyperCubeVertex(u.0));
            }
        }
        r
    }

    fn has_edge(&self, v: HyperCubeVertex, u: HyperCubeVertex) -> (r: bool) {
        let x = v.0 ^ u.0;
        x != 0 && (x & (x - 1)) == 0
    }

    /// Samples a uniform vertex, then a uniform bit to flip.
    fn random_edge(&self, rng: &mut rand::rngs::StdRng) -> (r: (HyperCubeVertex, HyperCubeVertex)) {
        let n = 1usize << self.d;
        let v = HyperCubeVertex(rand_below(rng, n));
        let bit = rand_below(rng, self.d as usize);
        let u = v.flip(bit as u8);
        proof {
            lemma_flip_facts(self.d, v.0, bit as u8);
            lemma_xor_facts(self.d, v.0, u.0);
        }
        (v, u)
    }
}

} // verus!
