//! What a clustering costs: the model against which the bounds and the
//! search are stated.
//!
//! A clustering is a labelling of the vertices: two vertices share a cluster
//! when they carry the same label.

use vstd::prelude::*;
use crate::graph::Graph;
use crate::sums::{
    pair_sum, square_sum, lemma_square_is_twice_pairs, lemma_square_le, lemma_square_nonneg,
};

verus! {

impl Graph {
    /// The labelling keeps every fixed pair of active vertices apart.
    pub open spec fn admits(&self, p: spec_fn(int) -> int) -> bool {
        forall|a: int, b: int| #[trigger]
            self.is_pair(a, b) && self.edge(a, b).fixed ==> p(a) != p(b)
    }

    /// What the pair `{a, b}` costs under the labelling: the magnitude of a
    /// negative edge inside a cluster, or of a positive edge between two.
    pub open spec fn pair_cost(&self, p: spec_fn(int) -> int, a: int, b: int) -> int {
        if self.is_pair(a, b) && !self.edge(a, b).fixed {
            if p(a) == p(b) {
                if self.weight(a, b) < 0 {
                    -self.weight(a, b)
                } else {
                    0
                }
            } else {
                if self.weight(a, b) > 0 {
                    self.weight(a, b)
                } else {
                    0
                }
            }
        } else {
            0
        }
    }

    /// The cost of the labelling: the costs of all unordered pairs of active vertices.
    pub open spec fn cost(&self, p: spec_fn(int) -> int) -> int {
        pair_sum(|a: int, b: int| self.pair_cost(p, a, b), self.cap())
    }

    /// The costs of all ordered pairs: twice the cost.
    pub open spec fn cost_twice(&self, p: spec_fn(int) -> int) -> int {
        square_sum(|a: int, b: int| self.pair_cost(p, a, b), self.cap())
    }

    /// No admitted labelling costs less than `c`, and one costs exactly `c`.
    pub open spec fn is_optimum(&self, c: int) -> bool {
        &&& exists|p: spec_fn(int) -> int| self.admits(p) && #[trigger] self.cost(p) == c
        &&& forall|p: spec_fn(int) -> int| self.admits(p) ==> #[trigger] self.cost(p) >= c
    }

    /// The weight of the pair `{a, b}` where it is a positive pair of active vertices.
    pub open spec fn positive_part(&self, a: int, b: int) -> int {
        if self.is_pair(a, b) && self.weight(a, b) > 0 {
            self.weight(a, b)
        } else {
            0
        }
    }

    /// The weights of all positive pairs of active vertices.
    pub open spec fn positive_total(&self) -> int {
        pair_sum(|a: int, b: int| self.positive_part(a, b), self.cap())
    }
}

/// The labelling that leaves every vertex alone.
pub open spec fn singletons() -> spec_fn(int) -> int {
    |v: int| v
}

/// The sum over ordered pairs counts the cost of every unordered pair twice.
pub proof fn lemma_cost_twice(g: &Graph, p: spec_fn(int) -> int)
    ensures
        g.cost_twice(p) == 2 * g.cost(p),
        g.cost(p) >= 0,
{
    let f = |a: int, b: int| g.pair_cost(p, a, b);
    assert forall|a: int, b: int| 0 <= a < g.cap() && 0 <= b < g.cap() implies #[trigger] f(a, b)
        == f(b, a) by {
        assert(g.edge(a, b) == g.edge(b, a));
    }
    lemma_square_is_twice_pairs(f, g.cap());
    lemma_square_nonneg(f, g.cap());
}

/// No labelling costs more than all undecided edges together.
pub proof fn lemma_cost_fits(g: &Graph, p: spec_fn(int) -> int)
    requires
        g.wf(),
    ensures
        0 <= 2 * g.cost(p) <= g.weight_sum(),
        g.cost(p) <= i32::MAX,
{
    lemma_cost_twice(g, p);
    let f = |a: int, b: int| g.pair_cost(p, a, b);
    let m = |a: int, b: int| g.pair_magnitude(a, b);
    assert forall|a: int, b: int| 0 <= a < g.cap() && 0 <= b < g.cap() implies #[trigger] f(a, b)
        <= m(a, b) by {
        if g.is_pair(a, b) {
            assert(g.edge(a, b).ok());
        }
    }
    lemma_square_le(f, m, g.cap());
}

/// Leaving every vertex alone is admitted and costs the weight of all positive edges.
pub proof fn lemma_singletons_cost(g: &Graph)
    requires
        g.wf(),
    ensures
        g.admits(singletons()),
        g.cost(singletons()) == g.positive_total(),
        0 <= g.positive_total() <= i32::MAX,
{
    let p = singletons();
    let f = |a: int, b: int| g.pair_cost(p, a, b);
    let w = |a: int, b: int| g.positive_part(a, b);
    assert forall|a: int, b: int| 0 <= a < g.cap() && 0 <= b < g.cap() implies #[trigger] f(a, b)
        == w(a, b) by {
        if g.is_pair(a, b) {
            assert(g.edge(a, b).ok());
        }
    }
    assert forall|a: int, b: int| 0 <= a < g.cap() && 0 <= b < g.cap() implies #[trigger] f(a, b)
        == f(b, a) by {
        assert(g.edge(a, b) == g.edge(b, a));
    }
    assert forall|a: int, b: int| 0 <= a < g.cap() && 0 <= b < g.cap() implies #[trigger] w(a, b)
        == w(b, a) by {
        assert(g.edge(a, b) == g.edge(b, a));
    }
    crate::sums::lemma_square_eq(f, w, g.cap());
    lemma_square_is_twice_pairs(f, g.cap());
    lemma_square_is_twice_pairs(w, g.cap());
    lemma_cost_fits(g, p);
}

} // verus!
