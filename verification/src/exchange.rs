//! Moving one vertex to another cluster: what that does to the cost, and
//! why a cheapest clustering of a graph of unit weights joins no pair that
//! is forced apart and parts no critical pair.

use vstd::prelude::*;
use crate::graph::{Edge, Graph};
use crate::merge::lemma_active_below_len;
use crate::cost::lemma_cost_twice;
use crate::sums::{
    sum_to, row_sum, square_sum, lemma_sum_add, lemma_sum_eq, lemma_sum_le, lemma_sum_point,
    lemma_sum_three_points, lemma_square_add, lemma_square_eq,
};
use crate::merge::lemma_merge_wf;
use crate::optimal::lemma_same_pattern_cost;

verus! {

/// The labelling `p` with the vertex `x` put in a cluster of its own.
pub open spec fn alone(p: spec_fn(int) -> int, x: int) -> spec_fn(int) -> int {
    |v: int|
        if v == x {
            0
        } else if p(v) >= 0 {
            p(v) + 1
        } else {
            p(v)
        }
}

impl Graph {
    /// The weight of the pair `{x, c}` where the labelling joins the two.
    pub open spec fn tie(&self, p: spec_fn(int) -> int, x: int, c: int) -> int {
        if self.is_pair(x, c) && !self.edge(x, c).fixed && p(x) == p(c) {
            self.weight(x, c)
        } else {
            0
        }
    }

    /// The weights of the pairs that join `x` to the rest of its cluster.
    pub open spec fn ties(&self, p: spec_fn(int) -> int, x: int) -> int {
        sum_to(|c: int| self.tie(p, x, c), self.cap())
    }

    /// Every undecided pair of active vertices has the weight `1` or `-1`.
    pub open spec fn is_unit(&self) -> bool {
        forall|a: int, b: int| #[trigger]
            self.is_pair(a, b) && !self.edge(a, b).fixed ==> self.weight(a, b) == 1 || self.weight(
                a,
                b,
            ) == -1
    }

    /// `self` is `g` with every pair that is forced apart cut.
    pub open spec fn forced_cut_of(&self, g: &Graph) -> bool {
        &&& self.same_vertices(g)
        &&& forall|a: int, b: int| #[trigger]
            g.is_pair(a, b) ==> self.edge(a, b) == if g.is_forced_apart(a, b) {
                Edge::spec_none()
            } else {
                g.edge(a, b)
            }
    }
}

/// A sum over ordered pairs of terms that vanish away from the row and
/// the column of `x` is twice the sum over the row of `x`.
pub proof fn lemma_square_cross(d: spec_fn(int, int) -> int, r: spec_fn(int) -> int, n: int, x: int)
    requires
        0 <= x < n,
        r(x) == 0,
        forall|a: int, b: int|
            0 <= a < n && 0 <= b < n ==> #[trigger] d(a, b) == if a == x {
                r(b)
            } else if b == x {
                r(a)
            } else {
                0
            },
    ensures
        square_sum(d, n) == 2 * sum_to(r, n),
{
    let total = sum_to(r, n);
    let rows = |a: int| row_sum(d, a, n);
    let once = |a: int|
        if a == x {
            total
        } else {
            0
        };
    assert forall|a: int| 0 <= a < n implies #[trigger] rows(a) == r(a) + once(a) by {
        let row = |b: int| d(a, b);
        if a == x {
            lemma_sum_eq(row, r, n);
        } else {
            lemma_sum_point(row, n, x);
        }
    }
    lemma_sum_add(rows, r, once, n);
    lemma_sum_point(once, n, x);
}

/// Putting a vertex in a cluster of its own is admitted, and changes the
/// cost by the weights of the pairs that joined it to its cluster.
pub proof fn lemma_alone(g: &Graph, p: spec_fn(int) -> int, x: int)
    requires
        g.wf(),
        g.admits(p),
        0 <= x < g.cap(),
    ensures
        g.admits(alone(p, x)),
        g.cost(alone(p, x)) == g.cost(p) + g.ties(p, x),
{
    let q = alone(p, x);
    let n = g.cap();
    assert forall|a: int, b: int| #[trigger] g.is_pair(a, b) && g.edge(a, b).fixed implies q(a)
        != q(b) by {}
    let before = |a: int, b: int| g.pair_cost(p, a, b);
    let after = |a: int, b: int| g.pair_cost(q, a, b);
    let r = |c: int| g.tie(p, x, c);
    let d = |a: int, b: int|
        if a == x {
            r(b)
        } else if b == x {
            r(a)
        } else {
            0
        };
    assert forall|a: int, b: int| 0 <= a < n && 0 <= b < n implies #[trigger] after(a, b)
        == before(a, b) + d(a, b) by {
        assert(g.edge(a, b) == g.edge(b, a));
        if g.is_pair(a, b) {
            assert(g.is_pair(b, a));
            assert(g.edge(a, b).ok());
        }
    }
    lemma_square_add(after, before, d, n);
    lemma_square_cross(d, r, n, x);
    lemma_cost_twice(g, p);
    lemma_cost_twice(g, q);
}

/// Where a labelling of a graph of unit weights joins a pair that is
/// forced apart, taking one of the two out of the cluster makes it cheaper.
pub proof fn lemma_forced_apart_gain(g: &Graph, p: spec_fn(int) -> int, a: int, b: int)
    requires
        g.wf(),
        g.is_unit(),
        g.admits(p),
        g.is_forced_apart(a, b),
        p(a) == p(b),
    ensures
        g.ties(p, a) + g.ties(p, b) < 0,
{
    let n = g.cap();
    lemma_active_below_len(g, a);
    lemma_active_below_len(g, b);
    let ra = |c: int| g.tie(p, a, c);
    let rb = |c: int| g.tie(p, b, c);
    let both = |c: int| ra(c) + rb(c);
    let w = g.weight(a, b);
    let cap = |c: int|
        if c == a || c == b {
            w
        } else {
            0
        };
    assert(g.edge(a, b) == g.edge(b, a));
    assert(g.is_pair(b, a));
    assert forall|c: int| 0 <= c < n implies #[trigger] both(c) <= cap(c) by {
        if c != a && c != b && g.is_active(c) && p(c) == p(a) {
            assert(g.is_third(a, b, c));
            assert(g.is_pair(a, c) && g.is_pair(b, c));
            assert(!g.edge(a, c).fixed && !g.edge(b, c).fixed);
            assert(!(g.weight(a, c) > 0 && g.weight(b, c) > 0));
        }
    }
    lemma_sum_add(both, ra, rb, n);
    lemma_sum_le(both, cap, n);
    lemma_sum_three_points(cap, n, a, b, -1);
}

/// In a graph of unit weights, cutting the pairs that are forced apart
/// keeps the least cost of a clustering.
pub proof fn lemma_forced_cut_optimum(g: &Graph, h: &Graph, c: int)
    requires
        g.wf(),
        h.wf(),
        h.forced_cut_of(g),
        g.is_unit(),
        g.is_optimum(c),
    ensures
        h.is_optimum(c),
{
    let n = g.cap();
    assert forall|a: int| g.is_active(a) == h.is_active(a) by {}
    assert forall|q: spec_fn(int) -> int| h.admits(q) implies g.admits(q) && g.cost(q) == h.cost(
        q,
    ) by {
        lemma_forced_cut_cost(g, h, q);
    }
    let p = choose|p: spec_fn(int) -> int| g.admits(p) && #[trigger] g.cost(p) == c;
    assert forall|a: int, b: int| #[trigger] h.is_pair(a, b) && h.edge(a, b).fixed implies p(a)
        != p(b) by {
        assert(g.is_pair(a, b));
        if g.is_forced_apart(a, b) && p(a) == p(b) {
            lemma_active_below_len(g, a);
            lemma_active_below_len(g, b);
            lemma_forced_apart_gain(g, p, a, b);
            lemma_alone(g, p, a);
            lemma_alone(g, p, b);
            assert(g.cost(alone(p, a)) >= c);
            assert(g.cost(alone(p, b)) >= c);
        }
    }
    lemma_forced_cut_cost(g, h, p);
    assert(h.admits(p) && h.cost(p) == c);
}

/// A clustering of the graph with the forced pairs cut is a clustering of
/// the graph before, at the same cost.
pub proof fn lemma_forced_cut_cost(g: &Graph, h: &Graph, q: spec_fn(int) -> int)
    requires
        g.wf(),
        h.wf(),
        h.forced_cut_of(g),
        h.admits(q),
    ensures
        g.admits(q),
        g.cost(q) == h.cost(q),
{
    let n = g.cap();
    assert forall|a: int| g.is_active(a) == h.is_active(a) by {}
    assert forall|a: int, b: int| #[trigger] g.is_pair(a, b) && g.edge(a, b).fixed implies q(a)
        != q(b) by {
        assert(h.is_pair(a, b));
    }
    let in_g = |a: int, b: int| g.pair_cost(q, a, b);
    let in_h = |a: int, b: int| h.pair_cost(q, a, b);
    assert forall|a: int, b: int| 0 <= a < n && 0 <= b < n implies #[trigger] in_g(a, b) == in_h(
        a,
        b,
    ) by {
        if g.is_pair(a, b) {
            assert(h.is_pair(a, b));
            assert(g.edge(a, b).ok());
        }
    }
    lemma_square_eq(in_g, in_h, n);
    lemma_cost_twice(g, q);
    lemma_cost_twice(h, q);
}

/// The labelling `p` with the vertex `x` given the label `l`.
pub open spec fn put(p: spec_fn(int) -> int, x: int, l: int) -> spec_fn(int) -> int {
    |v: int|
        if v == x {
            l
        } else {
            p(v)
        }
}

impl Graph {
    /// No pair of active vertices is fixed.
    pub open spec fn is_open(&self) -> bool {
        forall|a: int, b: int| #[trigger] self.is_pair(a, b) ==> !self.edge(a, b).fixed
    }

    /// The vertex of `g` that the labelling of `self` takes for `r`: one
    /// that `r` stands for.
    pub open spec fn stands_for(&self, g: &Graph, r: int) -> int {
        choose|x: int| g.is_active(x) && #[trigger] self.root_spec(x) == r
    }

    /// Two active vertices of `g` have become one in `self` exactly where
    /// they are a critical pair of `g`.
    pub open spec fn joins_critical(&self, g: &Graph) -> bool {
        forall|x: int, y: int| #[trigger]
            g.is_pair(x, y) ==> (self.root_spec(x) == self.root_spec(y)) == g.is_critical(x, y)
    }
}

/// Giving a vertex another label changes the cost by the weights of the
/// pairs that joined it to its cluster, less those of the pairs that join
/// it to the new one.
pub proof fn lemma_put(g: &Graph, p: spec_fn(int) -> int, x: int, l: int)
    requires
        g.wf(),
        0 <= x < g.cap(),
    ensures
        g.cost(put(p, x, l)) == g.cost(p) + g.ties(p, x) - g.ties(put(p, x, l), x),
{
    let q = put(p, x, l);
    let n = g.cap();
    let before = |a: int, b: int| g.pair_cost(p, a, b);
    let after = |a: int, b: int| g.pair_cost(q, a, b);
    let left = |c: int| g.tie(p, x, c);
    let joined = |c: int| g.tie(q, x, c);
    let r = |c: int| left(c) - joined(c);
    let d = |a: int, b: int|
        if a == x {
            r(b)
        } else if b == x {
            r(a)
        } else {
            0
        };
    assert forall|a: int, b: int| 0 <= a < n && 0 <= b < n implies #[trigger] after(a, b)
        == before(a, b) + d(a, b) by {
        assert(g.edge(a, b) == g.edge(b, a));
        if g.is_pair(a, b) {
            assert(g.is_pair(b, a));
            assert(g.edge(a, b).ok());
        }
    }
    lemma_square_add(after, before, d, n);
    lemma_square_cross(d, r, n, x);
    lemma_sum_add(left, r, joined, n);
    lemma_cost_twice(g, p);
    lemma_cost_twice(g, q);
}

/// Where a labelling of a graph of unit weights without fixed pairs parts
/// a critical pair, moving one of the two to the other makes it cheaper.
pub proof fn lemma_critical_gain(g: &Graph, p: spec_fn(int) -> int, u: int, v: int)
    requires
        g.wf(),
        g.is_unit(),
        g.is_open(),
        g.is_critical(u, v),
        p(u) != p(v),
    ensures
        g.ties(p, u) + g.ties(p, v) < g.ties(put(p, u, p(v)), u) + g.ties(put(p, v, p(u)), v),
{
    let n = g.cap();
    lemma_active_below_len(g, u);
    lemma_active_below_len(g, v);
    let pu = put(p, u, p(v));
    let pv = put(p, v, p(u));
    let t1 = |c: int| g.tie(p, u, c);
    let t2 = |c: int| g.tie(pu, u, c);
    let t3 = |c: int| g.tie(p, v, c);
    let t4 = |c: int| g.tie(pv, v, c);
    let left = |c: int| t1(c) + t3(c);
    let joined = |c: int| t2(c) + t4(c);
    let step = |c: int|
        if c == u || c == v {
            -1int
        } else {
            0int
        };
    let bound = |c: int| joined(c) + step(c);
    assert(g.edge(u, v) == g.edge(v, u));
    assert(g.is_pair(v, u));
    assert forall|c: int| 0 <= c < n implies #[trigger] left(c) <= bound(c) by {
        if c != u && c != v && g.is_active(c) {
            assert(g.is_third(u, v, c));
            assert(!g.disagree(u, v, c));
            assert(g.is_pair(u, c) && g.is_pair(v, c));
        }
    }
    lemma_sum_add(left, t1, t3, n);
    lemma_sum_add(joined, t2, t4, n);
    lemma_sum_add(bound, joined, step, n);
    lemma_sum_le(left, bound, n);
    lemma_sum_three_points(step, n, u, v, -1);
}

/// A cheapest clustering of a graph of unit weights without fixed pairs
/// keeps every critical pair together.
pub proof fn lemma_critical_together(g: &Graph, p: spec_fn(int) -> int, c: int, u: int, v: int)
    requires
        g.wf(),
        g.is_unit(),
        g.is_open(),
        g.is_optimum(c),
        g.cost(p) == c,
        g.is_critical(u, v),
    ensures
        p(u) == p(v),
{
    if p(u) != p(v) {
        lemma_active_below_len(g, u);
        lemma_active_below_len(g, v);
        lemma_critical_gain(g, p, u, v);
        lemma_put(g, p, u, p(v));
        lemma_put(g, p, v, p(u));
        assert(g.admits(put(p, u, p(v))));
        assert(g.admits(put(p, v, p(u))));
        assert(g.cost(put(p, u, p(v))) >= c);
        assert(g.cost(put(p, v, p(u))) >= c);
    }
}

/// A merge in a graph without fixed pairs leaves none.
pub proof fn lemma_merge_open(g: &Graph, h: &Graph, v1: usize, v2: usize)
    requires
        g.wf(),
        g.is_open(),
        g.is_pair(v1 as int, v2 as int),
        h.merged_from(g, v1, v2),
    ensures
        h.is_open(),
{
    lemma_merge_wf(g, h, v1, v2);
    let vv = g.len as int;
    lemma_active_below_len(g, v1 as int);
    lemma_active_below_len(g, v2 as int);
    assert forall|a: int, b: int| #[trigger] h.is_pair(a, b) implies !h.edge(a, b).fixed by {
        assert(h.edge(a, b) == h.edge(b, a));
        if a == vv {
            assert(g.is_third(v1 as int, v2 as int, b));
            assert(g.is_pair(v1 as int, b) && g.is_pair(v2 as int, b));
        } else if b == vv {
            assert(g.is_third(v1 as int, v2 as int, a));
            assert(g.is_pair(v1 as int, a) && g.is_pair(v2 as int, a));
        } else {
            lemma_active_below_len(g, a);
            lemma_active_below_len(g, b);
            assert(g.is_pair(a, b));
        }
    }
}

/// In a graph of unit weights without fixed pairs, making one vertex of
/// every set of vertices that are critical with each other keeps the
/// least cost of a clustering.
pub proof fn lemma_critical_optimum(g: &Graph, h: &Graph, c: int)
    requires
        g.wf(),
        g.is_unit(),
        g.is_open(),
        h.is_open(),
        h.lifts(g, 0),
        h.joins_critical(g),
        g.is_optimum(c),
    ensures
        h.is_optimum(c),
{
    let p = choose|p: spec_fn(int) -> int| g.admits(p) && #[trigger] g.cost(p) == c;
    let q = |r: int| p(h.stands_for(g, r));
    assert(h.admits(q));
    let back = h.pull(q);
    assert forall|a: int| g.is_active(a) implies #[trigger] back(a) == p(a) by {
        let r = h.root_spec(a);
        let x = h.stands_for(g, r);
        assert(g.is_active(x) && h.root_spec(x) == r);
        if x != a {
            assert(g.is_pair(a, x));
            lemma_critical_together(g, p, c, a, x);
        }
    }
    lemma_same_pattern_cost(g, back, p);
    assert(h.cost(q) == c);
}

} // verus!
