//! How the cost of a clustering changes along a merge and along a cut, and
//! what a graph without conflicts costs: the facts that make the search exact.

use vstd::prelude::*;
use crate::graph::{Graph};
use crate::merge::{lemma_active_below_len, lemma_merge_wf};
use crate::cost::lemma_cost_twice;
use crate::packing::{conflict_count, lemma_conflict_symmetric};
use crate::cost::{singletons, lemma_singletons_cost};
use crate::sums::{
    square_sum, lemma_square_eq, lemma_square_fold_rows, lemma_square_update_pair,
    lemma_square_zero, lemma_square_add, lemma_square_nonneg,
};

verus! {

/// `r` is the least cost of the admitted labellings that satisfy `only`, or
/// `u` where none of them costs less than `u`.
pub open spec fn capped_optimum(
    g: &Graph,
    only: spec_fn(spec_fn(int) -> int) -> bool,
    u: int,
    r: int,
) -> bool {
    &&& r <= u
    &&& forall|p: spec_fn(int) -> int| g.admits(p) && only(p) ==> #[trigger] g.cost(p) >= r
    &&& r == u || exists|p: spec_fn(int) -> int| g.admits(p) && only(p) && #[trigger] g.cost(p) == r
}

/// Every labelling.
pub open spec fn any() -> spec_fn(spec_fn(int) -> int) -> bool {
    |p: spec_fn(int) -> int| true
}

/// The labellings that put `v1` and `v2` in one cluster.
pub open spec fn together(v1: int, v2: int) -> spec_fn(spec_fn(int) -> int) -> bool {
    |p: spec_fn(int) -> int| p(v1) == p(v2)
}

/// The labellings that keep `v1` and `v2` apart.
pub open spec fn apart(v1: int, v2: int) -> spec_fn(spec_fn(int) -> int) -> bool {
    |p: spec_fn(int) -> int| p(v1) != p(v2)
}

/// The labelling `p` with the label of `src` given to `dst` as well.
pub open spec fn relabel(p: spec_fn(int) -> int, dst: int, src: int) -> spec_fn(int) -> int {
    |v: int|
        if v == dst {
            p(src)
        } else {
            p(v)
        }
}

/// The labelling `q` with the label of `vv` given to `v1` and to `v2`.
pub open spec fn unfold(q: spec_fn(int) -> int, v1: int, v2: int, vv: int) -> spec_fn(int) -> int {
    |v: int|
        if v == v1 || v == v2 {
            q(vv)
        } else {
            q(v)
        }
}

/// Graphs that agree on all that can be observed admit the same labellings at the same cost.
pub proof fn lemma_same_state_cost(g: &Graph, h: &Graph, p: spec_fn(int) -> int)
    requires
        g.wf(),
        h.same_state(g),
    ensures
        h.admits(p) == g.admits(p),
        h.cost(p) == g.cost(p),
{
    assert forall|a: int, b: int| h.is_pair(a, b) implies g.is_pair(a, b) && h.edge(a, b)
        == g.edge(a, b) by {
        lemma_active_below_len(g, a);
        lemma_active_below_len(g, b);
    }
    assert forall|a: int, b: int| g.is_pair(a, b) implies h.is_pair(a, b) && h.edge(a, b)
        == g.edge(a, b) by {
        lemma_active_below_len(g, a);
        lemma_active_below_len(g, b);
    }
    if g.admits(p) {
        assert forall|a: int, b: int| #[trigger] h.is_pair(a, b) && h.edge(a, b).fixed implies p(a)
            != p(b) by {
            assert(g.is_pair(a, b));
        }
    }
    if h.admits(p) {
        assert forall|a: int, b: int| #[trigger] g.is_pair(a, b) && g.edge(a, b).fixed implies p(a)
            != p(b) by {
            assert(h.is_pair(a, b));
        }
    }
    let f = |a: int, b: int| h.pair_cost(p, a, b);
    let e = |a: int, b: int| g.pair_cost(p, a, b);
    assert forall|a: int, b: int| 0 <= a < g.cap() && 0 <= b < g.cap() implies #[trigger] f(a, b)
        == e(a, b) by {
        if g.is_pair(a, b) {
            assert(h.is_pair(a, b));
        }
        if h.is_pair(a, b) {
            assert(g.is_pair(a, b));
        }
    }
    lemma_square_eq(f, e, g.cap());
    lemma_cost_twice(g, p);
    lemma_cost_twice(h, p);
}

/// The cost of a labelling that puts `v1` and `v2` together is the cost of
/// the merge and the cost that the labelling has on the merged graph.
pub proof fn lemma_merge_cost(
    g: &Graph,
    h: &Graph,
    v1: usize,
    v2: usize,
    p: spec_fn(int) -> int,
    q: spec_fn(int) -> int,
)
    requires
        g.wf(),
        g.is_pair(v1 as int, v2 as int),
        !g.edge(v1 as int, v2 as int).fixed,
        h.merged_from(g, v1, v2),
        p(v1 as int) == p(v2 as int),
        q(g.len as int) == p(v1 as int),
        forall|v: int| v != v1 && v != v2 && v != g.len ==> #[trigger] q(v) == p(v),
    ensures
        h.admits(q) == g.admits(p),
        g.admits(p) ==> g.cost(p) == h.cost(q) + g.merge_cost(v1 as int, v2 as int),
{
    let n = g.cap();
    let vv = g.len as int;
    let a1 = v1 as int;
    let a2 = v2 as int;
    lemma_merge_wf(g, h, v1, v2);
    lemma_active_below_len(g, a1);
    lemma_active_below_len(g, a2);
    assert(!g.is_active(vv)) by {
        if g.is_active(vv) {
            lemma_active_below_len(g, vv);
        }
    }
    assert(g.edge(a1, a2).ok());
    assert forall|b: int| g.is_third(a1, a2, b) implies g.is_pair(a1, b) && g.is_pair(a2, b)
        && g.edge(a1, b).ok() && g.edge(a2, b).ok() && h.is_pair(vv, b) && h.edge(vv, b)
        == g.merged_edge(a1, a2, b) && b < vv && h.edge(b, vv) == h.edge(vv, b) && g.edge(b, a1)
        == g.edge(a1, b) && g.edge(b, a2) == g.edge(a2, b) by {
        lemma_active_below_len(g, b);
        crate::merge::lemma_two_edges_fit(g, a1, a2, b);
    }
    if g.admits(p) {
        assert forall|a: int, b: int| #[trigger] h.is_pair(a, b) && h.edge(a, b).fixed implies q(a)
            != q(b) by {
            if a == vv {
                assert(g.is_third(a1, a2, b));
                assert(g.is_pair(a1, b) && g.is_pair(a2, b));
            } else if b == vv {
                assert(g.is_third(a1, a2, a));
                assert(g.is_pair(a1, a) && g.is_pair(a2, a));
            } else {
                lemma_active_below_len(g, a);
                lemma_active_below_len(g, b);
                assert(g.is_pair(a, b));
            }
        }
    }
    if h.admits(q) {
        assert forall|a: int, b: int| #[trigger] g.is_pair(a, b) && g.edge(a, b).fixed implies p(a)
            != p(b) by {
            if a == a1 || a == a2 {
                if b != a1 && b != a2 {
                    assert(g.is_third(a1, a2, b));
                    assert(h.is_pair(vv, b));
                } else {
                    assert(g.edge(a1, a2) == g.edge(a2, a1));
                }
            } else if b == a1 || b == a2 {
                assert(g.is_third(a1, a2, a));
                assert(h.is_pair(vv, a));
            } else {
                lemma_active_below_len(g, a);
                lemma_active_below_len(g, b);
                assert(h.is_pair(a, b));
            }
        }
    }
    if g.admits(p) {
        let f = |a: int, b: int| g.pair_cost(p, a, b);
        let e = |a: int, b: int| h.pair_cost(q, a, b);
        let m = |b: int| g.merge_term(a1, a2, b);
        assert forall|a: int, b: int| 0 <= a < n && 0 <= b < n implies #[trigger] f(a, b) == f(
            b,
            a,
        ) by {
            assert(g.edge(a, b) == g.edge(b, a));
        }
        assert forall|a: int, b: int| 0 <= a < n && 0 <= b < n implies #[trigger] e(a, b) == e(
            b,
            a,
        ) by {
            assert(h.edge(a, b) == h.edge(b, a));
        }
        assert forall|a: int, b: int|
            0 <= a < n && 0 <= b < n && a != a1 && a != a2 && a != vv && b != a1 && b != a2 && b
                != vv implies #[trigger] e(a, b) == f(a, b) by {
            if g.is_pair(a, b) {
                lemma_active_below_len(g, a);
                lemma_active_below_len(g, b);
                assert(h.is_pair(a, b));
            }
        }
        assert forall|b: int| 0 <= b < n && b != a1 && b != a2 && b != vv implies f(a1, b) + f(
            a2,
            b,
        ) == e(vv, b) + #[trigger] m(b) by {
            if g.is_third(a1, a2, b) {
                assert(g.is_pair(a1, b) && g.is_pair(a2, b));
                assert(h.is_pair(vv, b));
                assert(h.edge(vv, b) == g.merged_edge(a1, a2, b));
                assert(g.edge(a1, b).ok() && g.edge(a2, b).ok());
                crate::merge::lemma_two_edges_fit(g, a1, a2, b);
                let x = g.weight(a1, b);
                let y = g.weight(a2, b);
                assert(q(vv) == p(a1));
                assert(q(b) == p(b));
                if g.edge(a1, b).fixed || g.edge(a2, b).fixed {
                    assert(p(a1) != p(b));
                    assert(e(vv, b) == 0);
                } else {
                    assert(h.weight(vv, b) == x + y);
                }
            } else {
                assert(!h.is_active(b));
                assert(!g.is_active(b));
            }
        }
        let c12 = if g.weight(a1, a2) < 0 {
            -g.weight(a1, a2)
        } else {
            0
        };
        lemma_square_fold_rows(f, e, m, n, a1, a2, vv, c12);
        lemma_cost_twice(g, p);
        lemma_cost_twice(h, q);
    }
}

/// The cost of a labelling that keeps `v1` and `v2` apart is the weight of
/// their edge, where it is positive, and the cost that the labelling has
/// once the edge is cut.
pub proof fn lemma_cut_cost(g: &Graph, h: &Graph, v1: usize, v2: usize, p: spec_fn(int) -> int)
    requires
        g.wf(),
        g.is_pair(v1 as int, v2 as int),
        !g.edge(v1 as int, v2 as int).fixed,
        h.same_vertices(g),
        h.edges_same_except(g, v1 as int, v2 as int),
        h.edge(v1 as int, v2 as int) == crate::graph::Edge::spec_none(),
    ensures
        h.admits(p) == (g.admits(p) && p(v1 as int) != p(v2 as int)),
        h.admits(p) ==> g.cost(p) == h.cost(p) + if g.weight(v1 as int, v2 as int) > 0 {
            g.weight(v1 as int, v2 as int)
        } else {
            0
        },
{
    let n = g.cap();
    let a1 = v1 as int;
    let a2 = v2 as int;
    lemma_active_below_len(g, a1);
    lemma_active_below_len(g, a2);
    assert forall|v: int| h.is_active(v) == g.is_active(v) by {}
    assert(h.edge(a1, a2) == h.edge(a2, a1));
    assert(g.edge(a1, a2) == g.edge(a2, a1));
    assert(h.is_pair(a1, a2) && h.is_pair(a2, a1) && g.is_pair(a2, a1));
    assert forall|a: int, b: int|
        g.is_pair(a, b) && !(a == a1 && b == a2) && !(a == a2 && b == a1) implies h.edge(a, b)
        == g.edge(a, b) by {
        lemma_active_below_len(g, a);
        lemma_active_below_len(g, b);
    }
    if h.admits(p) {
        assert forall|a: int, b: int| #[trigger] g.is_pair(a, b) && g.edge(a, b).fixed implies p(a)
            != p(b) by {
            assert(h.is_pair(a, b));
        }
    }
    if g.admits(p) && p(a1) != p(a2) {
        assert forall|a: int, b: int| #[trigger] h.is_pair(a, b) && h.edge(a, b).fixed implies p(a)
            != p(b) by {
            assert(g.is_pair(a, b));
        }
    }
    if h.admits(p) {
        let f = |a: int, b: int| g.pair_cost(p, a, b);
        let e = |a: int, b: int| h.pair_cost(p, a, b);
        let delta = if g.weight(a1, a2) > 0 {
            g.weight(a1, a2)
        } else {
            0
        };
        assert forall|a: int, b: int|
            0 <= a < n && 0 <= b < n && !(a == a1 && b == a2) && !(a == a2 && b == a1)
            implies #[trigger] f(a, b) == e(a, b) by {
            if g.is_pair(a, b) {
                assert(h.is_pair(a, b));
            }
        }
        lemma_square_update_pair(e, f, n, a1, a2, delta);
        lemma_cost_twice(g, p);
        lemma_cost_twice(h, p);
    }
}

impl Graph {
    /// No three active vertices are in conflict.
    pub open spec fn conflict_free(&self) -> bool {
        forall|a: int, b: int, c: int| #[trigger]
            self.is_triple(a, b, c) ==> !self.is_conflict(a, b, c)
    }

    /// Whether `u` is `v` itself or an active vertex with a positive edge to `v`.
    pub open spec fn is_friend(&self, u: int, v: int) -> bool {
        self.is_active(u) && (u == v || self.weight(u, v) > 0)
    }

    /// The least friend of `v` from `k` on, or `v` itself if there is none.
    pub open spec fn friend_from(&self, v: int, k: int) -> int
        decreases self.cap() - k,
    {
        if k >= self.cap() {
            v
        } else if self.is_friend(k, v) {
            k
        } else {
            self.friend_from(v, k + 1)
        }
    }

    /// The clustering of a graph without conflicts: every vertex carries the
    /// label of the least vertex that it shares a positive edge with, or its own.
    pub open spec fn clusters(&self) -> spec_fn(int) -> int {
        |v: int| self.friend_from(v, 0)
    }

    /// Whether `{a, b}` is an undecided pair of active vertices.
    pub open spec fn open_pair(&self, a: int, b: int) -> int {
        if self.is_pair(a, b) && !self.edge(a, b).fixed {
            1
        } else {
            0
        }
    }

    /// The number of undecided pairs of active vertices, each counted in both orders.
    pub open spec fn open_pairs(&self) -> int {
        square_sum(|a: int, b: int| self.open_pair(a, b), self.cap())
    }
}

proof fn lemma_friend_from(g: &Graph, v: int, k: int)
    requires
        0 <= k,
        0 <= v < g.cap(),
        g.is_active(v),
        forall|u: int| 0 <= u < k ==> !g.is_friend(u, v),
    ensures
        g.is_friend(g.friend_from(v, k), v),
        0 <= g.friend_from(v, k) <= v,
        forall|u: int| 0 <= u < g.friend_from(v, k) ==> !g.is_friend(u, v),
    decreases g.cap() - k,
{
    assert(g.is_friend(v, v));
    if k >= g.cap() {
    } else if g.is_friend(k, v) {
    } else {
        lemma_friend_from(g, v, k + 1);
    }
}

/// In a graph without conflicts the clusters cost nothing.
pub proof fn lemma_conflict_free_cost(g: &Graph)
    requires
        g.wf(),
        g.conflict_free(),
    ensures
        g.admits(g.clusters()),
        g.cost(g.clusters()) == 0,
        forall|a: int, b: int| #[trigger]
            g.is_pair(a, b) ==> (g.clusters()(a) == g.clusters()(b)) == (g.weight(a, b) > 0),
{
    let p = g.clusters();
    let n = g.cap();
    assert forall|a: int, b: int| #[trigger] g.is_pair(a, b) implies ((p(a) == p(b)) == (g.weight(
        a,
        b,
    ) > 0)) && g.edge(a, b).ok() by {
        lemma_active_below_len(g, a);
        lemma_active_below_len(g, b);
        lemma_friend_from(g, a, 0);
        lemma_friend_from(g, b, 0);
        let ra = p(a);
        let rb = p(b);
        assert(g.edge(a, b) == g.edge(b, a));
        assert(g.edge(ra, a) == g.edge(a, ra));
        assert(g.edge(rb, b) == g.edge(b, rb));
        assert(g.edge(ra, b) == g.edge(b, ra));
        assert(g.edge(rb, a) == g.edge(a, rb));
        if g.weight(a, b) > 0 {
            // the friends of a are the friends of b
            if ra != a && ra != b {
                assert(g.is_triple(ra, a, b));
                lemma_conflict_symmetric(g, ra, a, b);
            }
            if rb != a && rb != b {
                assert(g.is_triple(rb, a, b));
                lemma_conflict_symmetric(g, rb, a, b);
            }
            assert(g.is_friend(ra, b));
            assert(g.is_friend(rb, a));
        } else {
            if ra == rb {
                assert(ra != a && ra != b);
                assert(g.is_triple(ra, a, b));
                lemma_conflict_symmetric(g, ra, a, b);
            }
        }
    }
    assert forall|a: int, b: int| #[trigger] g.is_pair(a, b) && g.edge(a, b).fixed implies p(a)
        != p(b) by {}
    let f = |a: int, b: int| g.pair_cost(p, a, b);
    lemma_square_zero(f, n);
    lemma_cost_twice(g, p);
}

/// Where every positive pair of active vertices is part of no conflict,
/// there is no conflict at all.
pub proof fn lemma_no_counts_conflict_free(g: &Graph)
    requires
        g.wf(),
        forall|a: int, b: int| #[trigger]
            g.is_pair(a, b) && g.weight(a, b) > 0 ==> conflict_count(g, a, b) == 0,
    ensures
        g.conflict_free(),
{
    assert forall|a: int, b: int, c: int| #[trigger] g.is_triple(a, b, c) implies !g.is_conflict(
        a,
        b,
        c,
    ) by {
        if g.is_conflict(a, b, c) {
            lemma_active_below_len(g, a);
            lemma_active_below_len(g, b);
            lemma_active_below_len(g, c);
            lemma_conflict_symmetric(g, a, b, c);
            if g.weight(a, b) > 0 {
                assert(g.is_pair(a, b));
                lemma_count_term(g, a, b, c);
            } else {
                assert(g.weight(a, c) > 0);
                assert(g.is_pair(a, c));
                assert(g.is_triple(a, c, b));
                lemma_count_term(g, a, c, b);
            }
        }
    }
}

/// A conflict counts for each of its pairs.
pub proof fn lemma_count_term(g: &Graph, a: int, b: int, c: int)
    requires
        g.is_triple(a, b, c),
        g.is_conflict(a, b, c),
        0 <= c < g.cap(),
    ensures
        conflict_count(g, a, b) > 0,
{
    let f = |c: int|
        if g.is_third(a, b, c) && g.is_conflict(a, b, c) {
            1int
        } else {
            0int
        };
    crate::sums::lemma_sum_ge_point(f, g.cap(), c);
}

/// Graphs that agree on all that can be observed have the same number of undecided pairs.
pub proof fn lemma_same_state_open_pairs(g: &Graph, h: &Graph)
    requires
        g.wf(),
        h.same_state(g),
    ensures
        h.open_pairs() == g.open_pairs(),
        g.open_pairs() >= 0,
{
    let f = |a: int, b: int| h.open_pair(a, b);
    let e = |a: int, b: int| g.open_pair(a, b);
    assert forall|a: int, b: int| 0 <= a < g.cap() && 0 <= b < g.cap() implies #[trigger] f(a, b)
        == e(a, b) by {
        if g.is_pair(a, b) {
            lemma_active_below_len(g, a);
            lemma_active_below_len(g, b);
            assert(h.is_pair(a, b));
        }
        if h.is_pair(a, b) {
            assert(g.is_pair(a, b));
            lemma_active_below_len(g, a);
            lemma_active_below_len(g, b);
        }
    }
    lemma_square_eq(f, e, g.cap());
    crate::sums::lemma_square_nonneg(e, g.cap());
}

/// A cut of an undecided pair leaves two undecided ordered pairs less.
pub proof fn lemma_cut_open_pairs(g: &Graph, h: &Graph, v1: usize, v2: usize)
    requires
        g.wf(),
        g.is_pair(v1 as int, v2 as int),
        !g.edge(v1 as int, v2 as int).fixed,
        h.same_vertices(g),
        h.edges_same_except(g, v1 as int, v2 as int),
        h.edge(v1 as int, v2 as int).fixed,
    ensures
        h.open_pairs() == g.open_pairs() - 2,
        h.open_pairs() >= 0,
{
    let a1 = v1 as int;
    let a2 = v2 as int;
    lemma_active_below_len(g, a1);
    lemma_active_below_len(g, a2);
    let f = |a: int, b: int| g.open_pair(a, b);
    let e = |a: int, b: int| h.open_pair(a, b);
    assert forall|v: int| h.is_active(v) == g.is_active(v) by {}
    assert(h.edge(a1, a2) == h.edge(a2, a1));
    assert(g.edge(a1, a2) == g.edge(a2, a1));
    assert(h.is_pair(a1, a2) && h.is_pair(a2, a1) && g.is_pair(a2, a1));
    assert forall|a: int, b: int|
        0 <= a < g.cap() && 0 <= b < g.cap() && !(a == a1 && b == a2) && !(a == a2 && b == a1)
        implies #[trigger] f(a, b) == e(a, b) by {
        if g.is_pair(a, b) {
            assert(h.is_pair(a, b));
        }
    }
    lemma_square_update_pair(e, f, g.cap(), a1, a2, 1);
    crate::sums::lemma_square_nonneg(e, g.cap());
}


/// Runs that start from the same graph and the same bound report the same cost.
pub proof fn lemma_capped_optimum_unique(
    g: &Graph,
    only: spec_fn(spec_fn(int) -> int) -> bool,
    u: int,
    r1: int,
    r2: int,
)
    requires
        capped_optimum(g, only, u, r1),
        capped_optimum(g, only, u, r2),
    ensures
        r1 == r2,
{
    if r1 != u {
        let p = choose|p: spec_fn(int) -> int| g.admits(p) && only(p) && #[trigger] g.cost(p) == r1;
        assert(g.cost(p) >= r2);
    }
    if r2 != u {
        let p = choose|p: spec_fn(int) -> int| g.admits(p) && only(p) && #[trigger] g.cost(p) == r2;
        assert(g.cost(p) >= r1);
    }
}

/// A search that starts from the cost of leaving every vertex alone, as
/// a new solver does, ends with the least cost of all clusterings.
pub proof fn lemma_search_optimum(g: &Graph, r: int)
    requires
        g.wf(),
        capped_optimum(g, any(), g.positive_total(), r),
    ensures
        g.is_optimum(r),
{
    lemma_singletons_cost(g);
    if r == g.positive_total() {
        assert(g.admits(singletons()) && g.cost(singletons()) == r);
    } else {
        let p = choose|p: spec_fn(int) -> int| g.admits(p) && any()(p) && #[trigger] g.cost(p) == r;
        assert(g.admits(p) && g.cost(p) == r);
    }
    assert forall|p: spec_fn(int) -> int| g.admits(p) implies #[trigger] g.cost(p) >= r by {
        assert(any()(p));
    }
}

/// The least cost of all clusterings, capped at `u`.
pub proof fn lemma_optimum_capped(g: &Graph, c: int, u: int)
    requires
        g.is_optimum(c),
    ensures
        capped_optimum(
            g,
            any(),
            u,
            if c < u {
                c
            } else {
                u
            },
        ),
{
    if c < u {
        let p = choose|p: spec_fn(int) -> int| g.admits(p) && #[trigger] g.cost(p) == c;
        assert(g.admits(p) && any()(p) && g.cost(p) == c);
    }
}

impl Graph {
    /// The active vertices of `self` are those of `one` and those of
    /// `two`, which share none, and the three graphs have the same edges;
    /// no positive edge leads from `one` to `two`.
    pub open spec fn splits_into(&self, one: &Graph, two: &Graph) -> bool {
        &&& one.cap() == self.cap()
        &&& two.cap() == self.cap()
        &&& forall|v: int| self.is_active(v) <==> (one.is_active(v) || two.is_active(v))
        &&& forall|v: int| !(one.is_active(v) && two.is_active(v))
        &&& forall|a: int, b: int| #[trigger] one.is_pair(a, b) ==> one.edge(a, b) == self.edge(a, b)
        &&& forall|a: int, b: int| #[trigger] two.is_pair(a, b) ==> two.edge(a, b) == self.edge(a, b)
        &&& forall|a: int, b: int|
            one.is_active(a) && two.is_active(b) ==> #[trigger] self.weight(a, b) <= 0
    }
}

/// The labelling that follows `inner` on the active vertices of `one` and `outer`
/// elsewhere, with no label shared between the two.
pub open spec fn join(one: &Graph, inner: spec_fn(int) -> int, outer: spec_fn(int) -> int) -> spec_fn(
    int,
) -> int {
    |v: int|
        if one.is_active(v) {
            2 * inner(v)
        } else {
            2 * outer(v) + 1
        }
}

/// Labellings that put the same pairs of active vertices together cost the same.
pub proof fn lemma_same_pattern_cost(g: &Graph, p: spec_fn(int) -> int, q: spec_fn(int) -> int)
    requires
        forall|a: int, b: int| #[trigger] g.is_pair(a, b) ==> (p(a) == p(b)) == (q(a) == q(b)),
    ensures
        g.cost(p) == g.cost(q),
        g.admits(p) == g.admits(q),
{
    let f = |a: int, b: int| g.pair_cost(p, a, b);
    let e = |a: int, b: int| g.pair_cost(q, a, b);
    assert forall|a: int, b: int| 0 <= a < g.cap() && 0 <= b < g.cap() implies #[trigger] f(a, b)
        == e(a, b) by {}
    lemma_square_eq(f, e, g.cap());
    lemma_cost_twice(g, p);
    lemma_cost_twice(g, q);
    if g.admits(p) {
        assert forall|a: int, b: int| #[trigger] g.is_pair(a, b) && g.edge(a, b).fixed implies q(a)
            != q(b) by {}
    }
    if g.admits(q) {
        assert forall|a: int, b: int| #[trigger] g.is_pair(a, b) && g.edge(a, b).fixed implies p(a)
            != p(b) by {}
    }
}

/// A labelling costs on the whole graph at least what it costs on the two
/// parts, and exactly that where it keeps the two parts apart.
pub proof fn lemma_split_cost(g: &Graph, one: &Graph, two: &Graph, p: spec_fn(int) -> int)
    requires
        g.wf(),
        g.splits_into(one, two),
    ensures
        g.cost(p) >= one.cost(p) + two.cost(p),
        g.admits(p) ==> one.admits(p) && two.admits(p),
        (forall|a: int, b: int| one.is_active(a) && two.is_active(b) ==> p(a) != p(b)) ==> g.cost(
            p,
        ) == one.cost(p) + two.cost(p) && (one.admits(p) && two.admits(p) ==> g.admits(p)),
{
    let n = g.cap();
    let f = |a: int, b: int| g.pair_cost(p, a, b);
    let f1 = |a: int, b: int| one.pair_cost(p, a, b);
    let f2 = |a: int, b: int| two.pair_cost(p, a, b);
    let across = |a: int, b: int|
        if (one.is_active(a) && two.is_active(b)) || (two.is_active(a) && one.is_active(b)) {
            g.pair_cost(p, a, b)
        } else {
            0
        };
    let parts = |a: int, b: int| f1(a, b) + f2(a, b);
    assert forall|a: int, b: int| 0 <= a < n && 0 <= b < n implies #[trigger] f(a, b) == parts(a, b)
        + across(a, b) by {
        if one.is_pair(a, b) {
            assert(g.is_pair(a, b));
        }
        if two.is_pair(a, b) {
            assert(g.is_pair(a, b));
        }
    }
    lemma_square_add(f, parts, across, n);
    lemma_square_add(parts, f1, f2, n);
    lemma_square_nonneg(across, n);
    lemma_cost_twice(g, p);
    lemma_cost_twice(one, p);
    lemma_cost_twice(two, p);
    if g.admits(p) {
        assert forall|a: int, b: int| #[trigger] one.is_pair(a, b) && one.edge(a, b).fixed implies p(
            a,
        ) != p(b) by {
            assert(g.is_pair(a, b));
        }
        assert forall|a: int, b: int| #[trigger] two.is_pair(a, b) && two.edge(a, b).fixed implies p(
            a,
        ) != p(b) by {
            assert(g.is_pair(a, b));
        }
    }
    if forall|a: int, b: int| one.is_active(a) && two.is_active(b) ==> p(a) != p(b) {
        assert forall|a: int, b: int| 0 <= a < n && 0 <= b < n implies #[trigger] across(a, b)
            == 0 by {
            assert(g.edge(a, b) == g.edge(b, a));
            if one.is_active(a) && two.is_active(b) {
                assert(g.weight(a, b) <= 0);
            }
            if two.is_active(a) && one.is_active(b) {
                assert(g.weight(b, a) <= 0);
            }
        }
        lemma_square_zero(across, n);
        if one.admits(p) && two.admits(p) {
            assert forall|a: int, b: int| #[trigger] g.is_pair(a, b) && g.edge(a, b).fixed implies p(
                a,
            ) != p(b) by {
                if one.is_active(a) && one.is_active(b) {
                    assert(one.is_pair(a, b));
                } else if two.is_active(a) && two.is_active(b) {
                    assert(two.is_pair(a, b));
                }
            }
        }
    }
}

/// The least cost of a graph that falls into two parts without a positive
/// edge between them is the sum of the least costs of the parts.
pub proof fn lemma_components_additive(g: &Graph, one: &Graph, two: &Graph, c1: int, c2: int)
    requires
        g.wf(),
        g.splits_into(one, two),
        one.is_optimum(c1),
        two.is_optimum(c2),
    ensures
        g.is_optimum(c1 + c2),
{
    assert forall|p: spec_fn(int) -> int| g.admits(p) implies #[trigger] g.cost(p) >= c1 + c2 by {
        lemma_split_cost(g, one, two, p);
        assert(one.cost(p) >= c1);
        assert(two.cost(p) >= c2);
    }
    let inner = choose|p: spec_fn(int) -> int| one.admits(p) && #[trigger] one.cost(p) == c1;
    let outer = choose|p: spec_fn(int) -> int| two.admits(p) && #[trigger] two.cost(p) == c2;
    let p = join(one, inner, outer);
    lemma_same_pattern_cost(one, p, inner);
    lemma_same_pattern_cost(two, p, outer);
    lemma_split_cost(g, one, two, p);
    assert(g.admits(p) && g.cost(p) == c1 + c2);
}


/// What holds of a graph holds of every graph that agrees with it on all
/// that can be observed.
pub proof fn lemma_capped_transfer(
    g: &Graph,
    h: &Graph,
    only: spec_fn(spec_fn(int) -> int) -> bool,
    u: int,
    r: int,
)
    requires
        g.wf(),
        h.same_state(g),
        capped_optimum(h, only, u, r),
    ensures
        capped_optimum(g, only, u, r),
{
    assert forall|p: spec_fn(int) -> int| g.admits(p) && only(p) implies #[trigger] g.cost(p)
        >= r by {
        lemma_same_state_cost(g, h, p);
        assert(h.cost(p) >= r);
    }
    if r != u {
        let p = choose|p: spec_fn(int) -> int| h.admits(p) && only(p) && #[trigger] h.cost(p) == r;
        lemma_same_state_cost(g, h, p);
        assert(g.admits(p) && only(p) && g.cost(p) == r);
    }
}

} // verus!
