//! Merging two vertices into a fresh one, and taking the merge back.

use vstd::prelude::*;
use crate::graph::{
    Edge, Graph, abs, min, without, remove_values, lemma_without_contains, lemma_without_len,
    lemma_same_state_wf,
};
use crate::sums::{
    sum_to, seq_sum, row_sum, lemma_sum_le, lemma_sum_add, lemma_sum_nonneg,
    lemma_sum_ge_two_points, lemma_seq_sum_mono, lemma_seq_sum_as_sum, lemma_square_fold_rows,
    lemma_square_nonneg, lemma_square_update_pair,
};

verus! {

impl Graph {
    /// Whether `v3` is an active vertex other than `v1` and `v2`.
    pub open spec fn is_third(&self, v1: int, v2: int, v3: int) -> bool {
        self.is_active(v3) && v3 != v1 && v3 != v2
    }

    /// Whether exactly one of the pairs `{v1, v3}` and `{v2, v3}` is positive.
    pub open spec fn disagree(&self, v1: int, v2: int, v3: int) -> bool {
        (self.weight(v1, v3) > 0) != (self.weight(v2, v3) > 0)
    }

    /// What a merge of `v1` and `v2` costs against the third vertex `v3`:
    /// the smaller magnitude where the two edges to `v3` disagree in sign.
    pub open spec fn merge_term(&self, v1: int, v2: int, v3: int) -> int {
        if self.is_third(v1, v2, v3) && self.disagree(v1, v2, v3) {
            min(abs(self.weight(v1, v3)), abs(self.weight(v2, v3)))
        } else {
            0
        }
    }

    /// The cost of merging `v1` and `v2`: the weight of their own edge where
    /// it is negative, and the terms of all third vertices.
    pub open spec fn merge_cost(&self, v1: int, v2: int) -> int {
        (if self.weight(v1, v2) < 0 {
            -self.weight(v1, v2)
        } else {
            0
        }) + sum_to(|v3: int| self.merge_term(v1, v2, v3), self.cap())
    }

    /// The edge between the merged vertex and `v3`: fixed where either
    /// source edge is fixed, and else the sum of the two weights.
    pub open spec fn merged_edge(&self, v1: int, v2: int, v3: int) -> Edge {
        if self.edge(v1, v3).fixed || self.edge(v2, v3).fixed {
            Edge::spec_none()
        } else {
            Edge { weight: (self.weight(v1, v3) + self.weight(v2, v3)) as i32, fixed: false }
        }
    }

    /// `self` is what a merge of `v1` and `v2` makes of `before`.
    pub open spec fn merged_from(&self, before: &Graph, v1: usize, v2: usize) -> bool {
        let vv = before.len;
        &&& self.cap() == before.cap()
        &&& self.edges.wf() == before.edges.wf()
        &&& self.edges.spec_len() == before.edges.spec_len()
        &&& self.len == before.len + 1
        &&& self.active@ == without(before.active@, v1, v2).push(vv)
        &&& self.vertex_merged@ == before.vertex_merged@.update(v1 as int, Some(vv)).update(
            v2 as int,
            Some(vv),
        )
        &&& forall|a: int, b: int|
            0 <= a < self.cap() && 0 <= b < self.cap() && !(a == vv && before.is_third(
                v1 as int,
                v2 as int,
                b,
            )) && !(b == vv && before.is_third(v1 as int, v2 as int, a)) ==> #[trigger] self.edge(
                a,
                b,
            ) == before.edge(a, b)
        &&& forall|v3: int|
            before.is_third(v1 as int, v2 as int, v3) ==> #[trigger] self.edge(vv as int, v3)
                == before.merged_edge(v1 as int, v2 as int, v3)
    }

    /// `self` is what taking back the merge of `v1` and `v2` into `vv` makes of `before`.
    pub open spec fn unmerged_from(&self, before: &Graph, v1: usize, v2: usize, vv: usize) -> bool {
        &&& self.cap() == before.cap()
        &&& self.edges.wf() == before.edges.wf()
        &&& self.edges.spec_len() == before.edges.spec_len()
        &&& self.len == before.len - 1
        &&& self.active@ == without(before.active@, vv, vv).push(v1).push(v2)
        &&& self.vertex_merged@ == before.vertex_merged@.update(v1 as int, None).update(
            v2 as int,
            None,
        )
        &&& forall|a: int, b: int| #[trigger] self.edge(a, b) == before.edge(a, b)
    }
}

/// An active vertex is below the number of vertices created so far.
pub proof fn lemma_active_below_len(g: &Graph, v: int)
    requires
        g.wf(),
        g.is_active(v),
    ensures
        0 <= v < g.len,
        g.len < g.cap() || g.active.len() == 0,
        g.vertex_merged@[v] is None,
{
    let k = choose|k: int| 0 <= k < g.active.len() && g.active@[k] == v;
    assert(g.active@[k] < g.len);
}

/// The magnitudes of two undecided edges that share an active end fit together in the weight budget.
pub proof fn lemma_two_edges_fit(g: &Graph, v1: int, v2: int, v3: int)
    requires
        g.wf(),
        g.is_pair(v1, v2),
        g.is_third(v1, v2, v3),
    ensures
        2 * (g.pair_magnitude(v1, v3) + g.pair_magnitude(v2, v3)) <= g.weight_sum(),
{
    let n = g.cap();
    lemma_active_below_len(g, v1);
    lemma_active_below_len(g, v2);
    lemma_active_below_len(g, v3);
    let f = |a: int, b: int| g.pair_magnitude(a, b);
    let f0 = |a: int, b: int|
        if (a == v1 && b == v3) || (a == v3 && b == v1) {
            0
        } else {
            f(a, b)
        };
    let f00 = |a: int, b: int|
        if (a == v2 && b == v3) || (a == v3 && b == v2) {
            0
        } else {
            f0(a, b)
        };
    assert(g.edge(v1, v3) == g.edge(v3, v1));
    assert(g.edge(v2, v3) == g.edge(v3, v2));
    assert(g.is_pair(v3, v1) && g.is_pair(v1, v3));
    assert(g.is_pair(v3, v2) && g.is_pair(v2, v3));
    lemma_square_update_pair(f0, f, n, v1, v3, g.pair_magnitude(v1, v3));
    lemma_square_update_pair(f00, f0, n, v2, v3, g.pair_magnitude(v2, v3));
    lemma_square_nonneg(f00, n);
}

/// What a merge costs fits in the weight budget.
pub proof fn lemma_merge_cost_fits(g: &Graph, v1: int, v2: int)
    requires
        g.wf(),
        g.is_pair(v1, v2),
        !g.edge(v1, v2).fixed,
    ensures
        0 <= g.merge_cost(v1, v2) <= g.weight_sum(),
        forall|v3: int| 0 <= #[trigger] g.merge_term(v1, v2, v3),
{
    let n = g.cap();
    lemma_active_below_len(g, v1);
    lemma_active_below_len(g, v2);
    let f = |a: int, b: int| g.pair_magnitude(a, b);
    let mt = |v3: int| g.merge_term(v1, v2, v3);
    let f1 = |b: int| f(v1, b);
    let f2 = |b: int| f(v2, b);
    let f12 = |b: int| f1(b) + f2(b);
    let rows = |a: int| row_sum(f, a, n);
    let d = |b: int|
        if b == v1 || b == v2 {
            g.pair_magnitude(v1, v2)
        } else {
            0
        };
    let mtd = |b: int| mt(b) + d(b);
    assert(g.edge(v1, v2) == g.edge(v2, v1));
    assert(g.is_pair(v2, v1));
    assert forall|b: int| 0 <= b < n implies #[trigger] mtd(b) <= f12(b) by {
        if g.is_third(v1, v2, b) && g.disagree(v1, v2, b) {
            assert(g.is_pair(v1, b));
            assert(g.is_pair(v2, b));
            assert(g.edge(v1, b).ok());
            assert(g.edge(v2, b).ok());
        }
    }
    assert forall|b: int| 0 <= #[trigger] mt(b) by {}
    lemma_sum_le(mtd, f12, n);
    lemma_sum_add(mtd, mt, d, n);
    lemma_sum_add(f12, f1, f2, n);
    crate::sums::lemma_sum_three_points(d, n, v1, v2, -1);
    assert forall|a: int| 0 <= a < n implies #[trigger] rows(a) >= 0 by {
        lemma_sum_nonneg(|b: int| f(a, b), n);
    }
    lemma_sum_ge_two_points(rows, n, v1, v2);
    lemma_sum_nonneg(mt, n);
    assert(g.edge(v1, v2).ok());
}

/// A merge costs something where a third vertex has a positive edge to
/// just one of the two and the other edge weighs something too.
pub proof fn lemma_merge_cost_positive(g: &Graph, v1: int, v2: int, v3: int)
    requires
        g.wf(),
        g.is_pair(v1, v2),
        !g.edge(v1, v2).fixed,
        g.is_third(v1, v2, v3),
        g.disagree(v1, v2, v3),
        g.weight(v1, v3) != 0,
        g.weight(v2, v3) != 0,
    ensures
        g.merge_cost(v1, v2) > 0,
{
    lemma_merge_cost_fits(g, v1, v2);
    lemma_active_below_len(g, v3);
    let mt = |c: int| g.merge_term(v1, v2, c);
    assert forall|c: int| 0 <= c < g.cap() implies #[trigger] mt(c) >= 0 by {
        assert(0 <= g.merge_term(v1, v2, c));
    }
    crate::sums::lemma_sum_ge_point(mt, g.cap(), v3);
}

/// A merge keeps the graph well-formed and does not raise the weight sum.
pub proof fn lemma_merge_wf(g: &Graph, h: &Graph, v1: usize, v2: usize)
    requires
        g.wf(),
        g.is_pair(v1 as int, v2 as int),
        !g.edge(v1 as int, v2 as int).fixed,
        h.merged_from(g, v1, v2),
    ensures
        h.wf(),
        h.weight_sum() + 2 * g.pair_magnitude(v1 as int, v2 as int) <= g.weight_sum(),
        h.active.len() + 1 == g.active.len(),
        forall|v: int| h.is_active(v) <==> (v == g.len || g.is_third(v1 as int, v2 as int, v)),
{
    let n = g.cap();
    let vv = g.len as int;
    let rest = without(g.active@, v1, v2);
    lemma_without_contains(g.active@, v1, v2);
    assert(g.active@.contains(v1));
    assert(g.active@.contains(v2));
    lemma_without_len(g.active@, v1, v2);
    lemma_active_below_len(g, v1 as int);
    lemma_active_below_len(g, v2 as int);
    assert forall|v: int| h.is_active(v) <==> (v == vv || g.is_third(v1 as int, v2 as int, v)) by {
        if h.is_active(v) {
            let k = choose|k: int| 0 <= k < h.active.len() && h.active@[k] == v;
            if k < rest.len() {
                assert(rest[k] == v);
                assert(rest.contains(v as usize));
                assert(g.active@.contains(v as usize));
            }
        }
        if g.is_third(v1 as int, v2 as int, v) {
            assert(g.active@.contains(v as usize));
            assert(rest.contains(v as usize));
            let k = choose|k: int| 0 <= k < rest.len() && rest[k] == v as usize;
            assert(h.active@[k] == v);
        }
        if v == vv {
            assert(h.active@[rest.len() as int] == vv);
        }
    }
    assert forall|k: int| 0 <= k < h.active.len() implies (#[trigger] h.active@[k]) < h.len
        && h.vertex_merged@[h.active@[k] as int] is None by {
        let v = h.active@[k] as int;
        assert(h.is_active(v));
        if v != vv {
            lemma_active_below_len(g, v);
        }
    }
    assert(h.active@.no_duplicates()) by {
        assert forall|i: int, j: int|
            0 <= i < h.active.len() && 0 <= j < h.active.len() && i != j implies h.active@[i]
            != h.active@[j] by {
            if i < rest.len() {
                assert(rest.contains(rest[i]));
                lemma_active_below_len(g, rest[i] as int);
            }
            if j < rest.len() {
                assert(rest.contains(rest[j]));
                lemma_active_below_len(g, rest[j] as int);
            }
        }
    }
    assert forall|a: int, b: int| #[trigger] h.is_pair(a, b) implies h.edge(a, b).ok() by {
        if a == vv {
            lemma_two_edges_fit(g, v1 as int, v2 as int, b);
            assert(g.is_pair(v1 as int, b));
            assert(g.is_pair(v2 as int, b));
            assert(g.edge(v1 as int, b).ok());
            assert(g.edge(v2 as int, b).ok());
            assert(h.edge(vv, b) == g.merged_edge(v1 as int, v2 as int, b));
        } else if b == vv {
            lemma_two_edges_fit(g, v1 as int, v2 as int, a);
            assert(g.is_pair(v1 as int, a));
            assert(g.is_pair(v2 as int, a));
            assert(g.edge(v1 as int, a).ok());
            assert(g.edge(v2 as int, a).ok());
            assert(h.edge(vv, a) == g.merged_edge(v1 as int, v2 as int, a));
            assert(h.edge(a, vv) == h.edge(vv, a));
        } else {
            lemma_active_below_len(g, a);
            lemma_active_below_len(g, b);
            assert(g.is_pair(a, b));
        }
    }
    // the weight sum
    let f = |a: int, b: int| g.pair_magnitude(a, b);
    let e = |a: int, b: int| h.pair_magnitude(a, b);
    let m = |b: int|
        if g.is_third(v1 as int, v2 as int, b) {
            f(v1 as int, b) + f(v2 as int, b) - e(vv, b)
        } else {
            0
        };
    assert forall|a: int, b: int| 0 <= a < n && 0 <= b < n implies #[trigger] f(a, b) == f(
        b,
        a,
    ) by {
        assert(g.edge(a, b) == g.edge(b, a));
    }
    assert forall|a: int, b: int| 0 <= a < n && 0 <= b < n implies #[trigger] e(a, b) == e(
        b,
        a,
    ) by {
        assert(h.edge(a, b) == h.edge(b, a));
    }
    assert forall|a: int| 0 <= a < n implies #[trigger] f(a, vv) == 0 by {
        if g.is_active(vv) {
            lemma_active_below_len(g, vv);
        }
    }
    assert forall|a: int, b: int|
        0 <= a < n && 0 <= b < n && a != v1 && a != v2 && a != vv && b != v1 && b != v2 && b
            != vv implies #[trigger] e(a, b) == f(a, b) by {
        if g.is_pair(a, b) {
            assert(h.is_pair(a, b));
        }
    }
    assert forall|b: int| 0 <= b < n && b != v1 && b != v2 && b != vv implies f(v1 as int, b) + f(
        v2 as int,
        b,
    ) == e(vv, b) + #[trigger] m(b) by {
        if !g.is_third(v1 as int, v2 as int, b) {
            assert(!h.is_active(b));
            assert(!g.is_active(b));
        }
    }
    assert forall|b: int| 0 <= b < n implies 0 <= #[trigger] m(b) by {
        if g.is_third(v1 as int, v2 as int, b) {
            assert(g.is_pair(v1 as int, b));
            assert(g.is_pair(v2 as int, b));
            assert(h.is_pair(vv, b));
            assert(h.edge(vv, b) == g.merged_edge(v1 as int, v2 as int, b));
            lemma_two_edges_fit(g, v1 as int, v2 as int, b);
            assert(g.edge(v1 as int, b).ok());
            assert(g.edge(v2 as int, b).ok());
        }
    }
    lemma_square_fold_rows(f, e, m, n, v1 as int, v2 as int, vv, g.pair_magnitude(
        v1 as int,
        v2 as int,
    ));
    lemma_sum_nonneg(m, n);
}

impl Graph {
    /// Merges the active vertices `v1` and `v2` into a fresh vertex, and
    /// returns that vertex and what the merge costs.
    pub fn merge(&mut self, v1: usize, v2: usize) -> (res: (usize, u32))
        requires
            old(self).wf(),
            old(self).is_pair(v1 as int, v2 as int),
            !old(self).edge(v1 as int, v2 as int).fixed,
        ensures
            res.0 == old(self).len,
            res.1 == old(self).merge_cost(v1 as int, v2 as int),
            final(self).merged_from(old(self), v1, v2),
            final(self).wf(),
            final(self).weight_sum() <= old(self).weight_sum(),
    {
        let ghost g = *old(self);
        let ghost mt = |v3: int| g.merge_term(v1 as int, v2 as int, v3);
        proof {
            lemma_active_below_len(&g, v1 as int);
            lemma_active_below_len(&g, v2 as int);
            lemma_merge_cost_fits(&g, v1 as int, v2 as int);
            lemma_without_contains(g.active@, v1, v2);
            assert(g.active@.contains(v1));
            assert(g.active@.contains(v2));
            lemma_without_len(g.active@, v1, v2);
            assert(g.edge(v1 as int, v2 as int).ok());
        }
        remove_values(&mut self.active, v1, v2);
        let vv: usize = self.len;
        self.len += 1;
        let e12 = self.edges.get(v1, v2);
        let mut cost: u32 = if e12.weight < 0 {
            (-e12.weight) as u32
        } else {
            0
        };
        let ghost base = cost as int;
        proof {
            let rest = self.active@;
            lemma_without_contains(g.active@, v1, v2);
            assert forall|j: int| 0 <= j < rest.len() implies (#[trigger] rest[j]) < g.cap() by {
                assert(rest.contains(rest[j]));
                lemma_active_below_len(&g, rest[j] as int);
            }
            assert forall|c: int| 0 <= c < g.cap() implies #[trigger] mt(c) == if exists|j: int|
                0 <= j < rest.len() && rest[j] == c {
                mt(c)
            } else {
                0
            } by {
                if g.is_third(v1 as int, v2 as int, c) {
                    assert(g.active@.contains(c as usize));
                    assert(rest.contains(c as usize));
                }
            }
            lemma_seq_sum_as_sum(rest, mt, mt, rest.len() as int, g.cap());
        }
        let mut k: usize = 0;
        while k < self.active.len()
            invariant
                g.wf(),
                g.is_pair(v1 as int, v2 as int),
                g.merge_cost(v1 as int, v2 as int) <= u32::MAX,
                mt == |v3: int| g.merge_term(v1 as int, v2 as int, v3),
                forall|v3: int| 0 <= #[trigger] g.merge_term(v1 as int, v2 as int, v3),
                vv == g.len,
                self.len == g.len + 1,
                vv < g.cap(),
                v1 < vv,
                v2 < vv,
                self.active@ == without(g.active@, v1, v2),
                self.vertex_merged@ == g.vertex_merged@,
                self.edges.wf(),
                self.edges.spec_len() == g.cap(),
                k <= self.active.len(),
                cost == base + seq_sum(self.active@, mt, k as int),
                base + seq_sum(self.active@, mt, self.active.len() as int) <= u32::MAX,
                forall|j: int|
                    0 <= j < k ==> #[trigger] self.edge(vv as int, self.active@[j] as int)
                        == g.merged_edge(v1 as int, v2 as int, self.active@[j] as int),
                forall|a: int, b: int|
                    0 <= a < g.cap() && 0 <= b < g.cap() && !(a == vv && exists|j: int|
                        0 <= j < k && self.active@[j] == b) && !(b == vv && exists|j: int|
                        0 <= j < k && self.active@[j] == a) ==> #[trigger] self.edge(a, b)
                        == g.edge(a, b),
            decreases self.active.len() - k,
        {
            let v3: usize = self.active[k];
            proof {
                lemma_without_contains(g.active@, v1, v2);
                assert(self.active@.contains(v3));
                assert(g.active@.contains(v3));
                assert(g.is_third(v1 as int, v2 as int, v3 as int));
                lemma_active_below_len(&g, v3 as int);
                lemma_two_edges_fit(&g, v1 as int, v2 as int, v3 as int);
                assert(g.is_pair(v1 as int, v3 as int));
                assert(g.is_pair(v2 as int, v3 as int));
                assert(g.edge(v1 as int, v3 as int).ok());
                assert(g.edge(v2 as int, v3 as int).ok());
                assert(self.edge(v1 as int, v3 as int) == g.edge(v1 as int, v3 as int));
                assert(self.edge(v2 as int, v3 as int) == g.edge(v2 as int, v3 as int));
                assert forall|j: int| 0 <= j < self.active.len() implies mt(
                    #[trigger] self.active@[j] as int,
                ) >= 0 by {
                    assert(g.merge_term(v1 as int, v2 as int, self.active@[j] as int) >= 0);
                }
                lemma_seq_sum_mono(self.active@, mt, k as int + 1, self.active.len() as int);
                assert(seq_sum(self.active@, mt, k as int + 1) == seq_sum(
                    self.active@,
                    mt,
                    k as int,
                ) + mt(v3 as int));
            }
            let e13 = self.edges.get(v1, v3);
            let e23 = self.edges.get(v2, v3);
            if (e13.weight > 0) != (e23.weight > 0) {
                let a13: i32 = if e13.weight < 0 {
                    -e13.weight
                } else {
                    e13.weight
                };
                let a23: i32 = if e23.weight < 0 {
                    -e23.weight
                } else {
                    e23.weight
                };
                let least: i32 = if a13 <= a23 {
                    a13
                } else {
                    a23
                };
                cost += least as u32;
            }
            let merged = if e13.fixed || e23.fixed {
                Edge::none()
            } else {
                Edge::new(e13.weight + e23.weight)
            };
            let ghost before = *self;
            self.edges.set(vv, v3, merged);
            proof {
                assert forall|j: int| 0 <= j < k + 1 implies #[trigger] self.edge(
                    vv as int,
                    self.active@[j] as int,
                ) == g.merged_edge(v1 as int, v2 as int, self.active@[j] as int) by {
                    if j < k {
                        assert(self.active@.contains(self.active@[j]));
                        lemma_active_below_len(&g, self.active@[j] as int);
                        assert(before.edge(vv as int, self.active@[j] as int) == g.merged_edge(
                            v1 as int,
                            v2 as int,
                            self.active@[j] as int,
                        ));
                    }
                }
                assert forall|a: int, b: int|
                    0 <= a < g.cap() && 0 <= b < g.cap() && !(a == vv && exists|j: int|
                        0 <= j < k + 1 && self.active@[j] == b) && !(b == vv && exists|j: int|
                        0 <= j < k + 1 && self.active@[j] == a) implies #[trigger] self.edge(a, b)
                    == g.edge(a, b) by {
                    assert(self.active@[k as int] == v3);
                    if a == vv {
                        if exists|j: int| 0 <= j < k && self.active@[j] == b {
                            let j = choose|j: int| 0 <= j < k && self.active@[j] == b;
                            assert(0 <= j < k + 1 && self.active@[j] == b);
                        }
                        assert(b != v3);
                    }
                    if b == vv {
                        if exists|j: int| 0 <= j < k && self.active@[j] == a {
                            let j = choose|j: int| 0 <= j < k && self.active@[j] == a;
                            assert(0 <= j < k + 1 && self.active@[j] == a);
                        }
                        assert(a != v3);
                    }
                    assert(before.edge(a, b) == g.edge(a, b));
                }
            }
            k += 1;
        }
        let ghost at_exit = *self;
        self.active.push(vv);
        self.vertex_merged.set(v1, Some(vv));
        self.vertex_merged.set(v2, Some(vv));
        proof {
            let rest = without(g.active@, v1, v2);
            lemma_without_contains(g.active@, v1, v2);
            assert forall|a: int, b: int|
                0 <= a < self.cap() && 0 <= b < self.cap() && !(a == vv && g.is_third(
                    v1 as int,
                    v2 as int,
                    b,
                )) && !(b == vv && g.is_third(v1 as int, v2 as int, a)) implies #[trigger] self.edge(
                a,
                b,
            ) == g.edge(a, b) by {
                if a == vv && exists|j: int| 0 <= j < rest.len() && rest[j] == b {
                    assert(rest.contains(b as usize));
                    assert(g.active@.contains(b as usize));
                }
                if b == vv && exists|j: int| 0 <= j < rest.len() && rest[j] == a {
                    assert(rest.contains(a as usize));
                    assert(g.active@.contains(a as usize));
                }
                assert(at_exit.edge(a, b) == g.edge(a, b));
            }
            assert forall|v3: int| g.is_third(v1 as int, v2 as int, v3) implies #[trigger] self.edge(
                vv as int,
                v3,
            ) == g.merged_edge(v1 as int, v2 as int, v3) by {
                assert(g.active@.contains(v3 as usize));
                assert(rest.contains(v3 as usize));
                let j = choose|j: int| 0 <= j < rest.len() && rest[j] == v3 as usize;
                assert(at_exit.edge(vv as int, rest[j] as int) == g.merged_edge(
                    v1 as int,
                    v2 as int,
                    rest[j] as int,
                ));
            }
            lemma_merge_wf(&g, self, v1, v2);
        }
        (vv, cost)
    }

    /// The entries `(k + 1, active[k])`, for `k` from `from` on, of the third
    /// vertices whose edges to `v1` and to `v2` disagree in sign.
    pub fn conflict_edges(&self, v1: usize, v2: usize, from: usize) -> (found: Vec<(usize, usize)>)
        requires
            self.wf(),
            v1 < self.cap(),
            v2 < self.cap(),
        ensures
            found@ == self.select(
                from as int,
                self.active.len() as int,
                self.keeps_clash(v1 as int, v2 as int),
            ),
    {
        let mut found: Vec<(usize, usize)> = Vec::new();
        let mut k: usize = from;
        let ghost keep = self.keeps_clash(v1 as int, v2 as int);
        while k < self.active.len()
            invariant
                self.wf(),
                v1 < self.cap(),
                v2 < self.cap(),
                from <= k,
                keep == self.keeps_clash(v1 as int, v2 as int),
                found@ == self.select(
                    from as int,
                    if k <= self.active.len() {
                        k as int
                    } else {
                        self.active.len() as int
                    },
                    keep,
                ),
            decreases self.active.len() - k,
        {
            let v3: usize = self.active[k];
            if v3 != v1 && v3 != v2 && (self.edges.get(v1, v3).weight > 0) != (self.edges.get(
                v2,
                v3,
            ).weight > 0) {
                found.push((k + 1, v3));
            }
            k += 1;
        }
        found
    }

    /// The entries `(k + 1, active[k])`, for `k` from `from` on, of the third
    /// vertices that share a positive edge with `v1` and with `v2`.
    pub fn two_edges(&self, v1: usize, v2: usize, from: usize) -> (found: Vec<(usize, usize)>)
        requires
            self.wf(),
            v1 < self.cap(),
            v2 < self.cap(),
        ensures
            found@ == self.select(
                from as int,
                self.active.len() as int,
                self.keeps_shared(v1 as int, v2 as int),
            ),
    {
        let mut found: Vec<(usize, usize)> = Vec::new();
        let mut k: usize = from;
        let ghost keep = self.keeps_shared(v1 as int, v2 as int);
        while k < self.active.len()
            invariant
                self.wf(),
                v1 < self.cap(),
                v2 < self.cap(),
                from <= k,
                keep == self.keeps_shared(v1 as int, v2 as int),
                found@ == self.select(
                    from as int,
                    if k <= self.active.len() {
                        k as int
                    } else {
                        self.active.len() as int
                    },
                    keep,
                ),
            decreases self.active.len() - k,
        {
            let v3: usize = self.active[k];
            if v3 != v1 && v3 != v2 && self.edges.get(v1, v3).weight > 0 && self.edges.get(
                v2,
                v3,
            ).weight > 0 {
                found.push((k + 1, v3));
            }
            k += 1;
        }
        found
    }

    /// Takes back the merge of `v1` and `v2` into `vv`: the two are active
    /// again, `vv` is gone, and the forest forgets the merge.
    pub fn un_merge(&mut self, v1: usize, v2: usize, vv: usize)
        requires
            v1 < old(self).cap(),
            v2 < old(self).cap(),
            old(self).len > 0,
        ensures
            final(self).unmerged_from(old(self), v1, v2, vv),
    {
        remove_values(&mut self.active, vv, vv);
        self.active.push(v1);
        self.active.push(v2);
        self.vertex_merged.set(v1, None);
        self.vertex_merged.set(v2, None);
        self.len -= 1;
    }
}

/// A merge followed by the matching `un_merge` restores the graph: the same
/// set of active vertices, the same forest and the same state of every pair
/// of the vertices that existed before. Whatever happened in between may
/// have changed the graph `h` that the merge made into `h2`, as long as the
/// two agree on all that can be observed.
pub proof fn lemma_merge_un_merge(g: &Graph, h: &Graph, h2: &Graph, r: &Graph, v1: usize, v2: usize)
    requires
        g.wf(),
        g.is_pair(v1 as int, v2 as int),
        !g.edge(v1 as int, v2 as int).fixed,
        h.merged_from(g, v1, v2),
        h2.wf(),
        h2.same_state(h),
        r.unmerged_from(h2, v1, v2, g.len),
    ensures
        r.same_state(g),
        r.wf(),
        r.weight_sum() == g.weight_sum(),
        r.active.len() == g.active.len(),
        h2.active.len() == h.active.len(),
{
    let vv = g.len;
    lemma_merge_wf(g, h, v1, v2);
    crate::graph::lemma_same_state_wf(h, h2);
    lemma_merge_wf(g, h, v1, v2);
    lemma_active_below_len(g, v1 as int);
    lemma_active_below_len(g, v2 as int);
    lemma_without_contains(h2.active@, vv, vv);
    let rest = without(h2.active@, vv, vv);
    assert(r.vertex_merged@ =~= g.vertex_merged@);
    assert forall|v: int| r.is_active(v) <==> g.is_active(v) by {
        if r.is_active(v) {
            let k = choose|k: int| 0 <= k < r.active.len() && r.active@[k] == v;
            if k < rest.len() {
                assert(rest[k] == v);
                assert(rest.contains(v as usize));
                assert(h2.active@.contains(v as usize));
                assert(h2.is_active(v));
                assert(h.is_active(v));
            }
        }
        if g.is_active(v) {
            if v == v1 {
                assert(r.active@[rest.len() as int] == v1);
            } else if v == v2 {
                assert(r.active@[rest.len() as int + 1] == v2);
            } else {
                lemma_active_below_len(g, v);
                assert(g.is_third(v1 as int, v2 as int, v));
                assert(h.is_active(v));
                assert(h2.is_active(v));
                assert(h2.active@.contains(v as usize));
                assert(rest.contains(v as usize));
                let k = choose|k: int| 0 <= k < rest.len() && rest[k] == v as usize;
                assert(r.active@[k] == v);
            }
        }
    }
    assert(r.active@.no_duplicates()) by {
        assert forall|i: int, j: int|
            0 <= i < r.active.len() && 0 <= j < r.active.len() && i != j implies r.active@[i]
            != r.active@[j] by {
            if i < rest.len() {
                assert(rest.contains(rest[i]));
                assert(h2.is_active(rest[i] as int));
                assert(h.is_active(rest[i] as int));
            }
            if j < rest.len() {
                assert(rest.contains(rest[j]));
                assert(h2.is_active(rest[j] as int));
                assert(h.is_active(rest[j] as int));
            }
        }
    }
    assert forall|a: int, b: int| 0 <= a < r.len && 0 <= b < r.len implies #[trigger] r.edge(a, b)
        == g.edge(a, b) by {
        assert(r.edge(a, b) == h2.edge(a, b));
        assert(h2.edge(a, b) == h.edge(a, b));
    }
    lemma_same_state_wf(g, r);
}

/// A cut followed by the matching `un_cut` restores the graph. Whatever
/// happened in between may have changed the graph `h` that the cut made into
/// `h2`, as long as the two agree on all that can be observed.
pub proof fn lemma_cut_un_cut(g: &Graph, h: &Graph, h2: &Graph, r: &Graph, v1: usize, v2: usize)
    requires
        g.wf(),
        g.is_pair(v1 as int, v2 as int),
        h.same_vertices(g),
        h.edges_same_except(g, v1 as int, v2 as int),
        h2.wf(),
        h2.same_state(h),
        r.same_vertices(h2),
        r.edges_same_except(h2, v1 as int, v2 as int),
        r.edge(v1 as int, v2 as int) == g.edge(v1 as int, v2 as int),
    ensures
        r.same_state(g),
        r.wf(),
        r.weight_sum() == g.weight_sum(),
        r.active.len() == g.active.len(),
{
    lemma_active_below_len(g, v1 as int);
    lemma_active_below_len(g, v2 as int);
    assert forall|v: int| r.is_active(v) <==> g.is_active(v) by {
        assert(r.is_active(v) == h2.is_active(v));
        assert(h.is_active(v) == g.is_active(v));
    }
    assert forall|a: int, b: int| 0 <= a < r.len && 0 <= b < r.len implies #[trigger] r.edge(a, b)
        == g.edge(a, b) by {
        if (a == v1 && b == v2) || (a == v2 && b == v1) {
            assert(r.edge(v1 as int, v2 as int) == r.edge(v2 as int, v1 as int));
            assert(g.edge(v1 as int, v2 as int) == g.edge(v2 as int, v1 as int));
        } else {
            assert(r.edge(a, b) == h2.edge(a, b));
            assert(h2.edge(a, b) == h.edge(a, b));
        }
    }
    lemma_same_state_wf(g, r);
}

} // verus!
