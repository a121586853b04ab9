//! Thinning a graph out: cutting positive edges picked at random until
//! only a given number of them is left.

use vstd::prelude::*;
use rand::seq::SliceRandom;
use rand::thread_rng;
use crate::graph::{Edge, Graph};
use crate::merge::lemma_active_below_len;
use crate::sums::{
    pair_sum_upto, row_sum, lemma_pair_sum_upto, lemma_square_update_pair,
    lemma_square_is_twice_pairs,
};

verus! {

/// Whether the two entries name the same pair of vertices.
pub open spec fn same_pair(p: (usize, usize), q: (usize, usize)) -> bool {
    (p.0 == q.0 && p.1 == q.1) || (p.0 == q.1 && p.1 == q.0)
}

/// Whether the list names the pair `{a, b}`.
pub open spec fn lists(pairs: Seq<(usize, usize)>, a: int, b: int) -> bool {
    exists|k: int|
        0 <= k < pairs.len() && ((#[trigger] pairs[k]).0 == a && pairs[k].1 == b || pairs[k].0 == b
            && pairs[k].1 == a)
}

/// No two entries of the list name the same pair.
pub open spec fn all_different(pairs: Seq<(usize, usize)>) -> bool {
    forall|k: int, l: int|
        0 <= k < l < pairs.len() ==> !same_pair(#[trigger] pairs[k], #[trigger] pairs[l])
}

/// Picks `amount` of the edges at random, or all of them if there are
/// fewer, each at most once.
///
/// Calls `rand::seq::SliceRandom::choose_multiple` with the generator of
/// `rand::thread_rng`. The contract states what that method promises of
/// every outcome: as many entries as asked for, or as there are, taken
/// from different positions of the list. Which entries come, and in which
/// order, is left open.
#[verifier::external_body]
fn choose_edges(edges: &Vec<(usize, usize)>, amount: usize) -> (chosen: Vec<(usize, usize)>)
    ensures
        chosen.len() == if amount <= edges.len() {
            amount
        } else {
            edges.len()
        },
        exists|at: Seq<int>|
            at.len() == chosen.len() && at.no_duplicates() && forall|k: int|
                0 <= k < chosen.len() ==> 0 <= #[trigger] at[k] < edges.len() && chosen@[k]
                    == edges@[at[k]],
{
    let mut rng = thread_rng();
    edges.choose_multiple(&mut rng, amount).cloned().collect()
}

/// A cut of a positive edge leaves one positive edge less.
pub proof fn lemma_cut_positive_count(g: &Graph, h: &Graph, v1: int, v2: int)
    requires
        g.wf(),
        g.is_pair(v1, v2),
        h.same_vertices(g),
        h.edges_same_except(g, v1, v2),
        h.edge(v1, v2) == Edge::spec_none(),
    ensures
        h.positive_count() == g.positive_count() - if g.weight(v1, v2) > 0 {
            1int
        } else {
            0int
        },
{
    let n = g.cap();
    lemma_active_below_len(g, v1);
    lemma_active_below_len(g, v2);
    let f = |a: int, b: int| g.positive_one(a, b);
    let e = |a: int, b: int| h.positive_one(a, b);
    let delta = if g.weight(v1, v2) > 0 {
        1int
    } else {
        0int
    };
    assert forall|v: int| h.is_active(v) == g.is_active(v) by {}
    assert(h.edge(v1, v2) == h.edge(v2, v1));
    assert(g.edge(v1, v2) == g.edge(v2, v1));
    assert(h.is_pair(v1, v2) && h.is_pair(v2, v1) && g.is_pair(v2, v1));
    assert forall|a: int, b: int|
        0 <= a < n && 0 <= b < n && !(a == v1 && b == v2) && !(a == v2 && b == v1)
        implies #[trigger] f(a, b) == e(a, b) by {
        if g.is_pair(a, b) {
            assert(h.is_pair(a, b));
        }
    }
    lemma_square_update_pair(e, f, n, v1, v2, delta);
    assert forall|a: int, b: int| 0 <= a < n && 0 <= b < n implies #[trigger] f(a, b) == f(
        b,
        a,
    ) by {
        assert(g.edge(a, b) == g.edge(b, a));
    }
    assert forall|a: int, b: int| 0 <= a < n && 0 <= b < n implies #[trigger] e(a, b) == e(
        b,
        a,
    ) by {
        assert(h.edge(a, b) == h.edge(b, a));
    }
    lemma_square_is_twice_pairs(f, n);
    lemma_square_is_twice_pairs(e, n);
}

/// Cuts every pair that the list names. Where the list names different
/// positive pairs, as many positive edges are gone as the list is long.
pub fn cut_all(graph: &mut Graph, pairs: &Vec<(usize, usize)>)
    requires
        old(graph).wf(),
        forall|k: int|
            0 <= k < pairs.len() ==> old(graph).is_pair(
                (#[trigger] pairs@[k]).0 as int,
                pairs@[k].1 as int,
            ),
    ensures
        final(graph).wf(),
        final(graph).same_vertices(old(graph)),
        forall|a: int, b: int| #[trigger]
            old(graph).is_pair(a, b) ==> final(graph).edge(a, b) == if lists(pairs@, a, b) {
                Edge::spec_none()
            } else {
                old(graph).edge(a, b)
            },
        all_different(pairs@) && (forall|k: int|
            0 <= k < pairs.len() ==> old(graph).weight(
                (#[trigger] pairs@[k]).0 as int,
                pairs@[k].1 as int,
            ) > 0) ==> final(graph).positive_count() == old(graph).positive_count() - pairs.len(),
{
    let ghost o = *old(graph);
    let ghost counted = all_different(pairs@) && (forall|k: int|
        0 <= k < pairs.len() ==> o.weight((#[trigger] pairs@[k]).0 as int, pairs@[k].1 as int) > 0);
    let mut k: usize = 0;
    while k < pairs.len()
        invariant
            o.wf(),
            graph.wf(),
            graph.same_vertices(&o),
            k <= pairs.len(),
            forall|j: int|
                0 <= j < pairs.len() ==> o.is_pair((#[trigger] pairs@[j]).0 as int, pairs@[j].1 as int),
            counted == (all_different(pairs@) && (forall|j: int|
                0 <= j < pairs.len() ==> o.weight(
                    (#[trigger] pairs@[j]).0 as int,
                    pairs@[j].1 as int,
                ) > 0)),
            forall|a: int, b: int| #[trigger]
                o.is_pair(a, b) ==> graph.edge(a, b) == if lists(pairs@.take(k as int), a, b) {
                    Edge::spec_none()
                } else {
                    o.edge(a, b)
                },
            counted ==> graph.positive_count() == o.positive_count() - k,
        decreases pairs.len() - k,
    {
        let (v1, v2) = pairs[k];
        let ghost g = *graph;
        let ghost done = pairs@.take(k as int);
        proof {
            assert(o.is_pair(pairs@[k as int].0 as int, pairs@[k as int].1 as int));
            assert(graph.is_active(v1 as int) && graph.is_active(v2 as int));
            lemma_active_below_len(&o, v1 as int);
            lemma_active_below_len(&o, v2 as int);
            if counted {
                if lists(done, v1 as int, v2 as int) {
                    let j = choose|j: int|
                        0 <= j < done.len() && ((#[trigger] done[j]).0 == v1 as int && done[j].1
                            == v2 as int || done[j].0 == v2 as int && done[j].1 == v1 as int);
                    assert(done[j] == pairs@[j]);
                    assert(same_pair(pairs@[j], pairs@[k as int]));
                }
                assert(g.edge(v1 as int, v2 as int) == o.edge(v1 as int, v2 as int));
            }
        }
        graph.cut(v1, v2);
        proof {
            lemma_cut_positive_count(&g, graph, v1 as int, v2 as int);
            let next = pairs@.take(k as int + 1);
            assert(next.drop_last() == done);
            assert(next.last() == pairs@[k as int]);
            assert forall|a: int, b: int| #[trigger] o.is_pair(a, b) implies graph.edge(a, b)
                == if lists(next, a, b) {
                Edge::spec_none()
            } else {
                o.edge(a, b)
            } by {
                lemma_active_below_len(&o, a);
                lemma_active_below_len(&o, b);
                assert(graph.edge(v1 as int, v2 as int) == graph.edge(v2 as int, v1 as int));
                if (a == v1 && b == v2) || (a == v2 && b == v1) {
                    assert(next[k as int].0 == v1 && next[k as int].1 == v2);
                } else {
                    assert(graph.edge(a, b) == g.edge(a, b));
                    if lists(done, a, b) {
                        let j = choose|j: int|
                            0 <= j < done.len() && ((#[trigger] done[j]).0 == a && done[j].1 == b
                                || done[j].0 == b && done[j].1 == a);
                        assert(next[j] == done[j]);
                    }
                    if lists(next, a, b) {
                        let j = choose|j: int|
                            0 <= j < next.len() && ((#[trigger] next[j]).0 == a && next[j].1 == b
                                || next[j].0 == b && next[j].1 == a);
                        assert(j < k);
                        assert(done[j] == next[j]);
                    }
                }
            }
        }
        k += 1;
    }
    proof {
        assert(pairs@.take(pairs.len() as int) == pairs@);
    }
}

impl Graph {
    /// The entry names a positive pair of active vertices, the one at the
    /// later position first, and that position comes before `(i, j)`.
    pub open spec fn entry_before(&self, e: (usize, usize), i: int, j: int) -> bool {
        &&& self.is_pair(e.0 as int, e.1 as int)
        &&& self.weight(e.0 as int, e.1 as int) > 0
        &&& self.place(e.1 as int) < self.place(e.0 as int)
        &&& self.place(e.0 as int) < i || (self.place(e.0 as int) == i && self.place(e.1 as int)
            < j)
    }

    /// The positive pairs of active vertices, each once.
    pub fn positive_edges(&self) -> (edges: Vec<(usize, usize)>)
        requires
            self.wf(),
        ensures
            edges.len() == self.positive_count(),
            all_different(edges@),
            forall|k: int|
                0 <= k < edges.len() ==> self.is_pair(
                    (#[trigger] edges@[k]).0 as int,
                    edges@[k].1 as int,
                ) && self.weight(edges@[k].0 as int, edges@[k].1 as int) > 0,
            forall|a: int, b: int|
                self.is_pair(a, b) && self.weight(a, b) > 0 ==> #[trigger] lists(edges@, a, b),
    {
        let n: usize = self.active.len();
        let ghost f = |a: int, b: int| self.positive_one(a, b);
        let ghost fs = |i: int, j: int| self.positive_one(self.at(i), self.at(j));
        proof {
            assert forall|a: int, b: int| #[trigger] f(a, b) == f(b, a) by {
                assert(self.edge(a, b) == self.edge(b, a));
            }
            self.lemma_active_in_range();
            self.lemma_pairs_over_positions(f, fs);
        }
        let mut edges: Vec<(usize, usize)> = Vec::new();
        let mut i: usize = 0;
        while i < n
            invariant
                self.wf(),
                n == self.active.len(),
                i <= n,
                fs == |i: int, j: int| self.positive_one(self.at(i), self.at(j)),
                edges.len() == pair_sum_upto(fs, i as int, 0),
                forall|k: int|
                    0 <= k < edges.len() ==> self.entry_before(#[trigger] edges@[k], i as int, 0),
                all_different(edges@),
                forall|p: int, q: int|
                    0 <= q < p < i && self.weight(self.at(p), self.at(q)) > 0 ==> #[trigger] lists(
                        edges@,
                        self.at(p),
                        self.at(q),
                    ),
            decreases n - i,
        {
            let v1: usize = self.active[i];
            let mut j: usize = 0;
            while j < i
                invariant
                    self.wf(),
                    n == self.active.len(),
                    i < n,
                    j <= i,
                    v1 == self.active@[i as int],
                    fs == |i: int, j: int| self.positive_one(self.at(i), self.at(j)),
                    edges.len() == pair_sum_upto(fs, i as int, j as int),
                    forall|k: int|
                        0 <= k < edges.len() ==> self.entry_before(
                            #[trigger] edges@[k],
                            i as int,
                            j as int,
                        ),
                    all_different(edges@),
                    forall|p: int, q: int|
                        0 <= q < p <= i && (p < i || q < j) && self.weight(self.at(p), self.at(q))
                            > 0 ==> #[trigger] lists(edges@, self.at(p), self.at(q)),
                decreases i - j,
            {
                let v2: usize = self.active[j];
                proof {
                    assert(self.is_active(v1 as int) && self.is_active(v2 as int));
                    lemma_active_below_len(self, v1 as int);
                    lemma_active_below_len(self, v2 as int);
                    assert forall|a: int, b: int| 0 <= b < a < n implies #[trigger] fs(a, b)
                        >= 0 by {}
                    lemma_pair_sum_upto(fs, i as int, j as int, n as int);
                }
                if self.edges.get(v1, v2).weight > 0 {
                    let ghost before = edges@;
                    edges.push((v1, v2));
                    proof {
                        assert(self.is_pair(v1 as int, v2 as int));
                        crate::order::lemma_position(self.active@, i as int);
                        crate::order::lemma_position(self.active@, j as int);
                        assert forall|k: int| 0 <= k < edges.len() implies self.entry_before(
                            #[trigger] edges@[k],
                            i as int,
                            j as int + 1,
                        ) by {
                            if k < before.len() {
                                assert(edges@[k] == before[k]);
                            }
                        }
                        assert forall|k: int, l: int|
                            0 <= k < l < edges.len() implies !same_pair(
                            #[trigger] edges@[k],
                            #[trigger] edges@[l],
                        ) by {
                            if l == before.len() {
                                assert(edges@[k] == before[k]);
                                assert(self.entry_before(before[k], i as int, j as int));
                            } else {
                                assert(edges@[k] == before[k] && edges@[l] == before[l]);
                            }
                        }
                        assert forall|p: int, q: int|
                            0 <= q < p <= i && (p < i || q < j + 1) && self.weight(
                                self.at(p),
                                self.at(q),
                            ) > 0 implies #[trigger] lists(edges@, self.at(p), self.at(q)) by {
                            if p == i && q == j {
                                assert(edges@[before.len() as int].0 == self.at(p));
                            } else {
                                assert(lists(before, self.at(p), self.at(q)));
                                let k = choose|k: int|
                                    0 <= k < before.len() && ((#[trigger] before[k]).0 == self.at(p)
                                        && before[k].1 == self.at(q) || before[k].0 == self.at(q)
                                        && before[k].1 == self.at(p));
                                assert(edges@[k] == before[k]);
                            }
                        }
                    }
                }
                j += 1;
            }
            proof {
                assert forall|a: int, b: int| 0 <= b < a < n implies #[trigger] fs(a, b) >= 0 by {}
                lemma_pair_sum_upto(fs, i as int, i as int, n as int);
            }
            i += 1;
        }
        proof {
            assert(row_sum(fs, n as int, 0) == 0);
            assert forall|k: int| 0 <= k < edges.len() implies self.is_pair(
                (#[trigger] edges@[k]).0 as int,
                edges@[k].1 as int,
            ) && self.weight(edges@[k].0 as int, edges@[k].1 as int) > 0 by {
                assert(self.entry_before(edges@[k], n as int, 0));
            }
            assert forall|a: int, b: int|
                self.is_pair(a, b) && self.weight(a, b) > 0 implies #[trigger] lists(
                edges@,
                a,
                b,
            ) by {
                crate::turns::lemma_place(self, a);
                crate::turns::lemma_place(self, b);
                let p = self.place(a);
                let q = self.place(b);
                assert(self.edge(a, b) == self.edge(b, a));
                if q < p {
                    assert(lists(edges@, self.at(p), self.at(q)));
                } else {
                    assert(lists(edges@, self.at(q), self.at(p)));
                    let k = choose|k: int|
                        0 <= k < edges.len() && ((#[trigger] edges@[k]).0 == self.at(q)
                            && edges@[k].1 == self.at(p) || edges@[k].0 == self.at(p)
                            && edges@[k].1 == self.at(q));
                }
            }
        }
        edges
    }
}

/// Cuts positive edges picked at random until `num_edges` of them are
/// left; where there are no more than that, nothing changes. Whatever is
/// picked, a pair that changes was positive and is cut.
pub fn simplify(graph: &mut Graph, num_edges: usize)
    requires
        old(graph).wf(),
    ensures
        final(graph).wf(),
        final(graph).same_vertices(old(graph)),
        final(graph).positive_count() == if old(graph).positive_count() <= num_edges {
            old(graph).positive_count()
        } else {
            num_edges as int
        },
        forall|a: int, b: int| #[trigger]
            old(graph).is_pair(a, b) ==> final(graph).edge(a, b) == old(graph).edge(a, b) || (old(
                graph,
            ).weight(a, b) > 0 && final(graph).edge(a, b) == Edge::spec_none()),
{
    let edges = graph.positive_edges();
    let amount: usize = if edges.len() > num_edges {
        edges.len() - num_edges
    } else {
        0
    };
    let chosen = choose_edges(&edges, amount);
    proof {
        lemma_chosen(edges@, chosen@);
        assert forall|k: int| 0 <= k < chosen.len() implies old(graph).is_pair(
            (#[trigger] chosen@[k]).0 as int,
            chosen@[k].1 as int,
        ) && old(graph).weight(chosen@[k].0 as int, chosen@[k].1 as int) > 0 by {
            assert(edges@.contains(chosen@[k]));
            let j = choose|j: int| 0 <= j < edges.len() && edges@[j] == chosen@[k];
            assert(old(graph).is_pair(edges@[j].0 as int, edges@[j].1 as int));
        }
    }
    cut_all(graph, &chosen);
    proof {
        assert forall|a: int, b: int| #[trigger] old(graph).is_pair(a, b) implies graph.edge(a, b)
            == old(graph).edge(a, b) || (old(graph).weight(a, b) > 0 && graph.edge(a, b)
            == Edge::spec_none()) by {
            if lists(chosen@, a, b) {
                let k = choose|k: int|
                    0 <= k < chosen.len() && ((#[trigger] chosen@[k]).0 == a && chosen@[k].1 == b
                        || chosen@[k].0 == b && chosen@[k].1 == a);
                assert(old(graph).weight(chosen@[k].0 as int, chosen@[k].1 as int) > 0);
                assert(old(graph).edge(a, b) == old(graph).edge(b, a));
            }
        }
    }
}

/// Entries taken from different positions of a list of different pairs
/// are different pairs, and each of them is an entry of the list.
pub proof fn lemma_chosen(edges: Seq<(usize, usize)>, chosen: Seq<(usize, usize)>)
    requires
        all_different(edges),
        exists|at: Seq<int>|
            at.len() == chosen.len() && at.no_duplicates() && forall|k: int|
                0 <= k < chosen.len() ==> 0 <= #[trigger] at[k] < edges.len() && chosen[k]
                    == edges[at[k]],
    ensures
        all_different(chosen),
        forall|k: int| 0 <= k < chosen.len() ==> edges.contains(#[trigger] chosen[k]),
{
    let at = choose|at: Seq<int>|
        at.len() == chosen.len() && at.no_duplicates() && forall|k: int|
            0 <= k < chosen.len() ==> 0 <= #[trigger] at[k] < edges.len() && chosen[k]
                == edges[at[k]];
    assert forall|k: int, l: int| 0 <= k < l < chosen.len() implies !same_pair(
        #[trigger] chosen[k],
        #[trigger] chosen[l],
    ) by {
        assert(at[k] != at[l]);
        assert(chosen[k] == edges[at[k]]);
        assert(chosen[l] == edges[at[l]]);
        if at[k] < at[l] {
            assert(!same_pair(edges[at[k]], edges[at[l]]));
        } else {
            assert(!same_pair(edges[at[l]], edges[at[k]]));
        }
    }
    assert forall|k: int| 0 <= k < chosen.len() implies edges.contains(#[trigger] chosen[k]) by {
        assert(chosen[k] == edges[at[k]]);
    }
}

} // verus!
