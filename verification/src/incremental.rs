//! Keeping a packing up to date while the graph changes: the triples of
//! a vertex, of two vertices or of an edge leave before the change and
//! take their turn again after it.

use vstd::prelude::*;
use crate::graph::Graph;
use crate::merge::lemma_active_below_len;
use crate::triple::Triple;
use crate::packing::{Packing, ascending, claimed, total, sound, lemma_claimed_nonneg};
use crate::turns::{
    holds, with_edge, with_vertex, with_either, edge_claims, vertex_claims, vertex_claims_inner,
    pair_claims, pair_claims_inner, swap_removed, purged, lemma_edge_turn, lemma_edge_turns_bounds,
    lemma_vertex_turn, lemma_vertex_turns_bounds,
};

verus! {

/// What a triple claims against the pair `{a, b}`.
pub open spec fn claim_of(t: Triple, a: int, b: int) -> int {
    if t.has_edge(a, b) {
        t.cost as int
    } else {
        0
    }
}

proof fn lemma_claimed_update(ts: Seq<Triple>, i: int, t: Triple, a: int, b: int)
    requires
        0 <= i < ts.len(),
    ensures
        claimed(ts.update(i, t), a, b) == claimed(ts, a, b) - claim_of(ts[i], a, b) + claim_of(
            t,
            a,
            b,
        ),
        total(ts.update(i, t)) == total(ts) - ts[i].cost + t.cost,
    decreases ts.len(),
{
    let us = ts.update(i, t);
    if i == ts.len() - 1 {
        assert(us.drop_last() =~= ts.drop_last());
    } else {
        assert(us.drop_last() =~= ts.drop_last().update(i, t));
        lemma_claimed_update(ts.drop_last(), i, t, a, b);
    }
}

/// Taking an entry out of a packing takes its claims out.
pub proof fn lemma_swap_removed(ts: Seq<Triple>, i: int, a: int, b: int)
    requires
        0 <= i < ts.len(),
    ensures
        claimed(swap_removed(ts, i), a, b) == claimed(ts, a, b) - claim_of(ts[i], a, b),
        total(swap_removed(ts, i)) == total(ts) - ts[i].cost,
        0 <= claimed(swap_removed(ts, i), a, b),
        0 <= total(swap_removed(ts, i)),
{
    lemma_claimed_update(ts, i, ts.last(), a, b);
    lemma_claimed_nonneg(swap_removed(ts, i), a, b);
}

/// A packing stays sound when an entry is taken out.
pub proof fn lemma_swap_removed_sound(g: &Graph, ts: Seq<Triple>, i: int)
    requires
        sound(g, ts),
        0 <= i < ts.len(),
    ensures
        sound(g, swap_removed(ts, i)),
{
    let us = swap_removed(ts, i);
    assert forall|k: int| 0 <= k < us.len() implies {
        let t = #[trigger] us[k];
        &&& t.sorted()
        &&& g.is_triple(t.v0(), t.v1(), t.v2())
        &&& g.is_conflict(t.v0(), t.v1(), t.v2())
        &&& t.cost > 0
    } by {
        if k == i {
            assert(us[k] == ts[ts.len() - 1]);
        } else {
            assert(us[k] == ts[k]);
        }
    }
    assert forall|a: int, b: int| #[trigger] g.is_pair(a, b) implies claimed(us, a, b)
        <= crate::graph::abs(g.weight(a, b)) by {
        lemma_swap_removed(ts, i, a, b);
    }
}

/// A triple holds `x` or `y` where it holds `x` and not `y`, `y` and not
/// `x`, or both.
pub proof fn lemma_either(g: &Graph, x: int, y: int)
    requires
        x != y,
    ensures
        forall|t: (int, int, int)|
            g.triples_where(with_either(x, y)).contains(t) <==> (g.triples_where(
                with_vertex(x, y),
            ).contains(t) || g.triples_where(with_vertex(y, x)).contains(t) || g.triples_where(
                with_edge(x, y),
            ).contains(t)),
        forall|t: (int, int, int)|
            !(g.triples_where(with_vertex(x, y)).contains(t) && g.triples_where(
                with_edge(x, y),
            ).contains(t)),
        forall|t: (int, int, int)|
            !(g.triples_where(with_vertex(y, x)).contains(t) && g.triples_where(
                with_edge(x, y),
            ).contains(t)),
{
}

impl Packing {
    /// Takes out the triples that hold the edge of `v1` and `v2`, if `both`
    /// is set, and else those that hold `v1` or `v2`, and gives back what
    /// they claimed.
    fn drop_triples(
        &mut self,
        graph: &Graph,
        v1: usize,
        v2: usize,
        both: bool,
        Ghost(gone): Ghost<spec_fn(Triple) -> bool>,
    )
        requires
            graph.wf(),
            old(self).wf(graph),
            both ==> v1 != v2,
            forall|t: Triple| #[trigger]
                gone(t) == if both {
                    t.has_edge(v1 as int, v2 as int)
                } else {
                    t.has_vertex(v1 as int) || t.has_vertex(v2 as int)
                },
        ensures
            final(self).wf(graph),
            final(self).counted == old(self).counted,
            final(self).triples@ == purged(old(self).triples@, gone, old(self).triples.len() as int),
    {
        let ghost all = self.triples@;
        let mut i: usize = self.triples.len();
        while i > 0
            invariant
                graph.wf(),
                self.wf(graph),
                both ==> v1 != v2,
                self.counted == old(self).counted,
                i <= self.triples.len(),
                forall|t: Triple| #[trigger]
                    gone(t) == if both {
                        t.has_edge(v1 as int, v2 as int)
                    } else {
                        t.has_vertex(v1 as int) || t.has_vertex(v2 as int)
                    },
                purged(all, gone, all.len() as int) == purged(self.triples@, gone, i as int),
            decreases i,
        {
            i -= 1;
            let t: Triple = self.triples[i];
            let ghost ts = self.triples@;
            proof {
                assert(ts[i as int].sorted());
                assert(graph.is_triple(t.v0(), t.v1(), t.v2()));
                lemma_active_below_len(graph, t.v0());
                lemma_active_below_len(graph, t.v1());
                lemma_active_below_len(graph, t.v2());
            }
            let found = if both {
                t.edge([v1, v2])
            } else {
                t.vertex(v1) || t.vertex(v2)
            };
            if found {
                let triple = self.triples.swap_remove(i);
                proof {
                    assert(self.triples@ == swap_removed(ts, i as int));
                    assert(graph.is_pair(t.v0(), t.v1()));
                    assert(graph.is_pair(t.v0(), t.v2()));
                    assert(graph.is_pair(t.v1(), t.v2()));
                    lemma_swap_removed(ts, i as int, t.v0(), t.v1());
                    lemma_swap_removed(ts, i as int, t.v0(), t.v2());
                    lemma_swap_removed(ts, i as int, t.v1(), t.v2());
                    lemma_swap_removed_sound(graph, ts, i as int);
                }
                self.remove_triple_cost(triple);
                proof {
                    assert forall|a: int, b: int| #[trigger]
                        graph.is_pair(a, b) implies self.edge_cost.at(a, b) == claimed(
                        self.triples@,
                        a,
                        b,
                    ) by {
                        lemma_swap_removed(ts, i as int, a, b);
                        lemma_active_below_len(graph, a);
                        lemma_active_below_len(graph, b);
                    }
                }
            }
        }
    }

    /// Gives every triple of `v1`, `v2` and a third active vertex its turn.
    pub fn add_edge(&mut self, graph: &Graph, v1: usize, v2: usize)
        requires
            graph.wf(),
            old(self).wf(graph),
            graph.is_pair(v1 as int, v2 as int),
            forall|t: (int, int, int)|
                graph.triples_where(with_edge(v1 as int, v2 as int)).contains(t) ==> !old(
                    self,
                ).counted@.contains(t),
        ensures
            final(self).wf(graph),
            final(self).counted@ == old(self).counted@.union(
                graph.triples_where(with_edge(v1 as int, v2 as int)),
            ),
            final(self).triples@ == edge_claims(
                graph,
                old(self).triples@,
                v1 as int,
                v2 as int,
                graph.active.len() as int,
            ),
    {
        let n: usize = graph.active.len();
        let ghost base = self.counted@;
        let ghost start = self.triples@;
        proof {
            lemma_edge_turns_bounds(graph, v1 as int, v2 as int);
            assert(base.union(graph.edge_turns(v1 as int, v2 as int, 0)) =~= base);
        }
        let mut i: usize = 0;
        while i < n
            invariant
                graph.wf(),
                self.wf(graph),
                graph.is_pair(v1 as int, v2 as int),
                n == graph.active.len(),
                i <= n,
                forall|t: (int, int, int)|
                    graph.triples_where(with_edge(v1 as int, v2 as int)).contains(t)
                        ==> !base.contains(t),
                self.counted@ == base.union(graph.edge_turns(v1 as int, v2 as int, i as int)),
                self.triples@ == edge_claims(graph, start, v1 as int, v2 as int, i as int),
            decreases n - i,
        {
            let v3: usize = graph.active[i];
            proof {
                lemma_edge_turn(graph, v1 as int, v2 as int, i as int);
            }
            if v1 != v3 && v2 != v3 {
                self.add_triple(graph, v1, v2, v3);
                proof {
                    let t = ascending(v1 as int, v2 as int, v3 as int);
                    assert(base.union(graph.edge_turns(v1 as int, v2 as int, i as int)).insert(t)
                        =~= base.union(graph.edge_turns(v1 as int, v2 as int, i as int + 1)));
                }
            }
            i += 1;
        }
        proof {
            lemma_edge_turns_bounds(graph, v1 as int, v2 as int);
        }
    }

    /// Forgets the conflicts of every triple of `v1`, `v2` and a third active vertex.
    pub fn remove_edge_conflicts(&mut self, graph: &Graph, v1: usize, v2: usize)
        requires
            graph.wf(),
            old(self).wf(graph),
            graph.is_pair(v1 as int, v2 as int),
            forall|t: (int, int, int)|
                graph.triples_where(with_edge(v1 as int, v2 as int)).contains(t) ==> old(
                    self,
                ).counted@.contains(t),
        ensures
            final(self).wf(graph),
            final(self).counted@ == old(self).counted@.difference(
                graph.triples_where(with_edge(v1 as int, v2 as int)),
            ),
            final(self).triples@ == old(self).triples@,
    {
        let n: usize = graph.active.len();
        let ghost base = self.counted@;
        proof {
            lemma_edge_turns_bounds(graph, v1 as int, v2 as int);
            assert(base.difference(graph.edge_turns(v1 as int, v2 as int, 0)) =~= base);
        }
        let mut i: usize = 0;
        while i < n
            invariant
                graph.wf(),
                self.wf(graph),
                graph.is_pair(v1 as int, v2 as int),
                n == graph.active.len(),
                i <= n,
                forall|t: (int, int, int)|
                    graph.triples_where(with_edge(v1 as int, v2 as int)).contains(t)
                        ==> base.contains(t),
                self.counted@ == base.difference(graph.edge_turns(v1 as int, v2 as int, i as int)),
                self.triples@ == old(self).triples@,
            decreases n - i,
        {
            let v3: usize = graph.active[i];
            proof {
                lemma_edge_turn(graph, v1 as int, v2 as int, i as int);
            }
            if v1 != v3 && v2 != v3 {
                self.remove_triple_conflicts(graph, v1, v2, v3);
                proof {
                    let t = ascending(v1 as int, v2 as int, v3 as int);
                    assert(base.difference(
                        graph.edge_turns(v1 as int, v2 as int, i as int),
                    ).remove(t) =~= base.difference(
                        graph.edge_turns(v1 as int, v2 as int, i as int + 1),
                    ));
                }
            }
            i += 1;
        }
        proof {
            lemma_edge_turns_bounds(graph, v1 as int, v2 as int);
        }
    }

    /// Takes the triples that hold the edge of `v1` and `v2` out of the
    /// packing, and forgets the conflicts of the edge.
    pub fn remove_edge(&mut self, graph: &Graph, v1: usize, v2: usize)
        requires
            graph.wf(),
            old(self).wf(graph),
            graph.is_pair(v1 as int, v2 as int),
            forall|t: (int, int, int)|
                graph.triples_where(with_edge(v1 as int, v2 as int)).contains(t) ==> old(
                    self,
                ).counted@.contains(t),
        ensures
            final(self).wf(graph),
            final(self).counted@ == old(self).counted@.difference(
                graph.triples_where(with_edge(v1 as int, v2 as int)),
            ),
            final(self).triples@ == purged(
                old(self).triples@,
                |t: Triple| t.has_edge(v1 as int, v2 as int),
                old(self).triples.len() as int,
            ),
    {
        self.drop_triples(graph, v1, v2, true, Ghost(|t: Triple| t.has_edge(v1 as int, v2 as int)));
        self.remove_edge_conflicts(graph, v1, v2)
    }

    /// Gives every triple of `v1` and two other active vertices its turn.
    pub fn add_vertex(&mut self, graph: &Graph, v1: usize)
        requires
            graph.wf(),
            old(self).wf(graph),
            graph.is_active(v1 as int),
            forall|t: (int, int, int)|
                graph.triples_where(with_vertex(v1 as int, v1 as int)).contains(t) ==> !old(
                    self,
                ).counted@.contains(t),
        ensures
            final(self).wf(graph),
            final(self).counted@ == old(self).counted@.union(
                graph.triples_where(with_vertex(v1 as int, v1 as int)),
            ),
            final(self).triples@ == vertex_claims(
                graph,
                old(self).triples@,
                v1 as int,
                graph.active.len() as int,
            ),
    {
        let n: usize = graph.active.len();
        let ghost x = v1 as int;
        let ghost base = self.counted@;
        let ghost start = self.triples@;
        proof {
            lemma_vertex_turns_bounds(graph, x, x, 0);
            assert(base.union(graph.vertex_turns(x, x, 0, 0)) =~= base);
        }
        let mut i2: usize = 0;
        while i2 < n
            invariant
                graph.wf(),
                self.wf(graph),
                graph.is_active(x),
                x == v1,
                n == graph.active.len(),
                i2 <= n,
                forall|t: (int, int, int)|
                    graph.triples_where(with_vertex(x, x)).contains(t) ==> !base.contains(t),
                self.counted@ == base.union(graph.vertex_turns(x, x, i2 as int, 0)),
                self.triples@ == vertex_claims(graph, start, x, i2 as int),
            decreases n - i2,
        {
            let v2: usize = graph.active[i2];
            proof {
                lemma_vertex_turns_bounds(graph, x, x, i2 as int);
            }
            if v1 != v2 {
                let ghost mid = self.triples@;
                let mut i3: usize = i2 + 1;
                while i3 < n
                    invariant
                        graph.wf(),
                        self.wf(graph),
                        graph.is_active(x),
                        x == v1,
                        n == graph.active.len(),
                        i2 < i3 <= n,
                        v2 == graph.active@[i2 as int],
                        v1 != v2,
                        forall|t: (int, int, int)|
                            graph.triples_where(with_vertex(x, x)).contains(t) ==> !base.contains(
                                t,
                            ),
                        self.counted@ == base.union(
                            graph.vertex_turns(x, x, i2 as int, i3 as int),
                        ),
                        self.triples@ == vertex_claims_inner(
                            graph,
                            mid,
                            x,
                            i2 as int,
                            i3 as int,
                        ),
                    decreases n - i3,
                {
                    let v3: usize = graph.active[i3];
                    proof {
                        lemma_vertex_turn(graph, x, x, i2 as int, i3 as int);
                    }
                    if v3 != v1 {
                        self.add_triple(graph, v1, v2, v3);
                        proof {
                            let t = ascending(x, v2 as int, v3 as int);
                            assert(base.union(
                                graph.vertex_turns(x, x, i2 as int, i3 as int),
                            ).insert(t) =~= base.union(
                                graph.vertex_turns(x, x, i2 as int, i3 as int + 1),
                            ));
                        }
                    }
                    i3 += 1;
                }
            }
            i2 += 1;
        }
        proof {
            lemma_vertex_turns_bounds(graph, x, x, 0);
        }
    }

    /// Takes the triples that hold `v1` out of the packing, and forgets
    /// the conflicts of every triple of `v1` and two other active vertices.
    pub fn remove_vertex(&mut self, graph: &Graph, v1: usize)
        requires
            graph.wf(),
            old(self).wf(graph),
            graph.is_active(v1 as int),
            forall|t: (int, int, int)|
                graph.triples_where(with_vertex(v1 as int, v1 as int)).contains(t) ==> old(
                    self,
                ).counted@.contains(t),
        ensures
            final(self).wf(graph),
            final(self).counted@ == old(self).counted@.difference(
                graph.triples_where(with_vertex(v1 as int, v1 as int)),
            ),
            final(self).triples@ == purged(
                old(self).triples@,
                |t: Triple| t.has_vertex(v1 as int),
                old(self).triples.len() as int,
            ),
    {
        self.drop_triples(graph, v1, v1, false, Ghost(|t: Triple| t.has_vertex(v1 as int)));
        let n: usize = graph.active.len();
        let ghost x = v1 as int;
        let ghost base = self.counted@;
        let ghost left = self.triples@;
        proof {
            lemma_vertex_turns_bounds(graph, x, x, 0);
            assert(base.difference(graph.vertex_turns(x, x, 0, 0)) =~= base);
        }
        let mut i2: usize = 0;
        while i2 < n
            invariant
                graph.wf(),
                self.wf(graph),
                graph.is_active(x),
                x == v1,
                n == graph.active.len(),
                i2 <= n,
                forall|t: (int, int, int)|
                    graph.triples_where(with_vertex(x, x)).contains(t) ==> base.contains(t),
                self.counted@ == base.difference(graph.vertex_turns(x, x, i2 as int, 0)),
                self.triples@ == left,
            decreases n - i2,
        {
            let v2: usize = graph.active[i2];
            proof {
                lemma_vertex_turns_bounds(graph, x, x, i2 as int);
            }
            if v2 != v1 {
                let mut i3: usize = i2 + 1;
                while i3 < n
                    invariant
                        graph.wf(),
                        self.wf(graph),
                        graph.is_active(x),
                        x == v1,
                        n == graph.active.len(),
                        i2 < i3 <= n,
                        v2 == graph.active@[i2 as int],
                        v1 != v2,
                        forall|t: (int, int, int)|
                            graph.triples_where(with_vertex(x, x)).contains(t) ==> base.contains(t),
                        self.counted@ == base.difference(
                            graph.vertex_turns(x, x, i2 as int, i3 as int),
                        ),
                        self.triples@ == left,
                    decreases n - i3,
                {
                    let v3: usize = graph.active[i3];
                    proof {
                        lemma_vertex_turn(graph, x, x, i2 as int, i3 as int);
                    }
                    if v3 != v1 {
                        self.remove_triple_conflicts(graph, v1, v2, v3);
                        proof {
                            let t = ascending(x, v2 as int, v3 as int);
                            assert(base.difference(
                                graph.vertex_turns(x, x, i2 as int, i3 as int),
                            ).remove(t) =~= base.difference(
                                graph.vertex_turns(x, x, i2 as int, i3 as int + 1),
                            ));
                        }
                    }
                    i3 += 1;
                }
            }
            i2 += 1;
        }
        proof {
            lemma_vertex_turns_bounds(graph, x, x, 0);
        }
    }

    /// Gives every triple that holds `v1` or `v2` its turn: those of one
    /// of the two and two other vertices first, then those of the edge.
    pub fn add_vertex_pair(&mut self, graph: &Graph, v1: usize, v2: usize)
        requires
            graph.wf(),
            old(self).wf(graph),
            graph.is_pair(v1 as int, v2 as int),
            forall|t: (int, int, int)|
                graph.triples_where(with_either(v1 as int, v2 as int)).contains(t) ==> !old(
                    self,
                ).counted@.contains(t),
        ensures
            final(self).wf(graph),
            final(self).counted@ == old(self).counted@.union(
                graph.triples_where(with_either(v1 as int, v2 as int)),
            ),
            final(self).triples@ == edge_claims(
                graph,
                pair_claims(
                    graph,
                    old(self).triples@,
                    v1 as int,
                    v2 as int,
                    graph.active.len() as int,
                ),
                v1 as int,
                v2 as int,
                graph.active.len() as int,
            ),
    {
        let n: usize = graph.active.len();
        let ghost x = v1 as int;
        let ghost y = v2 as int;
        let ghost base = self.counted@;
        let ghost start = self.triples@;
        proof {
            lemma_vertex_turns_bounds(graph, x, y, 0);
            lemma_vertex_turns_bounds(graph, y, x, 0);
            assert(base.union(graph.vertex_turns(x, y, 0, 0)).union(
                graph.vertex_turns(y, x, 0, 0),
            ) =~= base);
        }
        let mut i3: usize = 0;
        while i3 < n
            invariant
                graph.wf(),
                self.wf(graph),
                graph.is_pair(x, y),
                x == v1,
                y == v2,
                n == graph.active.len(),
                i3 <= n,
                forall|t: (int, int, int)|
                    graph.triples_where(with_either(x, y)).contains(t) ==> !base.contains(t),
                self.counted@ == base.union(graph.vertex_turns(x, y, i3 as int, 0)).union(
                    graph.vertex_turns(y, x, i3 as int, 0),
                ),
                self.triples@ == pair_claims(graph, start, x, y, i3 as int),
            decreases n - i3,
        {
            let v3: usize = graph.active[i3];
            proof {
                lemma_vertex_turns_bounds(graph, x, y, i3 as int);
                lemma_vertex_turns_bounds(graph, y, x, i3 as int);
            }
            if v1 != v3 && v2 != v3 {
                let ghost mid = self.triples@;
                let mut i4: usize = i3 + 1;
                while i4 < n
                    invariant
                        graph.wf(),
                        self.wf(graph),
                        graph.is_pair(x, y),
                        x == v1,
                        y == v2,
                        n == graph.active.len(),
                        i3 < i4 <= n,
                        v3 == graph.active@[i3 as int],
                        v1 != v3,
                        v2 != v3,
                        forall|t: (int, int, int)|
                            graph.triples_where(with_either(x, y)).contains(t) ==> !base.contains(
                                t,
                            ),
                        self.counted@ == base.union(
                            graph.vertex_turns(x, y, i3 as int, i4 as int),
                        ).union(graph.vertex_turns(y, x, i3 as int, i4 as int)),
                        self.triples@ == pair_claims_inner(
                            graph,
                            mid,
                            x,
                            y,
                            i3 as int,
                            i4 as int,
                        ),
                    decreases n - i4,
                {
                    let v4: usize = graph.active[i4];
                    proof {
                        lemma_vertex_turn(graph, x, y, i3 as int, i4 as int);
                        lemma_vertex_turn(graph, y, x, i3 as int, i4 as int);
                    }
                    if v4 != v1 && v4 != v2 {
                        let ghost t1 = ascending(x, v3 as int, v4 as int);
                        let ghost t2 = ascending(y, v3 as int, v4 as int);
                        let ghost one = graph.vertex_turns(x, y, i3 as int, i4 as int);
                        let ghost two = graph.vertex_turns(y, x, i3 as int, i4 as int);
                        proof {
                            assert(graph.triples_where(with_either(x, y)).contains(t1));
                            assert(graph.triples_where(with_either(x, y)).contains(t2));
                            assert(!two.contains(t1));
                            assert(!one.contains(t2));
                        }
                        self.add_triple(graph, v1, v3, v4);
                        self.add_triple(graph, v2, v3, v4);
                        proof {
                            assert(base.union(one).union(two).insert(t1).insert(t2) =~= base.union(
                                graph.vertex_turns(x, y, i3 as int, i4 as int + 1),
                            ).union(graph.vertex_turns(y, x, i3 as int, i4 as int + 1)));
                        }
                    }
                    i4 += 1;
                }
            }
            i3 += 1;
        }
        proof {
            lemma_vertex_turns_bounds(graph, x, y, 0);
            lemma_vertex_turns_bounds(graph, y, x, 0);
            lemma_either(graph, x, y);
            assert forall|t: (int, int, int)|
                graph.triples_where(with_edge(x, y)).contains(t)
                implies !self.counted@.contains(t) by {
                assert(graph.triples_where(with_either(x, y)).contains(t));
            }
        }
        let ghost so_far = self.counted@;
        self.add_edge(graph, v1, v2);
        proof {
            assert(so_far.union(graph.triples_where(with_edge(x, y))) =~= base.union(
                graph.triples_where(with_either(x, y)),
            ));
        }
    }

    /// Takes the triples that hold `v1` or `v2` out of the packing, and
    /// forgets the conflicts of every triple that holds one of the two.
    pub fn remove_vertex_pair(&mut self, graph: &Graph, v1: usize, v2: usize)
        requires
            graph.wf(),
            old(self).wf(graph),
            graph.is_pair(v1 as int, v2 as int),
            forall|t: (int, int, int)|
                graph.triples_where(with_either(v1 as int, v2 as int)).contains(t) ==> old(
                    self,
                ).counted@.contains(t),
        ensures
            final(self).wf(graph),
            final(self).counted@ == old(self).counted@.difference(
                graph.triples_where(with_either(v1 as int, v2 as int)),
            ),
            final(self).triples@ == purged(
                old(self).triples@,
                |t: Triple| t.has_vertex(v1 as int) || t.has_vertex(v2 as int),
                old(self).triples.len() as int,
            ),
    {
        self.drop_triples(
            graph,
            v1,
            v2,
            false,
            Ghost(|t: Triple| t.has_vertex(v1 as int) || t.has_vertex(v2 as int)),
        );
        let n: usize = graph.active.len();
        let ghost x = v1 as int;
        let ghost y = v2 as int;
        let ghost base = self.counted@;
        let ghost left = self.triples@;
        proof {
            lemma_vertex_turns_bounds(graph, x, y, 0);
            lemma_vertex_turns_bounds(graph, y, x, 0);
            assert(base.difference(graph.vertex_turns(x, y, 0, 0)).difference(
                graph.vertex_turns(y, x, 0, 0),
            ) =~= base);
        }
        let mut i3: usize = 0;
        while i3 < n
            invariant
                graph.wf(),
                self.wf(graph),
                graph.is_pair(x, y),
                x == v1,
                y == v2,
                n == graph.active.len(),
                i3 <= n,
                forall|t: (int, int, int)|
                    graph.triples_where(with_either(x, y)).contains(t) ==> base.contains(t),
                self.counted@ == base.difference(graph.vertex_turns(x, y, i3 as int, 0)).difference(
                    graph.vertex_turns(y, x, i3 as int, 0),
                ),
                self.triples@ == left,
            decreases n - i3,
        {
            let v3: usize = graph.active[i3];
            proof {
                lemma_vertex_turns_bounds(graph, x, y, i3 as int);
                lemma_vertex_turns_bounds(graph, y, x, i3 as int);
            }
            if v1 != v3 && v2 != v3 {
                let mut i4: usize = i3 + 1;
                while i4 < n
                    invariant
                        graph.wf(),
                        self.wf(graph),
                        graph.is_pair(x, y),
                        x == v1,
                        y == v2,
                        n == graph.active.len(),
                        i3 < i4 <= n,
                        v3 == graph.active@[i3 as int],
                        v1 != v3,
                        v2 != v3,
                        forall|t: (int, int, int)|
                            graph.triples_where(with_either(x, y)).contains(t) ==> base.contains(t),
                        self.counted@ == base.difference(
                            graph.vertex_turns(x, y, i3 as int, i4 as int),
                        ).difference(graph.vertex_turns(y, x, i3 as int, i4 as int)),
                        self.triples@ == left,
                    decreases n - i4,
                {
                    let v4: usize = graph.active[i4];
                    proof {
                        lemma_vertex_turn(graph, x, y, i3 as int, i4 as int);
                        lemma_vertex_turn(graph, y, x, i3 as int, i4 as int);
                    }
                    if v4 != v1 && v4 != v2 {
                        let ghost t1 = ascending(x, v3 as int, v4 as int);
                        let ghost t2 = ascending(y, v3 as int, v4 as int);
                        let ghost one = graph.vertex_turns(x, y, i3 as int, i4 as int);
                        let ghost two = graph.vertex_turns(y, x, i3 as int, i4 as int);
                        proof {
                            assert(graph.triples_where(with_either(x, y)).contains(t1));
                            assert(graph.triples_where(with_either(x, y)).contains(t2));
                            assert(!two.contains(t1));
                            assert(!one.contains(t2));
                        }
                        self.remove_triple_conflicts(graph, v1, v3, v4);
                        self.remove_triple_conflicts(graph, v2, v3, v4);
                        proof {
                            assert(base.difference(one).difference(two).remove(t1).remove(t2)
                                =~= base.difference(
                                graph.vertex_turns(x, y, i3 as int, i4 as int + 1),
                            ).difference(graph.vertex_turns(y, x, i3 as int, i4 as int + 1)));
                        }
                    }
                    i4 += 1;
                }
            }
            i3 += 1;
        }
        proof {
            lemma_vertex_turns_bounds(graph, x, y, 0);
            lemma_vertex_turns_bounds(graph, y, x, 0);
            lemma_either(graph, x, y);
            assert forall|t: (int, int, int)|
                graph.triples_where(with_edge(x, y)).contains(t) implies self.counted@.contains(
                t,
            ) by {
                assert(graph.triples_where(with_either(x, y)).contains(t));
            }
        }
        let ghost so_far = self.counted@;
        self.remove_edge_conflicts(graph, v1, v2);
        proof {
            assert(so_far.difference(graph.triples_where(with_edge(x, y))) =~= base.difference(
                graph.triples_where(with_either(x, y)),
            ));
        }
    }
}

} // verus!
