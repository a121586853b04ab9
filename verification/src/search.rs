//! The branch-and-bound search.

use vstd::prelude::*;
use crate::branch::EdgeMod;
use crate::component::{
    Components, kept, occurs, lemma_kept, lemma_restrict, lemma_connected_step,
    lemma_connected_self,
};
use crate::finish::finish_solve;
use crate::graph::{Graph, lemma_same_state_wf};
use crate::merge::{lemma_active_below_len, lemma_merge_wf, lemma_merge_un_merge, lemma_cut_un_cut};
use crate::packing::{
    Packing, lemma_packing_same, all_triples, total, conflict_count, lemma_counted_all, lemma_packing_admissible,
};
use crate::order::pack_triples;
use crate::forest::{
    foreign, lemma_lifts_self, lemma_lifts_merge, lemma_lifts_cut, lemma_lifts_same,
    lemma_follows_self, lemma_follows_merge, lemma_follows_same, lemma_answers_copy,
    lemma_answers_same, lemma_answers_leaf, lemma_answers_join, lemma_answers_clone,
};
use crate::cost::lemma_cost_twice;
use crate::optimal::{
    capped_optimum, any, together, apart, relabel, unfold, lemma_same_state_cost, lemma_merge_cost,
    lemma_cut_cost, lemma_conflict_free_cost, lemma_no_counts_conflict_free,
    lemma_same_state_open_pairs, lemma_cut_open_pairs, lemma_capped_transfer,
    lemma_search_optimum, lemma_optimum_capped, lemma_components_additive,
};

verus! {

/// The state of a search: the graph as it is now, the lower bound for
/// it, the best cost found so far and a solution.
#[derive(Clone)]
pub struct Solver {
    /// The graph, changed by every branch and restored behind it.
    pub graph: Graph,
    /// The lower bound for the graph as it is now.
    pub packing: Packing,
    /// The components set aside.
    pub components: Components,
    /// The cost that a solution has to stay below to be taken.
    pub upper: u32,
    /// The graph of the last solution taken.
    pub best: Graph,
    /// The graph that the solution is a clustering of.
    pub origin: Ghost<Graph>,
    /// What the merges and cuts that led from there to the graph as it is now have cost.
    pub spent: Ghost<int>,
}

impl Solver {
    /// The graph is well-formed, the packing is in order for the graph as
    /// it is now and has counted every conflict of it, and the solution has
    /// the room of the graph.
    pub open spec fn wf(&self) -> bool {
        &&& self.graph.wf()
        &&& self.packing.wf(&self.graph)
        &&& self.packing.counted@ == all_triples(&self.graph)
        &&& self.best.cap() == self.graph.cap()
        &&& self.best.edges.wf()
        &&& self.best.edges.spec_len() == self.graph.cap()
        &&& self.components.vertex_markers.len() == self.graph.cap()
    }

    /// The graph is what merges and cuts at the cost `spent` have made of
    /// the origin.
    pub open spec fn tracks(&self) -> bool {
        &&& self.origin@.wf()
        &&& self.spent@ >= 0
        &&& self.graph.lifts(&self.origin@, self.spent@)
        &&& self.graph.follows(&self.origin@)
    }

    /// The solver is at rest: nothing is spent, the graph is as the origin
    /// was, and the solution is a clustering of it at the cost of the bound.
    pub open spec fn ready(&self) -> bool {
        &&& self.wf()
        &&& self.tracks()
        &&& self.solved()
        &&& self.spent@ == 0
        &&& self.graph.same_state(&self.origin@)
    }

    /// The solution is a clustering of the origin that costs what the
    /// bound allows, with what was spent.
    pub open spec fn solved(&self) -> bool {
        &&& self.best.answers(&self.origin@, self.upper + self.spent@)
        &&& self.best.keeps(&self.origin@)
    }

    /// A solver for the graph: the bound is what it costs to leave every
    /// vertex alone, and the solution is the graph as it stands.
    pub fn new(graph: Graph) -> (s: Self)
        requires
            graph.wf(),
        ensures
            s.ready(),
            s.origin@ == s.graph,
            s.upper == s.graph.positive_total(),
            s.packing.triples@ == pack_triples(&s.graph),
            s.graph.same_vertices(&graph),
            forall|a: int, b: int| #[trigger] s.graph.edge(a, b) == graph.edge(a, b),
            s.upper == graph.positive_total(),
            s.best == graph,
    {
        let len: usize = graph.vertex_merged.len();
        proof {
            graph.edges.lemma_len_bound();
        }
        let mut packing = Packing::new(len);
        let copy = graph.clone();
        packing.pack(&copy);
        let upper = copy.positive_weight();
        proof {
            lemma_lifts_self(&copy);
            lemma_follows_self(&copy);
            lemma_answers_copy(&copy, &graph);
            lemma_same_state_cost(&graph, &copy, crate::cost::singletons());
            crate::cost::lemma_singletons_cost(&graph);
            crate::cost::lemma_singletons_cost(&copy);
        }
        Solver {
            origin: Ghost(copy),
            graph: copy,
            packing,
            components: Components::new(len),
            upper,
            spent: Ghost(0),
            best: graph,
        }
    }
}


/// The outcome of the branch that merges and the outcome of the branch
/// that cuts, one after the other, make the outcome for all labellings.
pub proof fn lemma_branches(
    g: &Graph,
    h: &Graph,
    v1: int,
    v2: int,
    first_apart: bool,
    u: int,
    r1: int,
    r2: int,
)
    requires
        g.wf(),
        h.same_state(g),
        capped_optimum(
            g,
            if first_apart {
                apart(v1, v2)
            } else {
                together(v1, v2)
            },
            u,
            r1,
        ),
        capped_optimum(
            h,
            if first_apart {
                together(v1, v2)
            } else {
                apart(v1, v2)
            },
            r1,
            r2,
        ),
    ensures
        capped_optimum(g, any(), u, r2),
{
    let first = if first_apart {
        apart(v1, v2)
    } else {
        together(v1, v2)
    };
    let second = if first_apart {
        together(v1, v2)
    } else {
        apart(v1, v2)
    };
    assert forall|p: spec_fn(int) -> int| g.admits(p) && any()(p) implies #[trigger] g.cost(p)
        >= r2 by {
        lemma_same_state_cost(g, h, p);
        if first(p) {
        } else {
            assert(second(p));
            assert(h.cost(p) >= r2);
        }
    }
    if r2 != u {
        if r2 == r1 {
            let p = choose|p: spec_fn(int) -> int| g.admits(p) && first(p) && #[trigger] g.cost(p)
                == r1;
            assert(g.admits(p) && any()(p) && g.cost(p) == r2);
        } else {
            let p = choose|p: spec_fn(int) -> int|
                h.admits(p) && second(p) && #[trigger] h.cost(p) == r2;
            lemma_same_state_cost(g, h, p);
            assert(g.admits(p) && any()(p) && g.cost(p) == r2);
        }
    }
}

/// What the branch that merges finds, from what the search of the merged graph found.
pub proof fn lemma_merge_branch(
    g: &Graph,
    h: &Graph,
    v1: usize,
    v2: usize,
    u: int,
    cost: int,
    r: int,
)
    requires
        g.wf(),
        g.is_pair(v1 as int, v2 as int),
        !g.edge(v1 as int, v2 as int).fixed,
        h.merged_from(g, v1, v2),
        cost == g.merge_cost(v1 as int, v2 as int),
        capped_optimum(h, any(), u - cost, r),
    ensures
        capped_optimum(g, together(v1 as int, v2 as int), u, r + cost),
{
    let vv = g.len as int;
    let only = together(v1 as int, v2 as int);
    assert forall|p: spec_fn(int) -> int| g.admits(p) && only(p) implies #[trigger] g.cost(p) >= r
        + cost by {
        let q = relabel(p, vv, v1 as int);
        lemma_active_below_len(g, v1 as int);
        lemma_active_below_len(g, v2 as int);
        lemma_merge_cost(g, h, v1, v2, p, q);
        assert(any()(q));
        assert(h.cost(q) >= r);
    }
    if r + cost != u {
        let q = choose|q: spec_fn(int) -> int| h.admits(q) && any()(q) && #[trigger] h.cost(q) == r;
        let p = unfold(q, v1 as int, v2 as int, vv);
        lemma_active_below_len(g, v1 as int);
        lemma_active_below_len(g, v2 as int);
        lemma_merge_cost(g, h, v1, v2, p, q);
        assert(g.admits(p) && only(p) && g.cost(p) == r + cost);
    }
}

/// What the branch that merges finds where the bound rules it out.
pub proof fn lemma_merge_pruned(
    g: &Graph,
    h: &Graph,
    v1: usize,
    v2: usize,
    u: int,
    cost: int,
    lower: int,
)
    requires
        g.wf(),
        g.is_pair(v1 as int, v2 as int),
        !g.edge(v1 as int, v2 as int).fixed,
        h.merged_from(g, v1, v2),
        cost == g.merge_cost(v1 as int, v2 as int),
        forall|q: spec_fn(int) -> int| h.admits(q) ==> #[trigger] h.cost(q) >= lower,
        lower + cost >= u,
    ensures
        capped_optimum(g, together(v1 as int, v2 as int), u, u),
{
    let vv = g.len as int;
    let only = together(v1 as int, v2 as int);
    assert forall|p: spec_fn(int) -> int| g.admits(p) && only(p) implies #[trigger] g.cost(p)
        >= u by {
        let q = relabel(p, vv, v1 as int);
        lemma_active_below_len(g, v1 as int);
        lemma_active_below_len(g, v2 as int);
        lemma_merge_cost(g, h, v1, v2, p, q);
        assert(h.cost(q) >= lower);
    }
}

/// What the branch that cuts finds, from what the search of the cut graph
/// found, or from the bound that ruled the branch out.
pub proof fn lemma_cut_branch(g: &Graph, h: &Graph, v1: usize, v2: usize, u: int, cost: int, r: int)
    requires
        g.wf(),
        g.is_pair(v1 as int, v2 as int),
        !g.edge(v1 as int, v2 as int).fixed,
        h.same_vertices(g),
        h.edges_same_except(g, v1 as int, v2 as int),
        h.edge(v1 as int, v2 as int) == crate::graph::Edge::spec_none(),
        cost == if g.weight(v1 as int, v2 as int) > 0 {
            g.weight(v1 as int, v2 as int)
        } else {
            0
        },
        capped_optimum(h, any(), u - cost, r) || (r + cost == u && forall|q: spec_fn(int) -> int|
            h.admits(q) ==> #[trigger] h.cost(q) >= r),
    ensures
        capped_optimum(g, apart(v1 as int, v2 as int), u, r + cost),
{
    let only = apart(v1 as int, v2 as int);
    assert forall|p: spec_fn(int) -> int| g.admits(p) && only(p) implies #[trigger] g.cost(p) >= r
        + cost by {
        lemma_cut_cost(g, h, v1, v2, p);
        assert(any()(p));
        assert(h.cost(p) >= r);
    }
    if r + cost != u {
        let q = choose|q: spec_fn(int) -> int| h.admits(q) && any()(q) && #[trigger] h.cost(q) == r;
        lemma_cut_cost(g, h, v1, v2, q);
        assert(g.admits(q) && only(q) && g.cost(q) == r + cost);
    }
}

/// A graph with the active vertices and the edges between them of a graph
/// without conflicts has no conflicts.
pub proof fn lemma_copy_conflict_free(g: &Graph, h: &Graph)
    requires
        g.conflict_free(),
        h.active@ == g.active@,
        forall|a: int, b: int| #[trigger] g.is_pair(a, b) ==> h.edge(a, b) == g.edge(a, b),
    ensures
        h.conflict_free(),
{
    assert forall|a: int, b: int, c: int| #[trigger] h.is_triple(a, b, c) implies !h.is_conflict(
        a,
        b,
        c,
    ) by {
        assert(g.is_triple(a, b, c));
        assert(g.is_pair(a, b) && g.is_pair(a, c) && g.is_pair(b, c));
    }
}

impl Solver {
    /// Where no pair can be branched on, the graph has no conflicts, the
    /// packing is empty, and the clusters of the graph cost nothing.
    pub proof fn lemma_leaf(&self)
        requires
            self.wf(),
            forall|i1: int, i2: int| !#[trigger] self.eligible(i1, i2),
        ensures
            self.graph.conflict_free(),
            self.packing.lower == 0,
            capped_optimum(&self.graph, any(), self.upper as int, 0),
    {
        let g = &self.graph;
        assert forall|a: int, b: int| #[trigger] g.is_pair(a, b) && g.weight(a, b) > 0
            implies conflict_count(g, a, b) == 0 by {
            let p = choose|k: int| 0 <= k < g.active.len() && g.active@[k] == a;
            let q = choose|k: int| 0 <= k < g.active.len() && g.active@[k] == b;
            assert(g.edge(a, b).ok());
            assert(g.edge(a, b) == g.edge(b, a));
            lemma_counted_all(g, a, b);
            if p < q {
                assert(!self.eligible(p, q));
            } else {
                assert(!self.eligible(q, p));
                lemma_counted_all(g, b, a);
                assert(g.is_pair(b, a));
                lemma_conflict_count_symmetric(g, a, b);
            }
        }
        lemma_no_counts_conflict_free(g);
        lemma_conflict_free_cost(g);
        crate::packing::lemma_conflict_free_bound(g, self.packing.triples@);
        let p = g.clusters();
        assert(any()(p));
        assert forall|q: spec_fn(int) -> int| g.admits(q) && any()(q) implies #[trigger] g.cost(q)
            >= 0 by {
            lemma_cost_twice(g, q);
        }
    }
}

/// The number of conflicts of a pair does not depend on the order of its ends.
pub proof fn lemma_conflict_count_symmetric(g: &Graph, a: int, b: int)
    ensures
        conflict_count(g, a, b) == conflict_count(g, b, a),
{
    let f = |c: int|
        if g.is_third(a, b, c) && g.is_conflict(a, b, c) {
            1int
        } else {
            0int
        };
    let e = |c: int|
        if g.is_third(b, a, c) && g.is_conflict(b, a, c) {
            1int
        } else {
            0int
        };
    assert forall|c: int| 0 <= c < g.cap() implies #[trigger] f(c) == e(c) by {
        crate::packing::lemma_conflict_symmetric(g, a, b, c);
    }
    crate::sums::lemma_sum_eq(f, e, g.cap());
}

impl Solver {
    /// Tries the branch that merges `v1` and `v2`: searches the merged
    /// graph if the bound allows a better solution there, and takes the
    /// merge back.
    pub fn search_merge(&mut self, v1: usize, v2: usize)
        requires
            old(self).wf(),
            old(self).tracks(),
            old(self).solved(),
            old(self).graph.is_pair(v1 as int, v2 as int),
            !old(self).graph.edge(v1 as int, v2 as int).fixed,
        ensures
            final(self).wf(),
            final(self).tracks(),
            final(self).solved(),
            final(self).origin == old(self).origin,
            final(self).spent == old(self).spent,
            final(self).best.kept_from(&old(self).best, &old(self).origin@),
            final(self).components == old(self).components,
            final(self).graph.same_state(&old(self).graph),
            old(self).ready() ==> final(self).ready(),
            final(self).packing.same_as(&old(self).packing),
            final(self).upper == old(self).upper ==> final(self).best == old(self).best,
            capped_optimum(
                &old(self).graph,
                together(v1 as int, v2 as int),
                old(self).upper as int,
                final(self).upper as int,
            ),
        decreases old(self).graph.active.len(), old(self).graph.open_pairs(), 0int,
    {
        let ghost g = self.graph;
        let ghost u = self.upper as int;
        proof {
            lemma_active_below_len(&g, v1 as int);
            lemma_active_below_len(&g, v2 as int);
        }
        let saved = self.packing.clone();
        let (vv, cost) = self.graph.merge(v1, v2);
        let ghost h = self.graph;
        proof {
            lemma_merge_wf(&g, &h, v1, v2);
        }
        self.packing.pack(&self.graph);
        let ghost spent = self.spent@;
        let ghost o = self.origin@;
        if (self.packing.lower as u64) + (cost as u64) < self.upper as u64 {
            self.upper -= cost;
            self.spent = Ghost(spent + cost as int);
            proof {
                lemma_lifts_merge(&o, &g, &h, v1, v2, spent);
                lemma_follows_merge(&o, &g, &h, v1, v2);
            }
            self.search_graph();
            proof {
                lemma_merge_branch(&g, &h, v1, v2, u, cost as int, self.upper as int);
            }
            self.upper += cost;
            self.spent = Ghost(spent);
        } else {
            proof {
                assert forall|q: spec_fn(int) -> int| h.admits(q) implies #[trigger] h.cost(q)
                    >= self.packing.lower by {
                    lemma_packing_admissible(&h, self.packing.triples@, q);
                }
                lemma_merge_pruned(&g, &h, v1, v2, u, cost as int, self.packing.lower as int);
            }
        }
        let ghost h2 = self.graph;
        self.graph.un_merge(v1, v2, vv);
        proof {
            lemma_merge_un_merge(&g, &h, &h2, &self.graph, v1, v2);
            lemma_lifts_same(&o, &g, &self.graph, spent);
            lemma_follows_same(&o, &g, &self.graph);
            lemma_packing_restored(&old(self).packing, &saved, &g, &self.graph);
        }
        self.packing = saved;
    }

    /// Tries the branch that cuts the pair of `v1` and `v2`: searches the
    /// cut graph if the bound allows a better solution there, and takes the
    /// cut back.
    pub fn search_cut(&mut self, v1: usize, v2: usize)
        requires
            old(self).wf(),
            old(self).tracks(),
            old(self).solved(),
            old(self).graph.is_pair(v1 as int, v2 as int),
            !old(self).graph.edge(v1 as int, v2 as int).fixed,
        ensures
            final(self).wf(),
            final(self).tracks(),
            final(self).solved(),
            final(self).origin == old(self).origin,
            final(self).spent == old(self).spent,
            final(self).best.kept_from(&old(self).best, &old(self).origin@),
            final(self).components == old(self).components,
            final(self).graph.same_state(&old(self).graph),
            old(self).ready() ==> final(self).ready(),
            final(self).packing.same_as(&old(self).packing),
            final(self).upper == old(self).upper ==> final(self).best == old(self).best,
            capped_optimum(
                &old(self).graph,
                apart(v1 as int, v2 as int),
                old(self).upper as int,
                final(self).upper as int,
            ),
        decreases old(self).graph.active.len(), old(self).graph.open_pairs(), 0int,
    {
        let ghost g = self.graph;
        let ghost u = self.upper as int;
        proof {
            lemma_active_below_len(&g, v1 as int);
            lemma_active_below_len(&g, v2 as int);
            assert(g.edge(v1 as int, v2 as int).ok());
        }
        let saved = self.packing.clone();
        let edge = self.graph.cut(v1, v2);
        let ghost h = self.graph;
        let cost: u32 = if edge.weight > 0 {
            edge.weight as u32
        } else {
            0
        };
        proof {
            lemma_cut_open_pairs(&g, &h, v1, v2);
        }
        self.packing.pack(&self.graph);
        let ghost spent = self.spent@;
        let ghost o = self.origin@;
        if (self.packing.lower as u64) + (cost as u64) < self.upper as u64 {
            self.upper -= cost;
            self.spent = Ghost(spent + cost as int);
            proof {
                lemma_lifts_cut(&o, &g, &h, v1, v2, spent);
                lemma_follows_same(&o, &g, &h);
            }
            self.search_graph();
            proof {
                lemma_cut_branch(&g, &h, v1, v2, u, cost as int, self.upper as int);
            }
            self.upper += cost;
            self.spent = Ghost(spent);
        } else {
            proof {
                assert forall|q: spec_fn(int) -> int| h.admits(q) implies #[trigger] h.cost(q) >= u
                    - cost by {
                    lemma_packing_admissible(&h, self.packing.triples@, q);
                }
                lemma_cut_branch(&g, &h, v1, v2, u, cost as int, u - cost);
            }
        }
        let ghost h2 = self.graph;
        proof {
            lemma_same_state_wf(&h, &h2);
            lemma_active_below_len(&h, v1 as int);
            lemma_active_below_len(&h, v2 as int);
            assert(h2.is_active(v1 as int) && h2.is_active(v2 as int));
            assert(h2.edge(v1 as int, v2 as int) == h.edge(v1 as int, v2 as int));
        }
        self.graph.un_cut(v1, v2, edge);
        proof {
            lemma_cut_un_cut(&g, &h, &h2, &self.graph, v1, v2);
            lemma_lifts_same(&o, &g, &self.graph, spent);
            lemma_follows_same(&o, &g, &self.graph);
            lemma_packing_restored(&old(self).packing, &saved, &g, &self.graph);
        }
        self.packing = saved;
    }

    /// Searches the graph as it is now for a solution that costs less than
    /// the bound: branches on the pair that `best_edge` selects, or takes
    /// the graph as a solution where nothing is left to decide.
    pub fn search_graph(&mut self)
        requires
            old(self).wf(),
            old(self).tracks(),
            old(self).solved(),
        ensures
            final(self).wf(),
            final(self).tracks(),
            final(self).solved(),
            final(self).origin == old(self).origin,
            final(self).spent == old(self).spent,
            final(self).best.kept_from(&old(self).best, &old(self).origin@),
            final(self).components == old(self).components,
            final(self).graph.same_state(&old(self).graph),
            old(self).ready() ==> final(self).ready(),
            final(self).packing.same_as(&old(self).packing),
            final(self).upper == old(self).upper ==> final(self).best == old(self).best,
            old(self).graph.conflict_free() && old(self).upper > 0 ==> final(self).upper == 0
                && forall|a: int, b: int| #[trigger]
                old(self).graph.is_pair(a, b) ==> (final(self).best.root_spec(a) == final(self).best.root_spec(b)) == (old(self).graph.weight(a, b) > 0),
            capped_optimum(
                &old(self).graph,
                any(),
                old(self).upper as int,
                final(self).upper as int,
            ),
        decreases old(self).graph.active.len(), old(self).graph.open_pairs(), 1int,
    {
        let ghost g = self.graph;
        let ghost u = self.upper as int;
        let decision = self.best_edge();
        match decision {
            EdgeMod::Merge(v1, v2) => {
                proof {
                    self.lemma_decision(decision, v1, v2);
                }
                self.search_merge(v1, v2);
                let ghost h = self.graph;
                let ghost r1 = self.upper as int;
                proof {
                    lemma_same_state_wf(&g, &h);
                    lemma_same_state_open_pairs(&g, &h);
                    lemma_active_below_len(&g, v1 as int);
                    lemma_active_below_len(&g, v2 as int);
                    assert(h.is_pair(v1 as int, v2 as int));
                }
                self.search_cut(v1, v2);
                proof {
                    lemma_branches(&g, &h, v1 as int, v2 as int, false, u, r1, self.upper as int);
                    lemma_follows_same(&self.origin@, &g, &self.graph);
                }
            },
            EdgeMod::Cut(v1, v2) => {
                proof {
                    self.lemma_decision(decision, v1, v2);
                }
                self.search_cut(v1, v2);
                let ghost h = self.graph;
                let ghost r1 = self.upper as int;
                proof {
                    lemma_same_state_wf(&g, &h);
                    lemma_same_state_open_pairs(&g, &h);
                    lemma_active_below_len(&g, v1 as int);
                    lemma_active_below_len(&g, v2 as int);
                    assert(h.is_pair(v1 as int, v2 as int));
                }
                self.search_merge(v1, v2);
                proof {
                    lemma_branches(&g, &h, v1 as int, v2 as int, true, u, r1, self.upper as int);
                }
            },
            EdgeMod::Nothing => {
                proof {
                    self.lemma_leaf();
                }
                if self.packing.lower < self.upper {
                    let ghost prev = self.best;
                    self.best.clone_from(&self.graph);
                    let ghost copy = self.best;
                    proof {
                        lemma_copy_conflict_free(&self.graph, &self.best);
                    }
                    self.best.check_easy();
                    finish_solve(&mut self.best);
                    self.upper = self.packing.lower;
                    proof {
                        lemma_answers_leaf(
                            &self.origin@,
                            &self.graph,
                            &prev,
                            &copy,
                            &self.best,
                            self.spent@,
                        );
                        assert forall|a: int, b: int| #[trigger] g.is_pair(a, b) implies (
                        self.best.root_spec(a) == self.best.root_spec(b)) == (g.weight(a, b)
                            > 0) by {
                            assert(copy.is_pair(a, b));
                        }
                    }
                }
            },
        }
    }

    /// The pair that a decision names is an undecided positive pair of active vertices.
    pub proof fn lemma_decision(&self, res: EdgeMod, v1: usize, v2: usize)
        requires
            self.wf(),
            res == EdgeMod::Merge(v1, v2) || res == EdgeMod::Cut(v1, v2),
            exists|i1: int, i2: int| #[trigger] self.is_best(i1, i2) && self.decides(res, i1, i2),
        ensures
            self.graph.is_pair(v1 as int, v2 as int),
            !self.graph.edge(v1 as int, v2 as int).fixed,
            self.graph.weight(v1 as int, v2 as int) > 0,
            !self.graph.conflict_free(),
    {
        let (i1, i2) = choose|i1: int, i2: int| #[trigger]
            self.is_best(i1, i2) && self.decides(res, i1, i2);
        assert(self.eligible(i1, i2));
        assert(self.graph.active@[i1] == v1);
        assert(self.graph.active@[i2] == v2);
        let g = &self.graph;
        let a = v1 as int;
        let b = v2 as int;
        assert(g.is_pair(a, b));
        lemma_counted_all(g, a, b);
        if g.conflict_free() {
            let f = |c: int|
                if g.is_third(a, b, c) && g.is_conflict(a, b, c) {
                    1int
                } else {
                    0int
                };
            assert forall|c: int| 0 <= c < g.cap() implies #[trigger] f(c) == 0 by {
                if g.is_third(a, b, c) {
                    assert(g.is_triple(a, b, c));
                }
            }
            crate::sums::lemma_sum_zero(f, g.cap());
        }
    }
}


/// The component of the first active vertex and the other active vertices
/// split the graph, with no positive edge between the two parts.
pub proof fn lemma_component_splits(g: &Graph, one: &Graph, two: &Graph)
    requires
        g.wf(),
        g.active.len() > 0,
        one.restricts(g),
        two.restricts(g),
        one.active@ == kept(g.active@, g.component(g.active@[0] as int)),
        two.active@ == kept(g.active@, |v: int| !g.component(g.active@[0] as int)(v)),
    ensures
        g.splits_into(one, two),
        one.active.len() > 0,
        one.active.len() + two.active.len() == g.active.len(),
{
    let v0 = g.active@[0] as int;
    let inside = g.component(v0);
    let outside = |v: int| !inside(v);
    lemma_kept(g.active@, inside);
    lemma_kept(g.active@, outside);
    assert(g.is_active(v0));
    lemma_connected_self(g, v0);
    assert forall|v: int| one.is_active(v) <==> (g.is_active(v) && inside(v)) by {
        assert(one.is_active(v) == occurs(one.active@, v));
        assert(g.is_active(v) == occurs(g.active@, v));
    }
    assert forall|v: int| two.is_active(v) <==> (g.is_active(v) && !inside(v)) by {
        assert(two.is_active(v) == occurs(two.active@, v));
        assert(g.is_active(v) == occurs(g.active@, v));
    }
    assert(one.is_active(v0));
    assert forall|a: int, b: int| #[trigger] one.is_pair(a, b) implies one.edge(a, b) == g.edge(
        a,
        b,
    ) by {
        lemma_active_below_len(g, a);
        lemma_active_below_len(g, b);
    }
    assert forall|a: int, b: int| #[trigger] two.is_pair(a, b) implies two.edge(a, b) == g.edge(
        a,
        b,
    ) by {
        lemma_active_below_len(g, a);
        lemma_active_below_len(g, b);
    }
    assert forall|a: int, b: int| one.is_active(a) && two.is_active(b) implies #[trigger] g.weight(
        a,
        b,
    ) <= 0 by {
        if g.weight(a, b) > 0 {
            assert(g.is_positive(a, b));
            lemma_connected_step(g, v0, a, b);
        }
    }
}

/// Two lists without repetition that share no entry make one list without repetition.
pub proof fn lemma_joined_distinct(s: Seq<usize>, t: Seq<usize>)
    requires
        s.no_duplicates(),
        t.no_duplicates(),
        forall|i: int, j: int| 0 <= i < s.len() && 0 <= j < t.len() ==> s[i] != t[j],
    ensures
        (s + t).no_duplicates(),
        forall|c: int| occurs(s + t, c) <==> (occurs(s, c) || occurs(t, c)),
{
    let u = s + t;
    assert forall|c: int| occurs(u, c) <==> (occurs(s, c) || occurs(t, c)) by {
        if occurs(u, c) {
            let k = choose|k: int| 0 <= k < u.len() && u[k] == c;
            if k < s.len() {
                assert(s[k] == c);
            } else {
                assert(t[k - s.len()] == c);
            }
        }
        if occurs(s, c) {
            let k = choose|k: int| 0 <= k < s.len() && s[k] == c;
            assert(u[k] == c);
        }
        if occurs(t, c) {
            let k = choose|k: int| 0 <= k < t.len() && t[k] == c;
            assert(u[k + s.len()] == c);
        }
    }
}

/// Once both parts are searched and joined again, the graph is as it was.
pub proof fn lemma_rejoined_parts(g: &Graph, one: &Graph, two: &Graph, one2: &Graph, two2: &Graph, r: &Graph)
    requires
        g.wf(),
        g.splits_into(one, two),
        one.restricts(g),
        one.len == g.len,
        one.wf(),
        one2.wf(),
        one2.same_state(one),
        two.restricts(g),
        two.wf(),
        two2.wf(),
        two2.same_state(two),
        r.vertex_merged@ == two2.vertex_merged@,
        r.edges == two2.edges,
        r.len == g.len,
        r.active@ == two2.active@ + one2.active@,
    ensures
        r.same_state(g),
        r.wf(),
{
    assert forall|i: int, j: int|
        0 <= i < two2.active.len() && 0 <= j < one2.active.len() implies two2.active@[i]
        != one2.active@[j] by {
        assert(two2.is_active(two2.active@[i] as int));
        assert(one2.is_active(one2.active@[j] as int));
        assert(two.is_active(two2.active@[i] as int));
        assert(one.is_active(one2.active@[j] as int));
    }
    lemma_joined_distinct(two2.active@, one2.active@);
    assert forall|v: int| r.is_active(v) <==> g.is_active(v) by {
        assert(r.is_active(v) == occurs(r.active@, v));
        assert(two2.is_active(v) == occurs(two2.active@, v));
        assert(one2.is_active(v) == occurs(one2.active@, v));
        assert(two2.is_active(v) == two.is_active(v));
        assert(one2.is_active(v) == one.is_active(v));
    }
    assert forall|a: int, b: int| 0 <= a < r.len && 0 <= b < r.len implies #[trigger] r.edge(a, b)
        == g.edge(a, b) by {
        assert(r.edge(a, b) == two2.edge(a, b));
        assert(two2.edge(a, b) == two.edge(a, b));
        assert(two.edge(a, b) == g.edge(a, b));
    }
    lemma_same_state_wf(g, r);
}

impl Solver {
    /// The search of a graph that is one component.
    fn search_single(&mut self, Ghost(g): Ghost<Graph>)
        requires
            old(self).wf(),
            g.wf(),
            old(self).graph.same_state(&g),
            old(self).best.answers(&g, old(self).upper as int),
            old(self).best.keeps(&g),
        ensures
            final(self).wf(),
            final(self).graph.same_state(&g),
            final(self).components == old(self).components,
            capped_optimum(&g, any(), old(self).upper as int, final(self).upper as int),
            final(self).best.answers(&g, final(self).upper as int),
            final(self).best.keeps(&g),
            final(self).best.kept_from(&old(self).best, &g),
    {
        let ghost one = self.graph;
        let ghost b0 = self.best;
        proof {
            lemma_answers_same(&g, &one, &b0, self.upper as int);
            lemma_lifts_self(&one);
            lemma_follows_self(&one);
        }
        self.origin = Ghost(self.graph);
        self.spent = Ghost(0);
        self.search_graph();
        proof {
            lemma_capped_transfer(&g, &one, any(), old(self).upper as int, self.upper as int);
            lemma_answers_same(&one, &g, &self.best, self.upper as int);
            lemma_same_state_wf(&one, &self.graph);
            assert forall|u: int| foreign(&g, u) implies #[trigger] self.best.vertex_merged@[u]
                == b0.vertex_merged@[u] by {
                assert(foreign(&one, u));
            }
        }
    }

    /// The search of the first component, from the cost of leaving every
    /// vertex of it alone.
    fn search_first(&mut self, Ghost(g): Ghost<Graph>)
        requires
            old(self).wf(),
            g.wf(),
            old(self).graph.restricts(&g),
            old(self).graph.len == g.len,
            old(self).best.keeps(&g),
        ensures
            final(self).wf(),
            final(self).graph.same_state(&old(self).graph),
            final(self).components == old(self).components,
            old(self).graph.is_optimum(final(self).upper as int),
            final(self).best.answers(&old(self).graph, final(self).upper as int),
            final(self).best.kept_from(&old(self).best, &g),
    {
        let ghost one = self.graph;
        let ghost b0 = self.best;
        self.best.clone_from(&self.graph);
        self.upper = self.graph.positive_weight();
        self.origin = Ghost(self.graph);
        self.spent = Ghost(0);
        let ghost copy = self.best;
        proof {
            lemma_answers_copy(&one, &self.best);
            lemma_lifts_self(&one);
            lemma_follows_self(&one);
            assert forall|u: int| foreign(&g, u) implies #[trigger] copy.vertex_merged@[u]
                == b0.vertex_merged@[u] && foreign(&one, u) by {
                assert(!one.is_active(u));
            }
        }
        self.search_graph();
        proof {
            lemma_search_optimum(&one, self.upper as int);
        }
    }

    /// Sets the first component aside and makes the other vertices the
    /// active ones, with room for the vertices of the solution found so
    /// far; returns how many vertices were set aside and how many vertices
    /// there were.
    fn switch_to_rest(
        &mut self,
        other_count: usize,
        Ghost(g): Ghost<Graph>,
        Ghost(one): Ghost<Graph>,
        Ghost(stack): Ghost<Seq<usize>>,
    ) -> (res: (usize, usize))
        requires
            old(self).wf(),
            g.wf(),
            g.active.len() > 0,
            one.wf(),
            one.restricts(&g),
            one.len == g.len,
            one.active@ == kept(g.active@, g.component(g.active@[0] as int)),
            old(self).graph.same_state(&one),
            old(self).components.un_active@ == stack + kept(
                g.active@,
                |v: int| !g.component(g.active@[0] as int)(v),
            ),
            other_count == kept(g.active@, |v: int| !g.component(g.active@[0] as int)(v)).len(),
            old(self).best.wf(),
            old(self).best.len + old(self).best.active.len() <= one.len + one.active.len(),
        ensures
            final(self).wf(),
            final(self).graph.wf(),
            final(self).graph.restricts(&g),
            g.splits_into(&one, &final(self).graph),
            final(self).graph.vertex_merged@ == g.vertex_merged@,
            old(self).best.len <= final(self).graph.len,
            final(self).graph.len <= g.len + one.active.len(),
            one.active.len() + final(self).graph.active.len() == g.active.len(),
            one.active.len() > 0,
            final(self).graph.edges == old(self).graph.edges,
            final(self).upper == final(self).graph.positive_total(),
            final(self).ready(),
            final(self).best.answers(&final(self).graph, final(self).upper as int),
            final(self).best.keeps(&final(self).graph),
            final(self).best.kept_from(&old(self).best, &final(self).graph),
            final(self).components.un_active@ == stack + old(self).graph.active@,
            res.0 == old(self).graph.active.len(),
            res.1 == g.len,
    {
        let ghost one2 = self.graph;
        let ghost b1 = self.best;
        proof {
            lemma_same_state_wf(&one, &one2);
        }
        let count = self.components.other_component(&mut self.graph.active, other_count);
        let old_len: usize = self.graph.len;
        if self.best.len > old_len {
            self.graph.len = self.best.len;
        }
        let ghost two = self.graph;
        proof {
            let inside = g.component(g.active@[0] as int);
            let outside = |v: int| !inside(v);
            lemma_kept(g.active@, inside);
            lemma_kept(g.active@, outside);
            assert(two.active@ =~= kept(g.active@, outside));
            assert(self.components.un_active@ =~= stack + one2.active@);
            assert forall|v: int| two.is_active(v) implies g.is_active(v) by {
                assert(occurs(two.active@, v));
                assert(occurs(g.active@, v));
            }
            assert forall|a: int, b: int|
                0 <= a < g.len && 0 <= b < g.len implies #[trigger] two.edge(a, b) == g.edge(
                a,
                b,
            ) by {
                assert(two.edge(a, b) == one2.edge(a, b));
                assert(one2.edge(a, b) == one.edge(a, b));
                assert(one.edge(a, b) == g.edge(a, b));
            }
            assert(two.restricts(&g));
            lemma_restrict(&g, &two);
            lemma_component_splits(&g, &one, &two);
        }
        self.packing.pack(&self.graph);
        self.upper = self.graph.positive_weight();
        self.best.clone_from(&self.graph);
        self.origin = Ghost(self.graph);
        self.spent = Ghost(0);
        proof {
            lemma_answers_copy(&two, &self.best);
            lemma_lifts_self(&two);
            lemma_follows_self(&two);
            assert forall|u: int| foreign(&two, u) implies (
            #[trigger] self.best.vertex_merged@[u] matches Some(p) ==> u < p < two.len)
                && self.best.vertex_merged@[u] == b1.vertex_merged@[u] by {
                assert(b1.vertex_merged@[u] matches Some(p) ==> u < p < b1.len);
            }
        }
        (count, old_len)
    }

    /// Makes the first component active again beside the other vertices.
    fn switch_back(
        &mut self,
        count: usize,
        old_len: usize,
        Ghost(g): Ghost<Graph>,
        Ghost(one): Ghost<Graph>,
        Ghost(one2): Ghost<Graph>,
        Ghost(two): Ghost<Graph>,
        Ghost(stack): Ghost<Seq<usize>>,
    )
        requires
            old(self).wf(),
            g.wf(),
            g.splits_into(&one, &two),
            one.restricts(&g),
            one.len == g.len,
            one.wf(),
            one2.wf(),
            one2.same_state(&one),
            two.restricts(&g),
            two.wf(),
            old(self).graph.same_state(&two),
            old(self).components.un_active@ == stack + one2.active@,
            count == one2.active.len(),
            old_len == g.len,
        ensures
            final(self).wf(),
            final(self).graph.same_state(&g),
            final(self).components.un_active@ == stack,
            final(self).best == old(self).best,
            final(self).upper == old(self).upper,
    {
        let ghost two2 = self.graph;
        self.graph.len = old_len;
        self.components.all_components(&mut self.graph.active, count);
        proof {
            assert(self.components.un_active@ =~= stack);
            assert(self.graph.active@ =~= two2.active@ + one2.active@);
            lemma_rejoined_parts(&g, &one, &two, &one2, &two2, &self.graph);
        }
        self.packing.pack(&self.graph);
    }

    /// Searches the graph component by component: the component of the
    /// first active vertex on its own, then the other vertices in the same
    /// way. The costs found add up; the sum is taken where it is below the
    /// bound, and with it the solutions of the components, gathered in
    /// `best`.
    pub fn search_components(&mut self)
        requires
            old(self).ready(),
        ensures
            final(self).ready(),
            final(self).graph.same_state(&old(self).graph),
            final(self).components.un_active@ == old(self).components.un_active@,
            capped_optimum(
                &old(self).graph,
                any(),
                old(self).upper as int,
                final(self).upper as int,
            ),
            final(self).best.answers(&old(self).graph, final(self).upper as int),
            final(self).best.keeps(&old(self).graph),
            final(self).best.kept_from(&old(self).best, &old(self).graph),
            final(self).origin@ == final(self).graph,
        decreases old(self).graph.active.len(),
    {
        let ghost g = self.graph;
        let ghost b0 = self.best;
        let ghost stack = self.components.un_active@;
        proof {
            lemma_answers_same(&self.origin@, &g, &b0, self.upper as int);
        }
        let other_count = self.components.isolate_component(&mut self.graph);
        self.packing.pack(&self.graph);
        let ghost one = self.graph;
        if other_count == 0 {
            proof {
                if g.active.len() > 0 {
                    let inside = g.component(g.active@[0] as int);
                    let outside = |v: int| !inside(v);
                    lemma_kept(g.active@, inside);
                    lemma_kept(g.active@, outside);
                    assert forall|k: int| 0 <= k < g.active.len() implies inside(
                        #[trigger] g.active@[k] as int,
                    ) by {
                        if !inside(g.active@[k] as int) {
                            assert(occurs(g.active@, g.active@[k] as int));
                            assert(occurs(kept(g.active@, outside), g.active@[k] as int));
                        }
                    }
                    assert(self.components.un_active@ =~= stack);
                }
                assert(one.active@ == g.active@);
                assert(one.same_state(&g));
            }
            self.search_single(Ghost(g));
            self.settle(Ghost(g));
            return ;
        }
        let saved = self.best.clone();
        let upper_both: u32 = self.upper;
        self.search_first(Ghost(g));
        let first: u32 = self.upper;
        let ghost one2 = self.graph;
        let ghost b1 = self.best;
        let (count, old_len) = self.switch_to_rest(
            other_count,
            Ghost(g),
            Ghost(one),
            Ghost(stack),
        );
        let ghost two = self.graph;
        let ghost b1c = self.best;
        proof {
            lemma_same_state_wf(&one, &one2);
        }
        self.search_components();
        let rest: u32 = self.upper;
        let ghost b2 = self.best;
        proof {
            lemma_search_optimum(&two, rest as int);
            lemma_components_additive(&g, &one, &two, first as int, rest as int);
            lemma_optimum_capped(&g, first as int + rest as int, upper_both as int);
            assert(b2.kept_from(&b1, &two));
            lemma_answers_join(&g, &one, &two, &b1, &b2, first as int, rest as int);
        }
        self.switch_back(count, old_len, Ghost(g), Ghost(one), Ghost(one2), Ghost(two), Ghost(stack));
        let total: u64 = first as u64 + rest as u64;
        if total < upper_both as u64 {
            self.upper = total as u32;
            proof {
                assert forall|u: int| foreign(&g, u) implies #[trigger] b2.vertex_merged@[u]
                    == b0.vertex_merged@[u] by {
                    assert(foreign(&two, u));
                    assert(b1c.vertex_merged@[u] == b1.vertex_merged@[u]);
                    assert(b1.vertex_merged@[u] == b0.vertex_merged@[u]);
                }
            }
        } else {
            self.upper = upper_both;
            proof {
                lemma_answers_clone(&g, &b0, &saved, upper_both as int);
            }
            self.best = saved;
        }
        self.settle(Ghost(g));
    }

    /// Takes the graph as it is now for the graph that the solution is a
    /// clustering of.
    fn settle(&mut self, Ghost(g): Ghost<Graph>)
        requires
            old(self).wf(),
            g.wf(),
            old(self).graph.same_state(&g),
            old(self).best.answers(&g, old(self).upper as int),
            old(self).best.keeps(&g),
        ensures
            final(self).ready(),
            final(self).origin@ == final(self).graph,
            final(self).graph == old(self).graph,
            final(self).best == old(self).best,
            final(self).upper == old(self).upper,
            final(self).packing == old(self).packing,
            final(self).components == old(self).components,
    {
        proof {
            lemma_answers_same(&g, &self.graph, &self.best, self.upper as int);
            lemma_lifts_self(&self.graph);
            lemma_follows_self(&self.graph);
        }
        self.origin = Ghost(self.graph);
        self.spent = Ghost(0);
    }
}

/// The packing kept aside while a branch is explored is in order for the
/// graph as the branch leaves it.
pub proof fn lemma_packing_restored(p: &Packing, saved: &Packing, g: &Graph, r: &Graph)
    requires
        g.wf(),
        r.wf(),
        r.same_state(g),
        p.wf(g),
        p.counted@ == all_triples(g),
        saved.same_as(p),
    ensures
        saved.wf(r),
        saved.counted@ == all_triples(r),
{
    lemma_packing_same(p, saved, g);
    assert forall|a: int, b: int| g.is_pair(a, b) && r.is_pair(a, b) implies #[trigger] r.edge(a, b)
        == g.edge(a, b) by {
        lemma_active_below_len(g, a);
        lemma_active_below_len(g, b);
    }
    assert forall|k: int| 0 <= k < saved.triples.len() implies r.is_triple(
        (#[trigger] saved.triples@[k]).v0(),
        saved.triples@[k].v1(),
        saved.triples@[k].v2(),
    ) by {
        let t = saved.triples@[k];
        assert(g.is_triple(t.v0(), t.v1(), t.v2()));
    }
    crate::maintain::lemma_packing_transfer(saved, g, r);
    assert(all_triples(r) =~= all_triples(g));
}

} // verus!
