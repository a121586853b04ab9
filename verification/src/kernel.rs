//! Rules that shrink an instance at a price: a vertex with an almost
//! closed neighbourhood takes its neighbours in, and a positive edge with
//! a single conflict settles that conflict.

use vstd::prelude::*;
use crate::graph::{Edge, Graph};
use crate::merge::{lemma_active_below_len, lemma_merge_wf};
use crate::finish::{lemma_select};
use crate::cost::{singletons, lemma_singletons_cost, lemma_cost_fits, lemma_cost_twice};
use crate::forest::{
    lemma_lifts_self, lemma_follows_self, lemma_lifts_cut, lemma_lifts_merge, lemma_follows_merge,
    lemma_follows_same,
};

verus! {

/// What has been spent on the way from `o` to `g` fits the weights of `o`.
pub proof fn lemma_spent_fits(o: &Graph, g: &Graph, spent: int)
    requires
        o.wf(),
        g.wf(),
        g.lifts(o, spent),
    ensures
        spent <= i32::MAX,
{
    lemma_singletons_cost(g);
    let q = singletons();
    assert(g.admits(q));
    lemma_cost_twice(g, q);
    lemma_cost_fits(o, g.pull(q));
}

/// Where every clustering of `g` is one of `o` at `spent` more, the least
/// cost on `o` is at most the least cost on `g` and `spent` together.
pub proof fn lemma_lifts_bound(o: &Graph, g: &Graph, spent: int, c: int, d: int)
    requires
        g.lifts(o, spent),
        o.is_optimum(c),
        g.is_optimum(d),
    ensures
        c <= d + spent,
{
    let q = choose|q: spec_fn(int) -> int| g.admits(q) && #[trigger] g.cost(q) == d;
    assert(o.admits(g.pull(q)));
    assert(o.cost(g.pull(q)) >= c);
}

impl Graph {
    /// On how many third vertices the first `k` positive neighbours of
    /// `v` disagree with it, all together.
    pub open spec fn clash_total(&self, v: usize, k: int) -> int
        decreases k,
    {
        if k <= 0 {
            0
        } else {
            self.clash_total(v, k - 1) + self.select(
                0,
                self.active.len() as int,
                self.keeps_clash(v as int, self.neighbours(v)[k - 1].1 as int),
            ).len()
        }
    }

    /// The positive neighbours of `v`, with the position behind each.
    pub open spec fn neighbours(&self, v: usize) -> Seq<(usize, usize)> {
        self.select(0, self.active.len() as int, self.keeps_positive(v as int))
    }

    /// Whether the neighbourhood of `v` is almost closed: its positive
    /// neighbours disagree with it on no more third vertices, all
    /// together, than there are neighbours.
    pub fn almost_closed(&self, v: usize) -> (closed: bool)
        requires
            self.wf(),
            v < self.cap(),
        ensures
            closed == (self.clash_total(v, self.neighbours(v).len() as int) <= self.neighbours(
                v,
            ).len()),
    {
        let friends = self.positive(v, 0);
        let ghost keep = self.keeps_positive(v as int);
        proof {
            lemma_select(self, 0, self.active.len() as int, keep);
        }
        let mut rho: usize = 0;
        let mut closed: bool = true;
        let mut k: usize = 0;
        while k < friends.len() && closed
            invariant
                self.wf(),
                v < self.cap(),
                k <= friends.len(),
                friends@ == self.neighbours(v),
                forall|m: int|
                    0 <= m < friends.len() ==> {
                        let e = #[trigger] friends@[m];
                        &&& 0 < e.0 <= self.active.len()
                        &&& e.1 == self.active@[e.0 - 1]
                    },
                closed ==> rho == self.clash_total(v, k as int) && rho <= friends.len(),
                !closed ==> self.clash_total(v, k as int) > friends.len(),
            decreases friends.len() - k + if closed { 1int } else { 0int },
        {
            let to: usize = friends[k].1;
            proof {
                assert(self.active@[friends@[k as int].0 - 1] == to);
                assert(self.is_active(to as int));
                lemma_active_below_len(self, to as int);
            }
            let clash = self.conflict_edges(v, to, 0);
            if clash.len() > friends.len() - rho {
                closed = false;
            } else {
                rho = rho + clash.len();
            }
            k += 1;
        }
        proof {
            if !closed {
                self.lemma_clash_total_grows(v, k as int, friends.len() as int);
            }
        }
        closed
    }

    /// The total of the disagreements grows with every neighbour.
    pub proof fn lemma_clash_total_grows(&self, v: usize, k: int, n: int)
        requires
            0 <= k <= n,
        ensures
            self.clash_total(v, k) <= self.clash_total(v, n),
        decreases n - k,
    {
        if k < n {
            self.lemma_clash_total_grows(v, k, n - 1);
        }
    }
}

impl Graph {
    /// Whether the vertex at position `i` has positive neighbours and an
    /// almost closed neighbourhood.
    pub open spec fn closes(&self, i: int) -> bool {
        let v = self.active@[i];
        let n = self.neighbours(v).len() as int;
        0 <= i < self.active.len() && n > 0 && self.clash_total(v, n) <= n
    }

    /// Whether `u` is active and its neighbourhood is almost closed.
    pub open spec fn closed_at(&self, u: usize) -> bool {
        self.vertex_merged@[u as int] is None && self.clash_total(
            u,
            self.neighbours(u).len() as int,
        ) <= self.neighbours(u).len()
    }

    /// `after` is what taking `to` into `x` makes of `self`: nothing
    /// where their pair is fixed, and else their merge into `y` at its cost.
    pub open spec fn gathers(&self, x: usize, to: usize, after: &Graph, y: usize, paid: int) -> bool {
        if self.edge(x as int, to as int).fixed {
            *after == *self && y == x && paid == 0
        } else {
            after.merged_from(self, x, to) && y == self.len && paid == self.merge_cost(
                x as int,
                to as int,
            )
        }
    }

    /// The graphs on the way while `u` takes its positive neighbours in,
    /// one by one, with the vertex that `u` has become by then and the
    /// cost of each step.
    pub open spec fn is_gathering(
        &self,
        u: usize,
        steps: Seq<Graph>,
        into: Seq<usize>,
        costs: Seq<int>,
    ) -> bool {
        let friends = self.neighbours(u);
        &&& steps.len() == friends.len() + 1
        &&& into.len() == friends.len() + 1
        &&& costs.len() == friends.len()
        &&& steps[0] == *self
        &&& into[0] == u
        &&& forall|j: int|
            #![trigger costs[j]]
            0 <= j < friends.len() ==> steps[j].gathers(
                into[j],
                friends[j].1,
                &steps[j + 1],
                into[j + 1],
                costs[j],
            )
    }

    /// `after` is what the turn of `u` makes of `self`, at the cost
    /// `paid`: where `u` is active with an almost closed neighbourhood, it
    /// takes its positive neighbours in; else nothing changes.
    pub open spec fn turns_to(&self, u: usize, after: &Graph, paid: int) -> bool {
        if self.closed_at(u) {
            exists|steps: Seq<Graph>, into: Seq<usize>, costs: Seq<int>| #[trigger]
                self.is_gathering(u, steps, into, costs) && steps.last() == *after && paid
                    == paid_total(costs)
        } else {
            *after == *self && paid == 0
        }
    }

    /// The graphs after the turn of each active vertex of `self`, in
    /// their order, with the cost of each turn.
    pub open spec fn is_pass(&self, rounds: Seq<Graph>, costs: Seq<int>) -> bool {
        &&& rounds.len() == self.active.len() + 1
        &&& costs.len() == self.active.len()
        &&& rounds[0] == *self
        &&& forall|i: int|
            #![trigger costs[i]]
            0 <= i < self.active.len() ==> rounds[i].turns_to(
                self.active@[i],
                &rounds[i + 1],
                costs[i],
            )
    }
}

/// One more payment adds to the total.
pub proof fn lemma_paid_push(paid: Seq<int>, x: int)
    ensures
        paid_total(paid.push(x)) == paid_total(paid) + x,
{
    assert(paid.push(x).drop_last() =~= paid);
}

/// Every active vertex has its turn, in the order in which they stood at
/// the start: a vertex that is still active by then and whose
/// neighbourhood is almost closed takes its positive neighbours in one by
/// one, passing over a neighbour whose pair has become fixed. The cost of
/// the merges is returned. The first vertex with positive neighbours and
/// an almost closed neighbourhood is merged; where there is none, nothing
/// changes. Every clustering of the graph after that is one of the graph
/// before, at the returned cost more, so the least cost before is at most
/// the least cost after and the returned cost together; it can be less.
pub fn kernelize(graph: &mut Graph) -> (cost: u32)
    requires
        old(graph).wf(),
    ensures
        final(graph).wf(),
        exists|rounds: Seq<Graph>, costs: Seq<int>| #[trigger]
            old(graph).is_pass(rounds, costs) && rounds.last() == *final(graph) && cost
                == paid_total(costs),
        (forall|i: int| !#[trigger] old(graph).closes(i)) ==> *final(graph) == *old(graph) && cost
            == 0,
        forall|i: int|
            #[trigger] old(graph).closes(i) && (forall|k: int|
                0 <= k < i ==> !#[trigger] old(graph).closes(k)) ==> final(graph).vertex_merged@[old(graph).active@[i] as int] is Some,
        final(graph).lifts(old(graph), cost as int),
        final(graph).follows(old(graph)),
        forall|c: int, d: int|
            #![trigger old(graph).is_optimum(c), final(graph).is_optimum(d)]
            old(graph).is_optimum(c) && final(graph).is_optimum(d) ==> c <= d + cost,
{
    let ghost o = *old(graph);
    let order: Vec<usize> = graph.active.clone();
    proof {
        assert(order@ =~= o.active@);
        lemma_lifts_self(&o);
        lemma_follows_self(&o);
    }
    let mut cost: u32 = 0;
    let ghost mut rounds: Seq<Graph> = seq![o];
    let ghost mut paid: Seq<int> = Seq::empty();
    let ghost mut first: int = -1;
    let mut i: usize = 0;
    while i < order.len()
        invariant
            o.wf(),
            graph.wf(),
            graph.lifts(&o, cost as int),
            graph.follows(&o),
            graph.cap() == o.cap(),
            order@ == o.active@,
            i <= order.len(),
            forall|k: int|
                0 <= k < order.len() ==> (#[trigger] order@[k]) < graph.cap() && (graph.is_active(
                    order@[k] as int,
                ) || graph.vertex_merged@[order@[k] as int] is Some),
            rounds.len() == i + 1,
            paid.len() == i,
            rounds[0] == o,
            rounds.last() == *graph,
            forall|k: int|
                #![trigger paid[k]]
                0 <= k < i ==> rounds[k].turns_to(o.active@[k], &rounds[k + 1], paid[k]),
            cost == paid_total(paid),
            -1 <= first < i,
            first == -1 ==> *graph == o && cost == 0 && forall|k: int|
                0 <= k < i ==> !#[trigger] o.closes(k),
            first >= 0 ==> o.closes(first) && (forall|k: int|
                0 <= k < first ==> !#[trigger] o.closes(k))
                && graph.vertex_merged@[o.active@[first] as int] is Some,
        decreases order.len() - i,
    {
        let u: usize = order[i];
        let ghost start = *graph;
        let ghost before: int = cost as int;
        proof {
            if first == -1 {
                assert(o.is_active(u as int));
                lemma_active_below_len(&o, u as int);
            }
        }
        match graph.vertex_merged[u] {
            Some(_) => {},
            None => {
                let friends = graph.positive(u, 0);
                let ghost keep = graph.keeps_positive(u as int);
                proof {
                    lemma_select(graph, 0, graph.active.len() as int, keep);
                    assert forall|k: int| 0 <= k < friends.len() implies graph.is_active(
                        (#[trigger] friends@[k]).1 as int,
                    ) && friends@[k].1 != u && graph.weight(u as int, friends@[k].1 as int)
                        > 0 by {
                        let e = friends@[k];
                        assert(keep(e.1 as int));
                        assert(graph.active@[e.0 - 1] == e.1);
                    }
                    assert forall|k: int, l: int| 0 <= k < l < friends.len() implies (
                    #[trigger] friends@[k]).1 != (#[trigger] friends@[l]).1 by {
                        assert(friends@[k].0 < friends@[l].0);
                    }
                    lemma_active_below_len(graph, u as int);
                }
                let closed: bool = graph.almost_closed(u);
                proof {
                    assert(friends@ == start.neighbours(u));
                    assert(closed == start.closed_at(u));
                    if first == -1 {
                        assert(closed && friends.len() > 0 <==> o.closes(i as int));
                    }
                }
                if closed {
                    let mut x: usize = u;
                    let mut j: usize = 0;
                    let ghost mut steps: Seq<Graph> = seq![start];
                    let ghost mut into: Seq<usize> = seq![u];
                    let ghost mut costs: Seq<int> = Seq::empty();
                    while j < friends.len()
                        invariant
                            o.wf(),
                            graph.wf(),
                            graph.lifts(&o, cost as int),
                            graph.follows(&o),
                            graph.cap() == o.cap(),
                            i < order.len(),
                            u == order@[i as int],
                            u < graph.cap(),
                            j <= friends.len(),
                            graph.is_active(x as int),
                            j == 0 ==> x == u && *graph == start,
                            j > 0 ==> graph.vertex_merged@[u as int] is Some,
                            friends.len() > 0 ==> start.weight(u as int, friends@[0].1 as int) > 0,
                            start.wf(),
                            forall|m: int|
                                j <= m < friends.len() ==> graph.is_active(
                                    (#[trigger] friends@[m]).1 as int,
                                ) && friends@[m].1 != x,
                            forall|m: int, l: int|
                                0 <= m < l < friends.len() ==> (#[trigger] friends@[m]).1 != (
                                #[trigger] friends@[l]).1,
                            forall|m: int|
                                0 <= m < order.len() ==> (#[trigger] order@[m]) < graph.cap() && (
                                graph.is_active(order@[m] as int)
                                    || graph.vertex_merged@[order@[m] as int] is Some),
                            friends@ == start.neighbours(u),
                            steps.len() == j + 1,
                            into.len() == j + 1,
                            costs.len() == j,
                            steps[0] == start,
                            into[0] == u,
                            steps.last() == *graph,
                            into.last() == x,
                            forall|m: int|
                                #![trigger costs[m]]
                                0 <= m < j ==> steps[m].gathers(
                                    into[m],
                                    friends@[m].1,
                                    &steps[m + 1],
                                    into[m + 1],
                                    costs[m],
                                ),
                            cost == before + paid_total(costs),
                            first >= 0 ==> graph.vertex_merged@[o.active@[first] as int] is Some
                                && 0 <= o.active@[first] < o.cap(),
                            first == -1 && j == 0 ==> start == o && cost == 0,
                        decreases friends.len() - j,
                    {
                        let to: usize = friends[j].1;
                        let ghost g = *graph;
                        let ghost was = x;
                        let ghost mut spent_now: int = 0;
                        proof {
                            lemma_active_below_len(graph, x as int);
                            lemma_active_below_len(graph, to as int);
                            assert(graph.is_pair(x as int, to as int));
                            assert(graph.edge(x as int, to as int).ok());
                        }
                        if !graph.edges.get(x, to).fixed {
                            let (vv, spent) = graph.merge(x, to);
                            proof {
                                lemma_merge_wf(&g, graph, x, to);
                                lemma_lifts_merge(&o, &g, graph, x, to, cost as int);
                                lemma_follows_merge(&o, &g, graph, x, to);
                                lemma_spent_fits(&o, graph, cost as int + spent as int);
                                assert forall|m: int|
                                    j + 1 <= m < friends.len() implies graph.is_active(
                                    (#[trigger] friends@[m]).1 as int,
                                ) && friends@[m].1 != vv by {
                                    let b = friends@[m].1 as int;
                                    assert(friends@[j as int].1 != friends@[m].1);
                                    assert(g.is_third(x as int, to as int, b));
                                    lemma_active_below_len(&g, b);
                                }
                                assert forall|m: int| 0 <= m < order.len() implies (
                                #[trigger] order@[m]) < graph.cap() && (graph.is_active(
                                    order@[m] as int,
                                ) || graph.vertex_merged@[order@[m] as int] is Some) by {
                                    let c = order@[m] as int;
                                    if g.is_active(c) && c != x && c != to {
                                        assert(g.is_third(x as int, to as int, c));
                                    }
                                }
                                spent_now = spent as int;
                            }
                            cost += spent;
                            x = vv;
                        }
                        proof {
                            assert(g.gathers(was, to, graph, x, spent_now));
                            let longer = steps.push(*graph);
                            let wider = into.push(x);
                            let more = costs.push(spent_now);
                            assert forall|m: int|
                                #![trigger more[m]]
                                0 <= m < j + 1 implies longer[m].gathers(
                                wider[m],
                                friends@[m].1,
                                &longer[m + 1],
                                wider[m + 1],
                                more[m],
                            ) by {
                                if m < j {
                                    assert(longer[m] == steps[m]);
                                    assert(longer[m + 1] == steps[m + 1]);
                                    assert(wider[m] == into[m]);
                                    assert(wider[m + 1] == into[m + 1]);
                                    assert(more[m] == costs[m]);
                                }
                            }
                            lemma_paid_push(costs, spent_now);
                            steps = longer;
                            into = wider;
                            costs = more;
                        }
                        j += 1;
                    }
                    proof {
                        if first == -1 && friends.len() > 0 {
                            first = i as int;
                        }
                        assert(start.is_gathering(u, steps, into, costs));
                    }
                }
            },
        }
        proof {
            let spent_here = cost as int - before;
            assert(start.turns_to(u, graph, spent_here));
            let longer = rounds.push(*graph);
            let more = paid.push(spent_here);
            assert forall|k: int|
                #![trigger more[k]]
                0 <= k < i + 1 implies longer[k].turns_to(
                o.active@[k],
                &longer[k + 1],
                more[k],
            ) by {
                if k < i {
                    assert(longer[k] == rounds[k]);
                    assert(longer[k + 1] == rounds[k + 1]);
                    assert(more[k] == paid[k]);
                }
            }
            lemma_paid_push(paid, spent_here);
            rounds = longer;
            paid = more;
        }
        i += 1;
    }
    proof {
        assert(o.is_pass(rounds, paid));
        if first == -1 {
            assert forall|k: int| !#[trigger] o.closes(k) by {}
        } else {
            assert(!(forall|k: int| !#[trigger] o.closes(k)));
            assert forall|k: int|
                #[trigger] o.closes(k) && (forall|l: int| 0 <= l < k ==> !#[trigger] o.closes(l))
                implies graph.vertex_merged@[o.active@[k] as int] is Some by {
                if k < first {
                    assert(!o.closes(k));
                }
                if first < k {
                    assert(!o.closes(first));
                }
            }
        }
        assert forall|c: int, d: int|
            #![trigger o.is_optimum(c), graph.is_optimum(d)]
            o.is_optimum(c) && graph.is_optimum(d) implies c <= d + cost by {
            lemma_lifts_bound(&o, graph, cost as int, c, d);
        }
    }
    cost
}

/// What one round of `kernel2` found to do.
#[derive(Debug, Clone, Copy, PartialEq, Eq, Structural)]
pub enum Step {
    /// Merge the two vertices.
    Join(usize, usize),
    /// Cut the edge of the two vertices.
    Part(usize, usize),
    /// Nothing.
    Rest,
}

impl Graph {
    /// The third vertices on which `v1` and `v2` disagree, with the position behind each.
    pub open spec fn clashes(&self, v1: usize, v2: usize) -> Seq<(usize, usize)> {
        self.select(0, self.active.len() as int, self.keeps_clash(v1 as int, v2 as int))
    }

    /// What there is to do for the positive edge of `v` and `w`, if it
    /// has a single conflict. Let `v3` be the vertex of the conflict, `v2`
    /// the end of the edge with a positive edge to `v3`, and `v1` the
    /// other end. Where `v1` and `v3` disagree on no vertex and their pair
    /// is undecided, they are to be merged; where they share no neighbour
    /// but `v2`, the edge of `v2` and `v3` is to be cut.
    pub open spec fn step_at(&self, v: usize, w: usize) -> Step {
        let clash = self.clashes(v, w);
        if clash.len() == 1 {
            let v3 = clash[0].1;
            let towards = self.weight(v as int, v3 as int) > 0;
            let v1 = if towards {
                w
            } else {
                v
            };
            let v2 = if towards {
                v
            } else {
                w
            };
            let apart = self.clashes(v1, v3).len();
            if apart == 0 {
                if !self.edge(v1 as int, v3 as int).fixed {
                    Step::Join(v1, v3)
                } else {
                    Step::Rest
                }
            } else if self.neighbours(v1).len() >= 1 && self.neighbours(v3).len() >= 1 && apart
                == self.neighbours(v1).len() - 1 + self.neighbours(v3).len() - 1 {
                Step::Part(v2, v3)
            } else {
                Step::Rest
            }
        } else {
            Step::Rest
        }
    }

    /// What there is to do for the `j`-th positive neighbour of the vertex at position `i`.
    pub open spec fn step_of(&self, i: int, j: int) -> Step {
        self.step_at(self.active@[i], self.neighbours(self.active@[i])[j].1)
    }

    /// Whether `j` numbers a positive neighbour of the vertex at position `i`.
    pub open spec fn is_turn(&self, i: int, j: int) -> bool {
        0 <= i < self.active.len() && 0 <= j < self.neighbours(self.active@[i]).len()
    }

    /// No positive edge has anything to do.
    pub open spec fn no_step(&self) -> bool {
        forall|i: int, j: int| self.is_turn(i, j) ==> #[trigger] self.step_of(i, j) == Step::Rest
    }

    /// `step` is the first thing to do, found at the `j`-th positive
    /// neighbour of the vertex at position `i`.
    pub open spec fn is_first_step(&self, step: Step, i: int, j: int) -> bool {
        &&& self.is_turn(i, j)
        &&& step == self.step_of(i, j)
        &&& step != Step::Rest
        &&& forall|k: int, l: int|
            self.is_turn(k, l) && (k < i || (k == i && l < j)) ==> #[trigger] self.step_of(k, l)
                == Step::Rest
    }

    /// What a step costs: the cost of the merge, or the weight of the edge that is cut.
    pub open spec fn step_cost(&self, step: Step) -> int {
        match step {
            Step::Join(a, b) => self.merge_cost(a as int, b as int),
            Step::Part(a, b) => if self.weight(a as int, b as int) > 0 {
                self.weight(a as int, b as int)
            } else {
                0
            },
            Step::Rest => 0,
        }
    }

    /// `after` is what `step` makes of `self`.
    pub open spec fn applies(&self, step: Step, after: &Graph) -> bool {
        match step {
            Step::Join(a, b) => after.merged_from(self, a, b),
            Step::Part(a, b) => after.same_vertices(self) && after.edges_same_except(
                self,
                a as int,
                b as int,
            ) && after.edge(a as int, b as int) == Edge::spec_none(),
            Step::Rest => false,
        }
    }

    /// `after` is what the first thing to do makes of `self`, at the cost `paid`.
    pub open spec fn steps_to(&self, after: &Graph, paid: int) -> bool {
        exists|step: Step, i: int, j: int| #[trigger]
            self.is_first_step(step, i, j) && self.applies(step, after) && paid == self.step_cost(
                step,
            )
    }

    /// There is one first thing to do at most.
    pub proof fn lemma_first_step_unique(&self, s1: Step, i1: int, j1: int, s2: Step, i2: int, j2: int)
        requires
            self.is_first_step(s1, i1, j1),
            self.is_first_step(s2, i2, j2),
        ensures
            s1 == s2,
            i1 == i2,
            j1 == j2,
    {
        if i1 < i2 || (i1 == i2 && j1 < j2) {
            assert(self.step_of(i1, j1) == Step::Rest);
        }
        if i2 < i1 || (i2 == i1 && j2 < j1) {
            assert(self.step_of(i2, j2) == Step::Rest);
        }
    }

    /// The first thing to do for a positive edge with a single conflict:
    /// the edges are gone through by the position of one end and then of
    /// the other.
    pub fn single_conflict(&self) -> (step: Step)
        requires
            self.wf(),
        ensures
            match step {
                Step::Join(v1, v3) => self.is_pair(v1 as int, v3 as int) && !self.edge(
                    v1 as int,
                    v3 as int,
                ).fixed,
                Step::Part(v2, v3) => self.is_pair(v2 as int, v3 as int) && self.weight(
                    v2 as int,
                    v3 as int,
                ) > 0,
                Step::Rest => true,
            },
            step == Step::Rest ==> self.no_step(),
            step != Step::Rest ==> exists|i: int, j: int| #[trigger] self.is_first_step(step, i, j),
    {
        let n: usize = self.active.len();
        let mut i: usize = 0;
        while i < n
            invariant
                self.wf(),
                n == self.active.len(),
                i <= n,
                forall|k: int, l: int|
                    0 <= k < i && 0 <= l < self.neighbours(self.active@[k]).len() ==> #[trigger] self.step_of(k, l) == Step::Rest,
            decreases n - i,
        {
            let vertex: usize = self.active[i];
            proof {
                assert(self.is_active(vertex as int));
                lemma_active_below_len(self, vertex as int);
            }
            let friends = self.positive(vertex, 0);
            let ghost keep = self.keeps_positive(vertex as int);
            proof {
                lemma_select(self, 0, n as int, keep);
            }
            let mut j: usize = 0;
            while j < friends.len()
                invariant
                    self.wf(),
                    n == self.active.len(),
                    i < n,
                    vertex == self.active@[i as int],
                    vertex < self.cap(),
                    self.is_active(vertex as int),
                    j <= friends.len(),
                    friends@ == self.neighbours(vertex),
                    forall|m: int|
                        0 <= m < friends.len() ==> {
                            let e = #[trigger] friends@[m];
                            &&& 0 < e.0 <= n
                            &&& e.1 == self.active@[e.0 - 1]
                            &&& keep(e.1 as int)
                        },
                    keep == self.keeps_positive(vertex as int),
                    forall|k: int, l: int|
                        0 <= k < self.active.len() && 0 <= l < self.neighbours(self.active@[k]).len() && (k
                            < i || (k == i && l < j)) ==> #[trigger] self.step_of(k, l) == Step::Rest,
                decreases friends.len() - j,
            {
                let other: usize = friends[j].1;
                proof {
                    assert(keep(friends@[j as int].1 as int));
                    assert(self.active@[friends@[j as int].0 - 1] == other);
                    assert(self.is_active(other as int));
                    lemma_active_below_len(self, other as int);
                }
                let clash = self.conflict_edges(vertex, other, 0);
                let mut step = Step::Rest;
                if clash.len() == 1 {
                    let v3: usize = clash[0].1;
                    let ghost differ = self.keeps_clash(vertex as int, other as int);
                    proof {
                        lemma_select(self, 0, n as int, differ);
                        assert(differ(clash@[0].1 as int));
                        assert(self.active@[clash@[0].0 - 1] == v3);
                        assert(self.is_active(v3 as int));
                        lemma_active_below_len(self, v3 as int);
                        assert(self.is_pair(vertex as int, v3 as int));
                        assert(self.is_pair(other as int, v3 as int));
                    }
                    let towards: bool = self.edges.get(vertex, v3).weight > 0;
                    let v1: usize = if towards {
                        other
                    } else {
                        vertex
                    };
                    let v2: usize = if towards {
                        vertex
                    } else {
                        other
                    };
                    let between = self.edges.get(v1, v3);
                    let across = self.conflict_edges(v1, v3, 0);
                    let apart: usize = across.len();
                    if apart == 0 {
                        if !between.fixed {
                            step = Step::Join(v1, v3);
                        }
                    } else {
                        let near1 = self.positive(v1, 0);
                        let near3 = self.positive(v3, 0);
                        let d1: usize = near1.len();
                        let d3: usize = near3.len();
                        if d1 >= 1 && d3 >= 1 && apart as u128 == (d1 as u128 - 1) + (d3 as u128
                            - 1) {
                            step = Step::Part(v2, v3);
                        }
                    }
                }
                proof {
                    assert(step == self.step_at(vertex, other));
                }
                if step != Step::Rest {
                    proof {
                        assert(step == self.step_of(i as int, j as int));
                        assert(self.is_first_step(step, i as int, j as int));
                    }
                    return step;
                }
                j += 1;
            }
            i += 1;
        }
        Step::Rest
    }
}

/// The graphs of a run: each is what the first thing to do makes of
/// the one before, at the cost paid for it.
pub open spec fn is_run(trace: Seq<Graph>, paid: Seq<int>) -> bool {
    &&& trace.len() == paid.len() + 1
    &&& forall|k: int| 0 <= k < paid.len() ==> (#[trigger] trace[k]).steps_to(&trace[k + 1], paid[k])
}

/// All that was paid.
pub open spec fn paid_total(paid: Seq<int>) -> int
    decreases paid.len(),
{
    if paid.len() == 0 {
        0
    } else {
        paid_total(paid.drop_last()) + paid.last()
    }
}

/// Settles single conflicts until no positive edge has anything to do:
/// the first thing to do is done, over and over, and what it cost is
/// returned. Every clustering of the graph after that is one of the graph
/// before, at the returned cost more, so the least cost before is at most
/// the least cost after and the returned cost together; where the weights
/// differ in magnitude it can be less.
pub fn kernel2(graph: &mut Graph) -> (cost: u32)
    requires
        old(graph).wf(),
    ensures
        final(graph).wf(),
        final(graph).no_step(),
        exists|trace: Seq<Graph>, paid: Seq<int>| #[trigger]
            is_run(trace, paid) && trace[0] == *old(graph) && trace.last() == *final(graph) && cost
                == paid_total(paid),
        forall|step: Step, i: int, j: int| #[trigger]
            old(graph).is_first_step(step, i, j) ==> cost >= old(graph).step_cost(step),
        final(graph).lifts(old(graph), cost as int),
        final(graph).follows(old(graph)),
        forall|c: int, d: int|
            #![trigger old(graph).is_optimum(c), final(graph).is_optimum(d)]
            old(graph).is_optimum(c) && final(graph).is_optimum(d) ==> c <= d + cost,
{
    let ghost o = *old(graph);
    proof {
        lemma_lifts_self(&o);
        lemma_follows_self(&o);
        lemma_spent_fits(&o, &o, 0);
    }
    let mut cost: u32 = 0;
    let ghost mut trace: Seq<Graph> = seq![o];
    let ghost mut paid: Seq<int> = Seq::empty();
    let mut step = graph.single_conflict();
    while step != Step::Rest
        invariant
            o.wf(),
            graph.wf(),
            graph.lifts(&o, cost as int),
            graph.follows(&o),
            cost <= i32::MAX,
            step == Step::Rest ==> graph.no_step(),
            step != Step::Rest ==> exists|i: int, j: int| #[trigger] graph.is_first_step(step, i, j),
            match step {
                Step::Join(v1, v3) => graph.is_pair(v1 as int, v3 as int) && !graph.edge(
                    v1 as int,
                    v3 as int,
                ).fixed,
                Step::Part(v2, v3) => graph.is_pair(v2 as int, v3 as int) && graph.weight(
                    v2 as int,
                    v3 as int,
                ) > 0,
                Step::Rest => true,
            },
            is_run(trace, paid),
            trace[0] == o,
            trace.last() == *graph,
            cost == paid_total(paid),
            forall|k: int| 0 <= k < paid.len() ==> #[trigger] paid[k] >= 0,
            paid.len() > 0 ==> cost >= paid[0],
        decreases graph.active.len(), graph.open_pairs(),
    {
        let ghost g = *graph;
        let ghost (i, j) = choose|i: int, j: int| #[trigger] g.is_first_step(step, i, j);
        let spent: u32 = match step {
            Step::Join(v1, v3) => {
                let (_, spent) = graph.merge(v1, v3);
                proof {
                    lemma_merge_wf(&g, graph, v1, v3);
                    lemma_lifts_merge(&o, &g, graph, v1, v3, cost as int);
                    lemma_follows_merge(&o, &g, graph, v1, v3);
                    crate::merge::lemma_merge_cost_fits(&g, v1 as int, v3 as int);
                }
                spent
            },
            Step::Part(v2, v3) => {
                proof {
                    assert(g.edge(v2 as int, v3 as int).ok());
                }
                let edge = graph.cut(v2, v3);
                proof {
                    lemma_lifts_cut(&o, &g, graph, v2, v3, cost as int);
                    lemma_follows_same(&o, &g, graph);
                    crate::optimal::lemma_cut_open_pairs(&g, graph, v2, v3);
                }
                edge.weight as u32
            },
            Step::Rest => 0,
        };
        proof {
            lemma_spent_fits(&o, graph, cost as int + spent as int);
            assert(g.is_first_step(step, i, j) && g.applies(step, graph) && spent as int
                == g.step_cost(step));
            assert(g.steps_to(graph, spent as int));
            let longer = trace.push(*graph);
            let more = paid.push(spent as int);
            assert forall|k: int| 0 <= k < more.len() implies (#[trigger] longer[k]).steps_to(
                &longer[k + 1],
                more[k],
            ) by {
                if k < paid.len() {
                    assert(longer[k] == trace[k]);
                    assert(longer[k + 1] == trace[k + 1]);
                    assert(more[k] == paid[k]);
                }
            }
            assert(more.drop_last() =~= paid);
            trace = longer;
            paid = more;
        }
        cost += spent;
        step = graph.single_conflict();
    }
    proof {
        assert forall|s: Step, i: int, j: int| #[trigger] o.is_first_step(s, i, j) implies cost
            >= o.step_cost(s) by {
            if paid.len() == 0 {
                assert(o.is_turn(i, j));
                assert(o.step_of(i, j) == Step::Rest);
            } else {
                assert(trace[0].steps_to(&trace[1], paid[0]));
                let (s0, i0, j0) = choose|s0: Step, i0: int, j0: int| #[trigger]
                    o.is_first_step(s0, i0, j0) && o.applies(s0, &trace[1]) && paid[0]
                        == o.step_cost(s0);
                o.lemma_first_step_unique(s, i, j, s0, i0, j0);
            }
        }
        assert forall|c: int, d: int|
            #![trigger o.is_optimum(c), graph.is_optimum(d)]
            o.is_optimum(c) && graph.is_optimum(d) implies c <= d + cost by {
            lemma_lifts_bound(&o, graph, cost as int, c, d);
        }
    }
    cost
}

} // verus!
