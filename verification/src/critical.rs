//! Rules that settle what needs no search.

use vstd::prelude::*;
use crate::graph::{Edge, Graph};
use crate::merge::lemma_active_below_len;
use crate::finish::lemma_select;
use crate::component::lemma_select_complete;
use crate::forest::{
    lemma_lifts_self, lemma_follows_self, lemma_lifts_cut, lemma_follows_same, lemma_lifts_merge,
    lemma_follows_merge, lemma_root, lemma_root_merged,
};
use crate::merge::{lemma_merge_wf, lemma_two_edges_fit};
use crate::sums::lemma_sum_zero;
use crate::exchange::{lemma_forced_cut_optimum, lemma_critical_optimum, lemma_merge_open};

verus! {

impl Graph {
    /// Whether `a` and `b` share a third active vertex with a positive edge to both.
    pub open spec fn has_common_friend(&self, a: int, b: int) -> bool {
        exists|c: int| #[trigger]
            self.is_third(a, b, c) && self.weight(a, c) > 0 && self.weight(b, c) > 0
    }

    /// Whether the pair `{a, b}` is forced apart: its edge is undecided and
    /// negative, and no third vertex has a positive edge to both, so the
    /// pair is part of no conflict.
    pub open spec fn is_forced_apart(&self, a: int, b: int) -> bool {
        self.is_pair(a, b) && !self.edge(a, b).fixed && self.weight(a, b) < 0
            && !self.has_common_friend(a, b)
    }
}

/// Cuts every pair that is forced apart. Every clustering of the graph
/// after that is one of the graph before, at the same cost; where all
/// weights are `1` or `-1`, the least cost of a clustering stays what it was.
pub fn propagate(graph: &mut Graph)
    requires
        old(graph).wf(),
    ensures
        final(graph).wf(),
        final(graph).same_vertices(old(graph)),
        forall|a: int, b: int| #[trigger]
            old(graph).is_pair(a, b) ==> final(graph).edge(a, b) == if old(graph).is_forced_apart(
                a,
                b,
            ) {
                Edge::spec_none()
            } else {
                old(graph).edge(a, b)
            },
        final(graph).lifts(old(graph), 0),
        final(graph).follows(old(graph)),
        old(graph).is_unit() ==> forall|c: int|
            old(graph).is_optimum(c) ==> #[trigger] final(graph).is_optimum(c),
{
    let ghost o = *old(graph);
    let n: usize = graph.active.len();
    proof {
        lemma_lifts_self(&o);
        lemma_follows_self(&o);
    }
    let mut i1: usize = 0;
    while i1 < n
        invariant
            o.wf(),
            graph.wf(),
            graph.same_vertices(&o),
            n == graph.active.len(),
            i1 <= n,
            graph.lifts(&o, 0),
            graph.follows(&o),
            forall|a: int, b: int| #[trigger]
                o.is_pair(a, b) ==> (graph.weight(a, b) > 0) == (o.weight(a, b) > 0),
            forall|p: int, q: int|
                0 <= p < q < n ==> graph.edge(#[trigger] o.at(p), #[trigger] o.at(q)) == if p < i1
                    && o.is_forced_apart(o.at(p), o.at(q)) {
                    Edge::spec_none()
                } else {
                    o.edge(o.at(p), o.at(q))
                },
        decreases n - i1,
    {
        let v1: usize = graph.active[i1];
        let mut i2: usize = i1 + 1;
        while i2 < n
            invariant
                o.wf(),
                graph.wf(),
                graph.same_vertices(&o),
                n == graph.active.len(),
                i1 < i2 <= n,
                v1 == o.active@[i1 as int],
                graph.lifts(&o, 0),
                graph.follows(&o),
                forall|a: int, b: int| #[trigger]
                    o.is_pair(a, b) ==> (graph.weight(a, b) > 0) == (o.weight(a, b) > 0),
                forall|p: int, q: int|
                    0 <= p < q < n ==> graph.edge(#[trigger] o.at(p), #[trigger] o.at(q)) == if (p
                        < i1 || (p == i1 && q < i2)) && o.is_forced_apart(o.at(p), o.at(q)) {
                        Edge::spec_none()
                    } else {
                        o.edge(o.at(p), o.at(q))
                    },
            decreases n - i2,
        {
            let v2: usize = graph.active[i2];
            proof {
                assert(o.is_active(v1 as int) && o.is_active(v2 as int));
                assert(graph.is_active(v1 as int) && graph.is_active(v2 as int));
                lemma_active_below_len(&o, v1 as int);
                lemma_active_below_len(&o, v2 as int);
                assert(graph.edge(o.at(i1 as int), o.at(i2 as int)) == o.edge(
                    v1 as int,
                    v2 as int,
                ));
            }
            let edge = graph.edges.get(v1, v2);
            if !edge.fixed && edge.weight < 0 {
                let shared = graph.two_edges(v1, v2, 0);
                let ghost both = graph.keeps_shared(v1 as int, v2 as int);
                proof {
                    lemma_select(graph, 0, n as int, both);
                    if shared.len() > 0 {
                        let e = shared@[0];
                        let c = e.1 as int;
                        assert(both(c));
                        assert(graph.active@[e.0 - 1] == e.1);
                        assert(o.is_third(v1 as int, v2 as int, c));
                        assert(o.is_pair(v1 as int, c) && o.is_pair(v2 as int, c));
                    } else {
                        if o.has_common_friend(v1 as int, v2 as int) {
                            let c = choose|c: int| #[trigger]
                                o.is_third(v1 as int, v2 as int, c) && o.weight(v1 as int, c) > 0
                                    && o.weight(v2 as int, c) > 0;
                            assert(o.is_pair(v1 as int, c) && o.is_pair(v2 as int, c));
                            assert(graph.is_active(c));
                            lemma_select_complete(graph, 0, n as int, both, c);
                        }
                    }
                }
                if shared.len() == 0 {
                    let ghost g = *graph;
                    graph.cut(v1, v2);
                    proof {
                        lemma_lifts_cut(&o, &g, graph, v1, v2, 0);
                        lemma_follows_same(&o, &g, graph);
                        assert forall|a: int, b: int| #[trigger] o.is_pair(a, b) implies (
                        graph.weight(a, b) > 0) == (o.weight(a, b) > 0) by {
                            lemma_active_below_len(&o, a);
                            lemma_active_below_len(&o, b);
                            assert(graph.edge(v1 as int, v2 as int) == graph.edge(
                                v2 as int,
                                v1 as int,
                            ));
                            assert(g.edge(v1 as int, v2 as int) == g.edge(v2 as int, v1 as int));
                            if !((a == v1 && b == v2) || (a == v2 && b == v1)) {
                                assert(graph.edge(a, b) == g.edge(a, b));
                            }
                        }
                        assert forall|p: int, q: int| 0 <= p < q < n implies graph.edge(
                            #[trigger] o.at(p),
                            #[trigger] o.at(q),
                        ) == if (p < i1 || (p == i1 && q < i2 + 1)) && o.is_forced_apart(
                            o.at(p),
                            o.at(q),
                        ) {
                            Edge::spec_none()
                        } else {
                            o.edge(o.at(p), o.at(q))
                        } by {
                            assert(o.is_active(o.at(p)) && o.is_active(o.at(q)));
                            lemma_active_below_len(&o, o.at(p));
                            lemma_active_below_len(&o, o.at(q));
                            if !(p == i1 && q == i2) {
                                assert(graph.edge(o.at(p), o.at(q)) == g.edge(o.at(p), o.at(q)));
                            }
                        }
                    }
                }
            }
            i2 += 1;
        }
        i1 += 1;
    }
    proof {
        assert forall|a: int, b: int| #[trigger] o.is_pair(a, b) implies graph.edge(a, b) == if o.is_forced_apart(
            a,
            b,
        ) {
            Edge::spec_none()
        } else {
            o.edge(a, b)
        } by {
            crate::turns::lemma_place(&o, a);
            crate::turns::lemma_place(&o, b);
            let p = o.place(a);
            let q = o.place(b);
            assert(o.edge(a, b) == o.edge(b, a));
            assert(graph.edge(a, b) == graph.edge(b, a));
            if p < q {
                assert(graph.edge(o.at(p), o.at(q)) == if o.is_forced_apart(o.at(p), o.at(q)) {
                    Edge::spec_none()
                } else {
                    o.edge(o.at(p), o.at(q))
                });
            } else {
                assert(graph.edge(o.at(q), o.at(p)) == if o.is_forced_apart(o.at(q), o.at(p)) {
                    Edge::spec_none()
                } else {
                    o.edge(o.at(q), o.at(p))
                });
                lemma_forced_symmetric(&o, a, b);
            }
        }
        assert(graph.forced_cut_of(&o));
        if o.is_unit() {
            assert forall|c: int| o.is_optimum(c) implies #[trigger] graph.is_optimum(c) by {
                lemma_forced_cut_optimum(&o, graph, c);
            }
        }
    }
}

/// Whether a pair is forced apart does not depend on the order of its ends.
pub proof fn lemma_forced_symmetric(g: &Graph, a: int, b: int)
    ensures
        g.is_forced_apart(a, b) == g.is_forced_apart(b, a),
{
    assert(g.edge(a, b) == g.edge(b, a));
    if g.has_common_friend(a, b) {
        let c = choose|c: int| #[trigger]
            g.is_third(a, b, c) && g.weight(a, c) > 0 && g.weight(b, c) > 0;
        assert(g.is_third(b, a, c));
    }
    if g.has_common_friend(b, a) {
        let c = choose|c: int| #[trigger]
            g.is_third(b, a, c) && g.weight(b, c) > 0 && g.weight(a, c) > 0;
        assert(g.is_third(a, b, c));
    }
}


impl Graph {
    /// Whether `a` and `b` are a critical pair: they share a positive
    /// edge, and no third active vertex has a positive edge to just one of them.
    pub open spec fn is_critical(&self, a: int, b: int) -> bool {
        &&& self.is_pair(a, b)
        &&& self.weight(a, b) > 0
        &&& forall|c: int| self.is_third(a, b, c) ==> !#[trigger] self.disagree(a, b, c)
    }

    /// The active vertex `r` is part of no critical pair.
    pub open spec fn is_apart(&self, r: int) -> bool {
        forall|z: int| self.is_active(z) && z != r ==> !#[trigger] self.is_critical(r, z)
    }

    /// `self` is what merges of critical pairs have made of `o`: the
    /// forest of `o` goes on in `self`, and two active vertices of `o` are a
    /// critical pair where the vertices that stand for them are the same or
    /// a critical pair.
    pub open spec fn contracts(&self, o: &Graph) -> bool {
        &&& self.cap() == o.cap()
        &&& forall|v: int|
            0 <= v < self.cap() ==> #[trigger] self.root_spec(v) == self.root_spec(o.root_spec(v))
        &&& forall|x: int| o.is_active(x) ==> self.is_active(#[trigger] self.root_spec(x))
        &&& forall|x: int, y: int| #[trigger]
            o.is_pair(x, y) ==> (self.root_spec(x) == self.root_spec(y) || self.is_critical(
                self.root_spec(x),
                self.root_spec(y),
            )) == o.is_critical(x, y)
    }
}

/// Whether a pair is critical does not depend on the order of its ends.

pub proof fn lemma_critical_symmetric(g: &Graph, a: int, b: int)
    ensures
        g.is_critical(a, b) == g.is_critical(b, a),
{
    assert(g.edge(a, b) == g.edge(b, a));
    if g.is_critical(a, b) {
        assert forall|c: int| g.is_third(b, a, c) implies !#[trigger] g.disagree(b, a, c) by {
            assert(g.is_third(a, b, c));
            assert(!g.disagree(a, b, c));
        }
    }
    if g.is_critical(b, a) {
        assert forall|c: int| g.is_third(a, b, c) implies !#[trigger] g.disagree(a, b, c) by {
            assert(g.is_third(b, a, c));
            assert(!g.disagree(b, a, c));
        }
    }
}

/// Two vertices that are each critical with a third are critical with each other.
pub proof fn lemma_critical_shared(g: &Graph, a: int, b: int, c: int)
    requires
        g.is_critical(a, b),
        g.is_critical(a, c),
        b != c,
    ensures
        g.is_critical(b, c),
{
    assert(g.edge(a, b) == g.edge(b, a));
    assert(g.edge(a, c) == g.edge(c, a));
    assert(g.edge(b, c) == g.edge(c, b));
    assert(g.is_third(a, b, c));
    assert(!g.disagree(a, b, c));
    assert forall|d: int| g.is_third(b, c, d) implies !#[trigger] g.disagree(b, c, d) by {
        assert(g.edge(b, d) == g.edge(d, b));
        assert(g.edge(c, d) == g.edge(d, c));
        if d != a {
            assert(g.is_third(a, b, d));
            assert(g.is_third(a, c, d));
            assert(!g.disagree(a, b, d));
            assert(!g.disagree(a, c, d));
        }
    }
}

/// What a merge of a critical pair keeps: the signs towards every third
/// vertex, and which pairs are critical. It costs nothing.
pub proof fn lemma_merge_critical(g: &Graph, h: &Graph, v1: usize, v2: usize)
    requires
        g.wf(),
        g.is_critical(v1 as int, v2 as int),
        h.merged_from(g, v1, v2),
    ensures
        g.merge_cost(v1 as int, v2 as int) == 0,
        forall|b: int|
            g.is_third(v1 as int, v2 as int, b) ==> ((#[trigger] h.weight(g.len as int, b) > 0)
                == (g.weight(v1 as int, b) > 0)) && ((g.weight(v1 as int, b) > 0) == (g.weight(
                v2 as int,
                b,
            ) > 0)),
        forall|a: int, b: int|
            g.is_third(v1 as int, v2 as int, a) && g.is_third(v1 as int, v2 as int, b)
                ==> #[trigger] h.is_critical(a, b) == g.is_critical(a, b),
        forall|b: int|
            #![trigger h.is_critical(g.len as int, b)]
            g.is_third(v1 as int, v2 as int, b) ==> h.is_critical(g.len as int, b)
                == g.is_critical(v1 as int, b),
        forall|b: int|
            #![trigger g.is_critical(v1 as int, b)]
            #![trigger g.is_critical(v2 as int, b)]
            g.is_third(v1 as int, v2 as int, b) ==> g.is_critical(v1 as int, b) == g.is_critical(
                v2 as int,
                b,
            ),
{
    let a1 = v1 as int;
    let a2 = v2 as int;
    let vv = g.len as int;
    assert(g.edge(a1, a2).ok());
    assert(g.edge(a1, a2) == g.edge(a2, a1));
    lemma_merge_wf(g, h, v1, v2);
    lemma_active_below_len(g, a1);
    lemma_active_below_len(g, a2);
    assert forall|b: int| g.is_third(a1, a2, b) implies ((#[trigger] h.weight(vv, b) > 0) == (
    g.weight(a1, b) > 0)) && ((g.weight(a1, b) > 0) == (g.weight(a2, b) > 0)) && h.weight(b, vv)
        == h.weight(vv, b) && g.weight(b, a1) == g.weight(a1, b) && g.weight(b, a2) == g.weight(
        a2,
        b,
    ) by {
        assert(!g.disagree(a1, a2, b));
        assert(g.is_pair(a1, b) && g.is_pair(a2, b));
        assert(g.edge(a1, b).ok() && g.edge(a2, b).ok());
        lemma_two_edges_fit(g, a1, a2, b);
        assert(h.edge(vv, b) == g.merged_edge(a1, a2, b));
        assert(h.edge(b, vv) == h.edge(vv, b));
        assert(g.edge(b, a1) == g.edge(a1, b));
        assert(g.edge(b, a2) == g.edge(a2, b));
    }
    let mt = |v3: int| g.merge_term(a1, a2, v3);
    assert forall|c: int| 0 <= c < g.cap() implies #[trigger] mt(c) == 0 by {
        if g.is_third(a1, a2, c) {
            assert(!g.disagree(a1, a2, c));
        }
    }
    lemma_sum_zero(mt, g.cap());
    assert forall|a: int, b: int| g.is_third(a1, a2, a) && g.is_third(a1, a2, b)
        implies #[trigger] h.is_critical(a, b) == g.is_critical(a, b) by {
        lemma_active_below_len(g, a);
        lemma_active_below_len(g, b);
        if a != b {
            assert(h.is_pair(a, b) && g.is_pair(a, b));
            assert(h.edge(a, b) == g.edge(a, b));
            if g.is_critical(a, b) {
                assert forall|c: int| h.is_third(a, b, c) implies !#[trigger] h.disagree(
                    a,
                    b,
                    c,
                ) by {
                    if c == vv {
                        assert(g.is_third(a, b, a1));
                        assert(!g.disagree(a, b, a1));
                        assert((h.weight(vv, a) > 0) == (g.weight(a1, a) > 0));
                        assert((h.weight(vv, b) > 0) == (g.weight(a1, b) > 0));
                        assert(h.edge(a, vv) == h.edge(vv, a));
                        assert(h.edge(b, vv) == h.edge(vv, b));
                        assert(g.edge(a, a1) == g.edge(a1, a));
                        assert(g.edge(b, a1) == g.edge(a1, b));
                    } else {
                        assert(g.is_third(a1, a2, c));
                        lemma_active_below_len(g, c);
                        assert(g.is_third(a, b, c));
                        assert(!g.disagree(a, b, c));
                        assert(h.edge(a, c) == g.edge(a, c));
                        assert(h.edge(b, c) == g.edge(b, c));
                    }
                }
            }
            if h.is_critical(a, b) {
                assert forall|c: int| g.is_third(a, b, c) implies !#[trigger] g.disagree(
                    a,
                    b,
                    c,
                ) by {
                    if c == a1 || c == a2 {
                        assert(h.is_third(a, b, vv));
                        assert(!h.disagree(a, b, vv));
                        assert((h.weight(vv, a) > 0) == (g.weight(a1, a) > 0));
                        assert((h.weight(vv, b) > 0) == (g.weight(a1, b) > 0));
                        assert((g.weight(a1, a) > 0) == (g.weight(a2, a) > 0));
                        assert((g.weight(a1, b) > 0) == (g.weight(a2, b) > 0));
                        assert(h.edge(a, vv) == h.edge(vv, a));
                        assert(h.edge(b, vv) == h.edge(vv, b));
                        assert(g.edge(a, a1) == g.edge(a1, a));
                        assert(g.edge(b, a1) == g.edge(a1, b));
                        assert(g.edge(a, a2) == g.edge(a2, a));
                        assert(g.edge(b, a2) == g.edge(a2, b));
                    } else {
                        assert(g.is_third(a1, a2, c));
                        lemma_active_below_len(g, c);
                        assert(h.is_third(a, b, c));
                        assert(!h.disagree(a, b, c));
                        assert(h.edge(a, c) == g.edge(a, c));
                        assert(h.edge(b, c) == g.edge(b, c));
                    }
                }
            }
        }
    }
    assert forall|b: int|
        #![trigger g.is_critical(a1, b)]
        #![trigger g.is_critical(a2, b)]
        g.is_third(a1, a2, b) implies g.is_critical(a1, b) == g.is_critical(a2, b) by {
        lemma_critical_symmetric(g, a1, a2);
        if g.is_critical(a1, b) {
            lemma_critical_shared(g, a1, a2, b);
            lemma_critical_symmetric(g, a2, b);
        }
        if g.is_critical(a2, b) {
            lemma_critical_shared(g, a2, a1, b);
            lemma_critical_symmetric(g, a1, b);
        }
    }
    assert forall|b: int| #![trigger h.is_critical(vv, b)] g.is_third(a1, a2, b) implies h.is_critical(
        vv,
        b,
    ) == g.is_critical(a1, b) by {
        lemma_active_below_len(g, b);
        lemma_critical_symmetric(g, a1, a2);
        if g.is_critical(a1, b) {
            lemma_critical_shared(g, a1, a2, b);
            lemma_critical_symmetric(g, a2, b);
        }
        if g.is_critical(a2, b) {
            lemma_critical_shared(g, a2, a1, b);
            lemma_critical_symmetric(g, a1, b);
        }
        assert(h.is_pair(vv, b));
        if g.is_critical(a1, b) {
            assert forall|c: int| h.is_third(vv, b, c) implies !#[trigger] h.disagree(
                vv,
                b,
                c,
            ) by {
                assert(g.is_third(a1, a2, c));
                lemma_active_below_len(g, c);
                assert(g.is_third(a1, b, c));
                assert(!g.disagree(a1, b, c));
                assert(h.edge(b, c) == g.edge(b, c));
            }
        }
        if h.is_critical(vv, b) {
            assert forall|c: int| g.is_third(a1, b, c) implies !#[trigger] g.disagree(
                a1,
                b,
                c,
            ) by {
                if c != a2 {
                    assert(g.is_third(a1, a2, c));
                    lemma_active_below_len(g, c);
                    assert(h.is_third(vv, b, c));
                    assert(!h.disagree(vv, b, c));
                    assert(h.edge(b, c) == g.edge(b, c));
                }
            }
        }
    }
}

/// A graph contracts itself.

pub proof fn lemma_contracts_start(o: &Graph)
    requires
        o.wf(),
    ensures
        o.contracts(o),
{
    assert forall|v: int| 0 <= v < o.cap() implies #[trigger] o.root_spec(v) == o.root_spec(
        o.root_spec(v),
    ) by {
        lemma_root(o, v);
    }
    assert forall|x: int| o.is_active(x) implies o.is_active(#[trigger] o.root_spec(x)) by {
        lemma_active_below_len(o, x);
        lemma_root(o, x);
    }
    assert forall|x: int, y: int| #[trigger] o.is_pair(x, y) implies (o.root_spec(x) == o.root_spec(
        y,
    ) || o.is_critical(o.root_spec(x), o.root_spec(y))) == o.is_critical(x, y) by {
        lemma_active_below_len(o, x);
        lemma_active_below_len(o, y);
        lemma_root(o, x);
        lemma_root(o, y);
    }
}

/// A merge of a critical pair goes on contracting.

pub proof fn lemma_contracts_merge(o: &Graph, g: &Graph, h: &Graph, v1: usize, v2: usize)
    requires
        o.wf(),
        g.wf(),
        g.contracts(o),
        g.is_critical(v1 as int, v2 as int),
        h.merged_from(g, v1, v2),
    ensures
        h.contracts(o),
{
    let vv = g.len as int;
    let a1 = v1 as int;
    let a2 = v2 as int;
    assert(g.edge(a1, a2).ok());
    lemma_merge_wf(g, h, v1, v2);
    lemma_merge_critical(g, h, v1, v2);
    lemma_critical_symmetric(g, a1, a2);
    lemma_active_below_len(g, a1);
    lemma_active_below_len(g, a2);
    assert forall|v: int| 0 <= v < h.cap() implies #[trigger] h.root_spec(v) == h.root_spec(
        o.root_spec(v),
    ) by {
        lemma_root(o, v);
        lemma_root_merged(g, h, v1, v2, v);
        lemma_root_merged(g, h, v1, v2, o.root_spec(v));
        assert(g.root_spec(v) == g.root_spec(o.root_spec(v)));
    }
    assert forall|x: int| o.is_active(x) implies h.is_active(#[trigger] h.root_spec(x)) by {
        lemma_active_below_len(o, x);
        lemma_root_merged(g, h, v1, v2, x);
        assert(g.is_active(g.root_spec(x)));
    }
    assert forall|x: int, y: int| #[trigger] o.is_pair(x, y) implies (h.root_spec(x) == h.root_spec(
        y,
    ) || h.is_critical(h.root_spec(x), h.root_spec(y))) == o.is_critical(x, y) by {
        lemma_active_below_len(o, x);
        lemma_active_below_len(o, y);
        lemma_root_merged(g, h, v1, v2, x);
        lemma_root_merged(g, h, v1, v2, y);
        let rx = g.root_spec(x);
        let ry = g.root_spec(y);
        assert(g.is_active(rx) && g.is_active(ry));
        assert((rx == ry || g.is_critical(rx, ry)) == o.is_critical(x, y));
        let inx = rx == a1 || rx == a2;
        let iny = ry == a1 || ry == a2;
        if inx && !iny {
            assert(g.is_third(a1, a2, ry));
            assert(h.root_spec(x) == vv && h.root_spec(y) == ry);
            assert(h.is_critical(vv, ry) == g.is_critical(a1, ry));
            assert(g.is_critical(a1, ry) == g.is_critical(a2, ry));
        } else if !inx && iny {
            assert(g.is_third(a1, a2, rx));
            assert(h.root_spec(x) == rx && h.root_spec(y) == vv);
            assert(h.is_critical(vv, rx) == g.is_critical(a1, rx));
            assert(g.is_critical(a1, rx) == g.is_critical(a2, rx));
            lemma_critical_symmetric(h, vv, rx);
            lemma_critical_symmetric(g, a1, rx);
            lemma_critical_symmetric(g, a2, rx);
        } else if !inx && !iny {
            assert(h.root_spec(x) == rx && h.root_spec(y) == ry);
            if rx != ry {
                assert(g.is_third(a1, a2, rx) && g.is_third(a1, a2, ry));
                assert(h.is_critical(rx, ry) == g.is_critical(rx, ry));
            }
        } else {
            assert(h.root_spec(x) == vv && h.root_spec(y) == vv);
        }
    }
}

/// A vertex that is part of no critical pair stays so when a critical pair is merged.
pub proof fn lemma_apart_merge(g: &Graph, h: &Graph, v1: usize, v2: usize, r: int)
    requires
        g.wf(),
        g.is_critical(v1 as int, v2 as int),
        h.merged_from(g, v1, v2),
        g.is_active(r),
        g.is_apart(r),
    ensures
        r != v1,
        r != v2,
        h.is_active(r),
        h.is_apart(r),
{
    let vv = g.len as int;
    let a1 = v1 as int;
    let a2 = v2 as int;
    assert(g.edge(a1, a2).ok());
    lemma_merge_wf(g, h, v1, v2);
    lemma_merge_critical(g, h, v1, v2);
    lemma_critical_symmetric(g, a1, a2);
    if r == a1 {
        assert(!g.is_critical(r, a2));
    }
    if r == a2 {
        assert(!g.is_critical(r, a1));
    }
    assert(g.is_third(a1, a2, r));
    assert forall|z: int| h.is_active(z) && z != r implies !#[trigger] h.is_critical(r, z) by {
        if z == vv {
            lemma_critical_symmetric(h, r, vv);
            lemma_critical_symmetric(g, r, a1);
            assert(!g.is_critical(r, a1));
        } else {
            assert(g.is_third(a1, a2, z));
            assert(!g.is_critical(r, z));
        }
    }
}

/// Merges every critical pair: of two vertices that share a positive
/// edge and agree on every third vertex, one vertex is made. No critical
/// pair is left, and every clustering of the graph after that is one of
/// the graph before, at the same cost. Where all weights are `1` or `-1`
/// and no pair is fixed, the least cost of a clustering stays what it was.
pub fn critical(graph: &mut Graph)
    requires
        old(graph).wf(),
    ensures
        final(graph).wf(),
        final(graph).lifts(old(graph), 0),
        final(graph).follows(old(graph)),
        forall|a: int, b: int| !#[trigger] final(graph).is_critical(a, b),
        forall|x: int, y: int| #[trigger]
            old(graph).is_pair(x, y) ==> (final(graph).root_spec(x) == final(graph).root_spec(y))
                == old(graph).is_critical(x, y),
        old(graph).is_unit() && old(graph).is_open() ==> forall|c: int|
            old(graph).is_optimum(c) ==> #[trigger] final(graph).is_optimum(c),
{
    let ghost o = *old(graph);
    let order: Vec<usize> = graph.active.clone();
    proof {
        assert(order@ =~= o.active@);
        lemma_contracts_start(&o);
        lemma_lifts_self(&o);
        lemma_follows_self(&o);
    }
    let mut i: usize = 0;
    while i < order.len()
        invariant
            o.wf(),
            graph.wf(),
            graph.contracts(&o),
            graph.lifts(&o, 0),
            graph.follows(&o),
            o.is_open() ==> graph.is_open(),
            order@ == o.active@,
            i <= order.len(),
            forall|k: int|
                0 <= k < order.len() ==> (#[trigger] order@[k]) < graph.cap() && (graph.is_active(
                    order@[k] as int,
                ) || graph.vertex_merged@[order@[k] as int] is Some),
            forall|z: int|
                graph.is_active(z) ==> #[trigger] graph.is_apart(z) || (o.is_active(z) && o.place(z)
                    >= i),
        decreases order.len() - i,
    {
        let u: usize = order[i];
        proof {
            crate::order::lemma_position(o.active@, i as int);
            assert(o.is_active(u as int));
            lemma_active_below_len(&o, u as int);
        }
        match graph.vertex_merged[u] {
            Some(_) => {
                proof {
                    assert forall|z: int| graph.is_active(z) implies #[trigger] graph.is_apart(z)
                        || (o.is_active(z) && o.place(z) >= i + 1) by {
                        if !graph.is_apart(z) {
                            crate::turns::lemma_place(&o, z);
                            if o.place(z) == i {
                                lemma_active_below_len(graph, z);
                            }
                        }
                    }
                }
            },
            None => {
                let friends = graph.positive(u, 0);
                let mut x: usize = u;
                let mut j: usize = 0;
                let ghost keep = graph.keeps_positive(u as int);
                proof {
                    lemma_root(graph, u as int);
                    lemma_select(graph, 0, graph.active.len() as int, keep);
                    assert forall|k: int| 0 <= k < friends.len() implies graph.is_active(
                        (#[trigger] friends@[k]).1 as int,
                    ) && friends@[k].1 != x && graph.weight(x as int, friends@[k].1 as int)
                        > 0 by {
                        let e = friends@[k];
                        assert(keep(e.1 as int));
                        assert(graph.active@[e.0 - 1] == e.1);
                    }
                    assert forall|k: int, l: int| 0 <= k < l < friends.len() implies (
                    #[trigger] friends@[k]).1 != (#[trigger] friends@[l]).1 by {
                        assert(friends@[k].0 < friends@[l].0);
                    }
                    assert forall|z: int|
                        graph.is_active(z) && z != x && graph.is_critical(
                            x as int,
                            z,
                        ) implies exists|k: int|
                        0 <= k < friends.len() && (#[trigger] friends@[k]).1 == z by {
                        lemma_select_complete(graph, 0, graph.active.len() as int, keep, z);
                    }
                }
                while j < friends.len()
                    invariant
                        o.wf(),
                        graph.wf(),
                        graph.contracts(&o),
                        graph.lifts(&o, 0),
                        graph.follows(&o),
                    o.is_open() ==> graph.is_open(),
                        order@ == o.active@,
                        i < order.len(),
                        u == order@[i as int],
                        o.is_active(u as int),
                        o.place(u as int) == i,
                        j <= friends.len(),
                        graph.is_active(x as int),
                        forall|k: int|
                            j <= k < friends.len() ==> graph.is_active(
                                (#[trigger] friends@[k]).1 as int,
                            ) && friends@[k].1 != x && graph.weight(x as int, friends@[k].1 as int)
                                > 0,
                        forall|k: int, l: int|
                            0 <= k < l < friends.len() ==> (#[trigger] friends@[k]).1 != (
                            #[trigger] friends@[l]).1,
                        forall|z: int|
                            graph.is_active(z) && z != x && graph.is_critical(x as int, z)
                                ==> exists|k: int|
                                j <= k < friends.len() && (#[trigger] friends@[k]).1 == z,
                        forall|k: int|
                            0 <= k < order.len() ==> (#[trigger] order@[k]) < graph.cap() && (
                            graph.is_active(order@[k] as int)
                                || graph.vertex_merged@[order@[k] as int] is Some),
                        forall|z: int|
                            graph.is_active(z) ==> z == x || #[trigger] graph.is_apart(z) || (
                            o.is_active(z) && o.place(z) > i),
                    decreases friends.len() - j,
                {
                    let v2: usize = friends[j].1;
                    proof {
                        lemma_active_below_len(graph, x as int);
                        lemma_active_below_len(graph, v2 as int);
                    }
                    let clash = graph.conflict_edges(x, v2, 0);
                    let ghost differ = graph.keeps_clash(x as int, v2 as int);
                    proof {
                        lemma_select(graph, 0, graph.active.len() as int, differ);
                        if clash.len() == 0 {
                            assert forall|c: int|
                                graph.is_third(
                                    x as int,
                                    v2 as int,
                                    c,
                                ) implies !#[trigger] graph.disagree(x as int, v2 as int, c) by {
                                if graph.disagree(x as int, v2 as int, c) {
                                    lemma_select_complete(
                                        graph,
                                        0,
                                        graph.active.len() as int,
                                        differ,
                                        c,
                                    );
                                }
                            }
                            assert(graph.is_critical(x as int, v2 as int));
                        } else {
                            let e = clash@[0];
                            assert(differ(e.1 as int));
                            assert(graph.active@[e.0 - 1] == e.1);
                            assert(graph.is_third(x as int, v2 as int, e.1 as int));
                            assert(!graph.is_critical(x as int, v2 as int));
                        }
                    }
                    if clash.len() == 0 {
                        let ghost g = *graph;
                        proof {
                            assert(g.edge(x as int, v2 as int).ok());
                        }
                        let (vv, _) = graph.merge(x, v2);
                        proof {
                            lemma_merge_critical(&g, graph, x, v2);
                            lemma_merge_wf(&g, graph, x, v2);
                            lemma_contracts_merge(&o, &g, graph, x, v2);
                            lemma_lifts_merge(&o, &g, graph, x, v2, 0);
                            lemma_follows_merge(&o, &g, graph, x, v2);
                            if g.is_open() {
                                lemma_merge_open(&g, graph, x, v2);
                            }
                            assert forall|k: int|
                                j + 1 <= k < friends.len() implies graph.is_active(
                                (#[trigger] friends@[k]).1 as int,
                            ) && friends@[k].1 != vv && graph.weight(
                                vv as int,
                                friends@[k].1 as int,
                            ) > 0 by {
                                let b = friends@[k].1 as int;
                                assert(friends@[j as int].1 != friends@[k].1);
                                assert(g.is_third(x as int, v2 as int, b));
                                lemma_active_below_len(&g, b);
                            }
                            assert forall|z: int|
                                graph.is_active(z) && z != vv && graph.is_critical(
                                    vv as int,
                                    z,
                                ) implies exists|k: int|
                                j + 1 <= k < friends.len() && (#[trigger] friends@[k]).1 == z by {
                                assert(g.is_third(x as int, v2 as int, z));
                                assert(g.is_critical(x as int, z));
                                let k = choose|k: int|
                                    j <= k < friends.len() && (#[trigger] friends@[k]).1 == z;
                                assert(k != j);
                            }
                            assert forall|k: int| 0 <= k < order.len() implies (
                            #[trigger] order@[k]) < graph.cap() && (graph.is_active(
                                order@[k] as int,
                            ) || graph.vertex_merged@[order@[k] as int] is Some) by {
                                let c = order@[k] as int;
                                if g.is_active(c) && c != x && c != v2 {
                                    assert(g.is_third(x as int, v2 as int, c));
                                }
                            }
                            assert forall|z: int| graph.is_active(z) implies z == vv
                                || #[trigger] graph.is_apart(z) || (o.is_active(z) && o.place(z)
                                > i) by {
                                if z != vv {
                                    assert(g.is_third(x as int, v2 as int, z));
                                    if g.is_apart(z) {
                                        lemma_apart_merge(&g, graph, x, v2, z);
                                    }
                                }
                            }
                        }
                        x = vv;
                    } else {
                        proof {
                            assert forall|z: int|
                                graph.is_active(z) && z != x && graph.is_critical(
                                    x as int,
                                    z,
                                ) implies exists|k: int|
                                j + 1 <= k < friends.len() && (#[trigger] friends@[k]).1 == z by {
                                let k = choose|k: int|
                                    j <= k < friends.len() && (#[trigger] friends@[k]).1 == z;
                                assert(k != j);
                            }
                        }
                    }
                    j += 1;
                }
                proof {
                    assert(graph.is_apart(x as int)) by {
                        assert forall|z: int|
                            graph.is_active(z) && z != x implies !#[trigger] graph.is_critical(
                            x as int,
                            z,
                        ) by {
                            if graph.is_critical(x as int, z) {
                                let k = choose|k: int|
                                    j <= k < friends.len() && (#[trigger] friends@[k]).1 == z;
                            }
                        }
                    }
                    assert forall|z: int| graph.is_active(z) implies #[trigger] graph.is_apart(z)
                        || (o.is_active(z) && o.place(z) >= i + 1) by {}
                }
            },
        }
        i += 1;
    }
    proof {
        assert forall|z: int| graph.is_active(z) implies #[trigger] graph.is_apart(z) by {
            if o.is_active(z) {
                crate::turns::lemma_place(&o, z);
            }
        }
        assert forall|a: int, b: int| !#[trigger] graph.is_critical(a, b) by {
            if graph.is_critical(a, b) {
                assert(graph.is_apart(a));
            }
        }
        assert forall|x: int, y: int| #[trigger] o.is_pair(x, y) implies (graph.root_spec(x)
            == graph.root_spec(y)) == o.is_critical(x, y) by {}
        if o.is_unit() && o.is_open() {
            assert(graph.joins_critical(&o));
            assert forall|c: int| o.is_optimum(c) implies #[trigger] graph.is_optimum(c) by {
                lemma_critical_optimum(&o, graph, c);
            }
        }
    }
}

} // verus!
