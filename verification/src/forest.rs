//! The merge forest: how the vertex that stands for a vertex changes
//! along a merge, and what a clustering of the merged graph is for the
//! graph before.

use vstd::prelude::*;
use crate::graph::Graph;
use crate::merge::{lemma_active_below_len, lemma_merge_wf};
use crate::optimal::{
    unfold, lemma_merge_cost, lemma_cut_cost, lemma_same_pattern_cost, lemma_same_state_cost,
    lemma_conflict_free_cost, lemma_split_cost,
};
use crate::cost::{singletons, lemma_singletons_cost};
use crate::graph::lemma_same_state_wf;

verus! {

impl Graph {
    /// The labelling that gives every vertex the label that `q` gives to
    /// the vertex that stands for it.
    pub open spec fn pull(&self, q: spec_fn(int) -> int) -> spec_fn(int) -> int {
        |v: int| q(self.root_spec(v))
    }

    /// The labelling that gives every vertex the vertex that stands for it.
    pub open spec fn roots(&self) -> spec_fn(int) -> int {
        |v: int| self.root_spec(v)
    }

    /// Every active vertex of `origin` is stood for by an active vertex of `self`.
    pub open spec fn carries(&self, origin: &Graph) -> bool {
        &&& self.cap() == origin.cap()
        &&& forall|v: int| origin.is_active(v) ==> self.is_active(#[trigger] self.root_spec(v))
    }

    /// Every clustering that `self` admits stands for a clustering that
    /// `origin` admits, at the cost that it has on `self` and `spent` more.
    pub open spec fn lifts(&self, origin: &Graph, spent: int) -> bool {
        forall|q: spec_fn(int) -> int| #[trigger]
            self.admits(q) ==> origin.admits(self.pull(q)) && origin.cost(self.pull(q))
                == self.cost(q) + spent
    }
}

/// An active vertex stands for itself, and a vertex is stood for by a
/// vertex that no merge has touched.
pub proof fn lemma_root(g: &Graph, v: int)
    requires
        g.wf(),
        0 <= v < g.cap(),
    ensures
        v <= g.root_spec(v) < g.cap(),
        g.vertex_merged@[g.root_spec(v)] is None,
        g.is_active(v) ==> g.root_spec(v) == v,
        g.vertex_merged@[v] is None ==> g.root_spec(v) == v,
        g.root_spec(g.root_spec(v)) == g.root_spec(v),
    decreases g.cap() - v,
{
    if g.is_active(v) {
        lemma_active_below_len(g, v);
    }
    match g.vertex_merged@[v] {
        Some(p) => {
            lemma_root(g, p as int);
        },
        None => {},
    }
}

/// The vertex that stands for a vertex depends on the forest alone.
pub proof fn lemma_root_same(g: &Graph, h: &Graph, v: int)
    requires
        g.vertex_merged@ == h.vertex_merged@,
    ensures
        g.root_spec(v) == h.root_spec(v),
    decreases g.cap() - v,
{
    if 0 <= v < g.cap() {
        match g.vertex_merged@[v] {
            Some(p) => {
                if v < p < g.cap() {
                    lemma_root_same(g, h, p as int);
                }
            },
            None => {},
        }
    }
}

/// After a merge of `v1` and `v2`, the merged vertex stands for what `v1`
/// or `v2` stood for, and nothing else changes.
pub proof fn lemma_root_merged(g: &Graph, h: &Graph, v1: usize, v2: usize, v: int)
    requires
        g.wf(),
        g.is_pair(v1 as int, v2 as int),
        h.merged_from(g, v1, v2),
        0 <= v < g.cap(),
    ensures
        h.root_spec(v) == if g.root_spec(v) == v1 || g.root_spec(v) == v2 {
            g.len as int
        } else {
            g.root_spec(v)
        },
    decreases g.cap() - v,
{
    lemma_active_below_len(g, v1 as int);
    lemma_active_below_len(g, v2 as int);
    let vv = g.len as int;
    match g.vertex_merged@[v] {
        Some(p) => {
            lemma_root_merged(g, h, v1, v2, p as int);
        },
        None => {
            if v == v1 || v == v2 {
                assert(h.vertex_merged@[v] == Some(g.len));
                assert(h.vertex_merged@[vv] is None);
                assert(h.root_spec(vv) == vv);
            }
        },
    }
}

/// A graph lifts to itself at no cost.
pub proof fn lemma_lifts_self(g: &Graph)
    requires
        g.wf(),
    ensures
        g.lifts(g, 0),
        g.carries(g),
{
    assert forall|q: spec_fn(int) -> int| #[trigger] g.admits(q) implies g.admits(g.pull(q))
        && g.cost(g.pull(q)) == g.cost(q) by {
        let p = g.pull(q);
        assert forall|a: int, b: int| #[trigger] g.is_pair(a, b) implies (p(a) == p(b)) == (q(a)
            == q(b)) by {
            lemma_active_below_len(g, a);
            lemma_active_below_len(g, b);
            lemma_root(g, a);
            lemma_root(g, b);
        }
        lemma_same_pattern_cost(g, p, q);
    }
    assert forall|v: int| g.is_active(v) implies g.is_active(#[trigger] g.root_spec(v)) by {
        lemma_active_below_len(g, v);
        lemma_root(g, v);
    }
}

/// What lifts to the origin before a merge lifts to it after the merge,
/// at the cost of the merge more.
pub proof fn lemma_lifts_merge(
    origin: &Graph,
    g: &Graph,
    h: &Graph,
    v1: usize,
    v2: usize,
    spent: int,
)
    requires
        origin.wf(),
        g.wf(),
        g.is_pair(v1 as int, v2 as int),
        !g.edge(v1 as int, v2 as int).fixed,
        h.merged_from(g, v1, v2),
        g.lifts(origin, spent),
        g.carries(origin),
    ensures
        h.lifts(origin, spent + g.merge_cost(v1 as int, v2 as int)),
        h.carries(origin),
{
    let vv = g.len as int;
    lemma_merge_wf(g, h, v1, v2);
    lemma_active_below_len(g, v1 as int);
    lemma_active_below_len(g, v2 as int);
    assert forall|v: int| origin.is_active(v) implies h.is_active(#[trigger] h.root_spec(v)) by {
        lemma_active_below_len(origin, v);
        lemma_root_merged(g, h, v1, v2, v);
        assert(g.is_active(g.root_spec(v)));
    }
    assert forall|q: spec_fn(int) -> int| #[trigger] h.admits(q) implies origin.admits(h.pull(q))
        && origin.cost(h.pull(q)) == h.cost(q) + spent + g.merge_cost(v1 as int, v2 as int) by {
        let p = unfold(q, v1 as int, v2 as int, vv);
        lemma_merge_cost(g, h, v1, v2, p, q);
        assert(g.admits(p));
        let lifted = g.pull(p);
        let other = h.pull(q);
        assert forall|a: int, b: int| #[trigger] origin.is_pair(a, b) implies (lifted(a) == lifted(
            b,
        )) == (other(a) == other(b)) by {
            lemma_active_below_len(origin, a);
            lemma_active_below_len(origin, b);
            lemma_root_merged(g, h, v1, v2, a);
            lemma_root_merged(g, h, v1, v2, b);
            lemma_root(g, a);
            lemma_root(g, b);
            assert(g.is_active(g.root_spec(a)));
            assert(g.is_active(g.root_spec(b)));
            lemma_active_below_len(g, g.root_spec(a));
            lemma_active_below_len(g, g.root_spec(b));
        }
        lemma_same_pattern_cost(origin, lifted, other);
    }
}

/// What lifts to the origin before a cut lifts to it after the cut, at
/// the cost of the cut more.
pub proof fn lemma_lifts_cut(origin: &Graph, g: &Graph, h: &Graph, v1: usize, v2: usize, spent: int)
    requires
        origin.wf(),
        g.wf(),
        g.is_pair(v1 as int, v2 as int),
        !g.edge(v1 as int, v2 as int).fixed,
        h.same_vertices(g),
        h.edges_same_except(g, v1 as int, v2 as int),
        h.edge(v1 as int, v2 as int) == crate::graph::Edge::spec_none(),
        g.lifts(origin, spent),
        g.carries(origin),
    ensures
        h.lifts(
            origin,
            spent + if g.weight(v1 as int, v2 as int) > 0 {
                g.weight(v1 as int, v2 as int)
            } else {
                0
            },
        ),
        h.carries(origin),
{
    assert forall|v: int| h.root_spec(v) == g.root_spec(v) by {
        lemma_root_same(g, h, v);
    }
    assert forall|v: int| h.is_active(v) == g.is_active(v) by {}
    assert forall|v: int| origin.is_active(v) implies h.is_active(#[trigger] h.root_spec(v)) by {
        assert(g.is_active(g.root_spec(v)));
    }
    assert forall|q: spec_fn(int) -> int| #[trigger] h.admits(q) implies origin.admits(h.pull(q))
        && origin.cost(h.pull(q)) == h.cost(q) + spent + if g.weight(v1 as int, v2 as int) > 0 {
        g.weight(v1 as int, v2 as int)
    } else {
        0
    } by {
        lemma_cut_cost(g, h, v1, v2, q);
        assert(g.admits(q));
        let lifted = g.pull(q);
        let other = h.pull(q);
        assert forall|a: int, b: int| #[trigger] origin.is_pair(a, b) implies (lifted(a) == lifted(
            b,
        )) == (other(a) == other(b)) by {}
        lemma_same_pattern_cost(origin, lifted, other);
    }
}

/// What lifts from a graph lifts from every graph that agrees with it on
/// all that can be observed.
pub proof fn lemma_lifts_same(origin: &Graph, g: &Graph, h: &Graph, spent: int)
    requires
        origin.wf(),
        g.wf(),
        h.same_state(g),
        g.lifts(origin, spent),
        g.carries(origin),
    ensures
        h.lifts(origin, spent),
        h.carries(origin),
{
    assert forall|v: int| h.root_spec(v) == g.root_spec(v) by {
        lemma_root_same(g, h, v);
    }
    assert forall|v: int| origin.is_active(v) implies h.is_active(#[trigger] h.root_spec(v)) by {
        assert(g.is_active(g.root_spec(v)));
    }
    assert forall|q: spec_fn(int) -> int| #[trigger] h.admits(q) implies origin.admits(h.pull(q))
        && origin.cost(h.pull(q)) == h.cost(q) + spent by {
        lemma_same_state_cost(g, h, q);
        assert(g.admits(q));
        let lifted = g.pull(q);
        let other = h.pull(q);
        assert forall|a: int, b: int| #[trigger] origin.is_pair(a, b) implies (lifted(a) == lifted(
            b,
        )) == (other(a) == other(b)) by {}
        lemma_same_pattern_cost(origin, lifted, other);
    }
}


/// A forest that took over the merges of `g` and has no merge at the
/// active vertices of `g` stands for a vertex as `g` does, where `g` has
/// an active vertex stand for it.
pub proof fn lemma_root_copy(g: &Graph, b: &Graph, v: int)
    requires
        g.wf(),
        b.cap() == g.cap(),
        forall|u: int|
            0 <= u < g.cap() && g.vertex_merged@[u] is Some ==> #[trigger] b.vertex_merged@[u]
                == g.vertex_merged@[u],
        forall|u: int| g.is_active(u) ==> #[trigger] b.vertex_merged@[u] is None,
        0 <= v < g.cap(),
        g.is_active(g.root_spec(v)),
    ensures
        b.root_spec(v) == g.root_spec(v),
    decreases g.cap() - v,
{
    match g.vertex_merged@[v] {
        Some(p) => {
            lemma_root_copy(g, b, p as int);
        },
        None => {},
    }
}

/// Two forests that agree on a set of vertices that the merges of the
/// first do not lead out of stand for the vertices of the set alike.
pub proof fn lemma_root_frame(b1: &Graph, b2: &Graph, inside: spec_fn(int) -> bool, v: int)
    requires
        b1.cap() == b2.cap(),
        forall|u: int|
            0 <= u < b1.cap() && inside(u) ==> #[trigger] b2.vertex_merged@[u]
                == b1.vertex_merged@[u],
        forall|u: int|
            0 <= u < b1.cap() && inside(u) ==> (#[trigger] b1.vertex_merged@[u] matches Some(p)
                ==> inside(p as int)),
        inside(v),
    ensures
        b2.root_spec(v) == b1.root_spec(v),
    decreases b1.cap() - v,
{
    if 0 <= v < b1.cap() {
        match b1.vertex_merged@[v] {
            Some(p) => {
                if v < p < b1.cap() {
                    lemma_root_frame(b1, b2, inside, p as int);
                }
            },
            None => {},
        }
    }
}


/// A vertex of the forest that the graph `o` has no say in: it was made
/// before the vertices of `o`, and `o` neither lists it as active nor has
/// it merged.
pub open spec fn foreign(o: &Graph, u: int) -> bool {
    0 <= u < o.len && !o.is_active(u) && o.vertex_merged@[u] is None
}

impl Graph {
    /// `self` is what merges and cuts have made of `o`: the active
    /// vertices of `o` are stood for by active vertices, and the merges
    /// led to fresh vertices only.
    pub open spec fn follows(&self, o: &Graph) -> bool {
        &&& self.carries(o)
        &&& o.len <= self.len
        &&& self.len + self.active.len() <= o.len + o.active.len()
        &&& forall|z: int| #[trigger] self.is_active(z) ==> o.is_active(z) || z >= o.len
        &&& forall|u: int| foreign(o, u) ==> #[trigger] self.vertex_merged@[u] is None
        &&& forall|a: int|
            o.is_active(a) ==> (#[trigger] self.vertex_merged@[a] matches Some(p) ==> p >= o.len)
    }

    /// The forest of `self` is a clustering of `o` at the cost `c`: the
    /// vertices that stand for the active vertices of `o` are their
    /// labels. The merges behind it led to fresh vertices only.
    pub open spec fn answers(&self, o: &Graph, c: int) -> bool {
        &&& self.wf()
        &&& self.cap() == o.cap()
        &&& o.len <= self.len
        &&& self.len + self.active.len() <= o.len + o.active.len()
        &&& o.admits(self.roots())
        &&& o.cost(self.roots()) == c
        &&& forall|a: int|
            o.is_active(a) ==> (#[trigger] self.root_spec(a)) < self.len && (o.is_active(
                self.root_spec(a),
            ) || self.root_spec(a) >= o.len)
        &&& forall|a: int|
            o.is_active(a) ==> (#[trigger] self.vertex_merged@[a] matches Some(p) ==> p >= o.len)
    }

    /// The merges that `self` records of the vertices foreign to `o` lead
    /// to vertices made before the vertices of `o`.
    pub open spec fn keeps(&self, o: &Graph) -> bool {
        forall|u: int|
            foreign(o, u) ==> (#[trigger] self.vertex_merged@[u] matches Some(p) ==> u < p < o.len)
    }

    /// `self` records of the vertices foreign to `o` what `before` records of them.
    pub open spec fn kept_from(&self, before: &Graph, o: &Graph) -> bool {
        forall|u: int| foreign(o, u) ==> #[trigger] self.vertex_merged@[u] == before.vertex_merged@[u]
    }
}

/// A graph follows itself.

pub proof fn lemma_follows_self(o: &Graph)
    requires
        o.wf(),
    ensures
        o.follows(o),
{
    lemma_lifts_self(o);
    assert forall|a: int| o.is_active(a) implies (#[trigger] o.vertex_merged@[a] matches Some(p)
        ==> p >= o.len) by {
        lemma_active_below_len(o, a);
    }
}

/// What follows the origin before a merge follows it after the merge.

pub proof fn lemma_follows_merge(o: &Graph, g: &Graph, h: &Graph, v1: usize, v2: usize)
    requires
        o.wf(),
        g.wf(),
        g.is_pair(v1 as int, v2 as int),
        !g.edge(v1 as int, v2 as int).fixed,
        h.merged_from(g, v1, v2),
        g.follows(o),
    ensures
        h.follows(o),
{
    lemma_merge_wf(g, h, v1, v2);
    lemma_active_below_len(g, v1 as int);
    lemma_active_below_len(g, v2 as int);
    assert forall|v: int| o.is_active(v) implies h.is_active(#[trigger] h.root_spec(v)) by {
        lemma_active_below_len(o, v);
        lemma_root_merged(g, h, v1, v2, v);
        assert(g.is_active(g.root_spec(v)));
    }
    assert forall|u: int| foreign(o, u) implies #[trigger] h.vertex_merged@[u] is None by {
        assert(g.vertex_merged@[u] is None);
        assert(g.is_active(v1 as int) && g.is_active(v2 as int));
    }
    assert forall|a: int| o.is_active(a) implies (#[trigger] h.vertex_merged@[a] matches Some(p)
        ==> p >= o.len) by {
        lemma_active_below_len(o, a);
        assert(g.vertex_merged@[a] matches Some(p) ==> p >= o.len);
    }
}

/// What follows `o` still follows it after a change of edges alone, and
/// after anything that leaves what can be observed as it was.
pub proof fn lemma_follows_same(o: &Graph, g: &Graph, h: &Graph)
    requires
        o.wf(),
        g.wf(),
        h.wf(),
        g.follows(o),
        h.same_state(g) || h.same_vertices(g),
    ensures
        h.follows(o),
{
    assert forall|v: int| h.root_spec(v) == g.root_spec(v) by {
        lemma_root_same(g, h, v);
    }
    assert forall|v: int| h.is_active(v) == g.is_active(v) by {}
    if h.same_state(g) {
        lemma_same_state_wf(g, h);
    }
    assert forall|v: int| o.is_active(v) implies h.is_active(#[trigger] h.root_spec(v)) by {
        assert(g.is_active(g.root_spec(v)));
    }
    assert forall|z: int| #[trigger] h.is_active(z) implies o.is_active(z) || z >= o.len by {
        assert(g.is_active(z));
    }
    assert forall|u: int| foreign(o, u) implies #[trigger] h.vertex_merged@[u] is None by {
        assert(g.vertex_merged@[u] is None);
    }
    assert forall|a: int| o.is_active(a) implies (#[trigger] h.vertex_merged@[a] matches Some(p)
        ==> p >= o.len) by {
        assert(g.vertex_merged@[a] matches Some(p) ==> p >= o.len);
    }
}

/// A copy of a graph is the clustering that leaves every vertex alone.
pub proof fn lemma_answers_copy(o: &Graph, b: &Graph)
    requires
        o.wf(),
        b.wf(),
        b.cap() == o.cap(),
        b.active@ == o.active@,
        b.len == o.len,
    ensures
        b.answers(o, o.positive_total()),
{
    lemma_singletons_cost(o);
    let p = b.roots();
    assert forall|a: int| o.is_active(a) implies p(a) == a && b.vertex_merged@[a] is None by {
        assert(b.is_active(a));
        lemma_active_below_len(b, a);
        lemma_root(b, a);
    }
    assert forall|a: int, c: int| #[trigger] o.is_pair(a, c) implies (p(a) == p(c)) == (
    singletons()(a) == singletons()(c)) by {}
    lemma_same_pattern_cost(o, p, singletons());
    assert forall|a: int| o.is_active(a) implies (#[trigger] b.root_spec(a)) < b.len && (
    o.is_active(b.root_spec(a)) || b.root_spec(a) >= o.len) by {
        assert(p(a) == a);
        lemma_active_below_len(o, a);
    }
}

/// What is a clustering of a graph is one of every graph that agrees with
/// it on all that can be observed.
pub proof fn lemma_answers_same(o: &Graph, o2: &Graph, b: &Graph, c: int)
    requires
        o.wf(),
        o2.same_state(o),
        o2.active@.no_duplicates(),
        o2.edges.wf(),
        o2.edges.spec_len() == o2.cap(),
        b.answers(o, c),
    ensures
        b.answers(o2, c),
        b.keeps(o) ==> b.keeps(o2),
{
    lemma_same_state_wf(o, o2);
    lemma_same_state_cost(o, o2, b.roots());
    assert forall|a: int| o2.is_active(a) implies (#[trigger] b.root_spec(a)) < b.len && (
    o2.is_active(b.root_spec(a)) || b.root_spec(a) >= o2.len) by {
        assert(o.is_active(a));
    }
    assert forall|a: int| o2.is_active(a) implies (#[trigger] b.vertex_merged@[a] matches Some(p)
        ==> p >= o2.len) by {
        assert(o.is_active(a));
    }
    if b.keeps(o) {
        assert forall|u: int| foreign(o2, u) implies (#[trigger] b.vertex_merged@[u] matches Some(
            p,
        ) ==> u < p < o2.len) by {
            assert(foreign(o, u));
        }
    }
}

/// At a leaf of the search the graph has no conflicts; its copy with the
/// clusters merged is a clustering of the origin at the cost spent on
/// the way, and keeps what was recorded of foreign vertices.
pub proof fn lemma_answers_leaf(
    o: &Graph,
    g: &Graph,
    prev: &Graph,
    bc: &Graph,
    bf: &Graph,
    spent: int,
)
    requires
        o.wf(),
        g.wf(),
        g.conflict_free(),
        g.lifts(o, spent),
        g.follows(o),
        prev.keeps(o),
        bc.wf(),
        bc.copies(g, prev),
        bf.wf(),
        bf.finishes(bc),
        bf.len + bf.active.len() == bc.len + bc.active.len(),
        forall|x: int, y: int| #[trigger]
            bc.is_pair(x, y) ==> (bf.root_spec(x) == bf.root_spec(y)) == (bc.weight(x, y) > 0),
    ensures
        bf.answers(o, spent),
        bf.keeps(o),
        bf.kept_from(prev, o),
{
    let q = g.clusters();
    lemma_conflict_free_cost(g);
    let lifted = g.pull(q);
    let p = bf.roots();
    assert(o.admits(lifted) && o.cost(lifted) == spent);
    assert forall|v: int| bc.is_active(v) == g.is_active(v) by {}
    assert forall|a: int| o.is_active(a) implies bf.root_spec(a) == bf.root_spec(g.root_spec(a))
        && g.is_active(g.root_spec(a)) by {
        lemma_active_below_len(o, a);
        lemma_root_copy(g, bc, a);
    }
    assert forall|a: int, c: int| #[trigger] o.is_pair(a, c) implies (p(a) == p(c)) == (lifted(a)
        == lifted(c)) by {
        let ra = g.root_spec(a);
        let rc = g.root_spec(c);
        assert(bf.root_spec(a) == bf.root_spec(ra));
        assert(bf.root_spec(c) == bf.root_spec(rc));
        if ra != rc {
            assert(g.is_pair(ra, rc));
            assert(bc.is_pair(ra, rc));
            assert(bc.edge(ra, rc) == g.edge(ra, rc));
        }
    }
    lemma_same_pattern_cost(o, p, lifted);
    assert forall|a: int| o.is_active(a) implies (#[trigger] bf.root_spec(a)) < bf.len && (
    o.is_active(bf.root_spec(a)) || bf.root_spec(a) >= o.len) by {
        let ra = g.root_spec(a);
        assert(bf.root_spec(a) == bf.root_spec(ra));
        assert(bc.is_active(ra));
        let z = bf.root_spec(ra);
        assert(bf.is_active(z));
        lemma_active_below_len(bf, z);
        if !(bc.is_active(z)) {
            assert(z >= bc.len);
        } else {
            assert(g.is_active(z));
        }
    }
    assert forall|a: int| o.is_active(a) implies (#[trigger] bf.vertex_merged@[a] matches Some(p)
        ==> p >= o.len) by {
        lemma_active_below_len(o, a);
        if g.is_active(a) {
            assert(bc.is_active(a));
        } else {
            lemma_root(g, a);
            assert(g.is_active(g.root_spec(a)));
            assert(g.vertex_merged@[a] is Some);
            assert(bc.vertex_merged@[a] == g.vertex_merged@[a]);
            assert(bf.vertex_merged@[a] == bc.vertex_merged@[a]);
        }
    }
    assert forall|u: int| foreign(o, u) implies #[trigger] bf.vertex_merged@[u]
        == prev.vertex_merged@[u] by {
        assert(g.vertex_merged@[u] is None);
        if g.is_active(u) {
            assert(o.is_active(u) || u >= o.len);
        }
        assert(bc.vertex_merged@[u] == prev.vertex_merged@[u]);
        assert(bf.vertex_merged@[u] == bc.vertex_merged@[u]);
    }
}

/// The clusterings of the two parts of a graph, recorded in one forest
/// one after the other, make a clustering of the whole at the sum of the
/// two costs.
pub proof fn lemma_answers_join(
    g: &Graph,
    one: &Graph,
    two: &Graph,
    b1: &Graph,
    b2: &Graph,
    c1: int,
    c2: int,
)
    requires
        g.wf(),
        g.splits_into(one, two),
        one.wf(),
        two.wf(),
        one.len == g.len,
        one.vertex_merged@ == g.vertex_merged@,
        two.vertex_merged@ == g.vertex_merged@,
        b1.len <= two.len,
        two.len <= g.len + one.active.len(),
        one.active.len() + two.active.len() == g.active.len(),
        b1.answers(one, c1),
        b2.answers(two, c2),
        b2.kept_from(b1, two),
    ensures
        b2.answers(g, c1 + c2),
{
    let inside = |z: int| one.is_active(z) || g.len <= z < b1.len;
    assert forall|u: int| 0 <= u < b1.cap() && inside(u) implies #[trigger] b2.vertex_merged@[u]
        == b1.vertex_merged@[u] by {
        if one.is_active(u) {
            lemma_active_below_len(one, u);
            assert(g.is_active(u));
            lemma_active_below_len(g, u);
        }
        assert(foreign(two, u));
    }
    assert forall|u: int| 0 <= u < b1.cap() && inside(u) implies (
    #[trigger] b1.vertex_merged@[u] matches Some(p) ==> inside(p as int)) by {
        if one.is_active(u) {
            lemma_active_below_len(one, u);
        }
    }
    let later = b2.roots();
    let earlier = b1.roots();
    assert forall|a: int| one.is_active(a) implies later(a) == earlier(a) by {
        lemma_root_frame(b1, b2, inside, a);
    }
    assert forall|a: int, c: int| #[trigger] one.is_pair(a, c) implies (later(a) == later(c)) == (earlier(a)
        == earlier(c)) by {}
    lemma_same_pattern_cost(one, later, earlier);
    assert forall|a: int, c: int| one.is_active(a) && two.is_active(c) implies later(a) != later(c) by {
        assert(b1.root_spec(a) < b1.len);
        assert(one.is_active(b1.root_spec(a)) || b1.root_spec(a) >= one.len);
        assert(two.is_active(b2.root_spec(c)) || b2.root_spec(c) >= two.len);
        if two.is_active(b2.root_spec(c)) {
            lemma_active_below_len(two, b2.root_spec(c));
            assert(g.is_active(b2.root_spec(c)));
            lemma_active_below_len(g, b2.root_spec(c));
        }
    }
    lemma_split_cost(g, one, two, later);
    assert forall|a: int| g.is_active(a) implies (#[trigger] b2.root_spec(a)) < b2.len && (
    g.is_active(b2.root_spec(a)) || b2.root_spec(a) >= g.len) by {
        if one.is_active(a) {
            assert(later(a) == earlier(a));
            assert(b1.root_spec(a) < b1.len);
        } else {
            assert(two.is_active(a));
        }
    }
    assert forall|a: int| g.is_active(a) implies (#[trigger] b2.vertex_merged@[a] matches Some(p)
        ==> p >= g.len) by {
        if one.is_active(a) {
            lemma_active_below_len(g, a);
            assert(inside(a));
            assert(b2.vertex_merged@[a] == b1.vertex_merged@[a]);
        } else {
            assert(two.is_active(a));
        }
    }
}


/// A copy of a clustering is the same clustering.
pub proof fn lemma_answers_clone(o: &Graph, b: &Graph, c: &Graph, cost: int)
    requires
        b.answers(o, cost),
        c.wf(),
        c.same_vertices(b),
    ensures
        c.answers(o, cost),
        c.kept_from(b, o),
        b.keeps(o) ==> c.keeps(o),
{
    assert forall|v: int| c.root_spec(v) == b.root_spec(v) by {
        lemma_root_same(b, c, v);
    }
    let p = b.roots();
    let q = c.roots();
    assert forall|a: int, d: int| #[trigger] o.is_pair(a, d) implies (p(a) == p(d)) == (q(a) == q(
        d,
    )) by {}
    lemma_same_pattern_cost(o, p, q);
    assert forall|a: int| o.is_active(a) implies (#[trigger] c.root_spec(a)) < c.len && (
    o.is_active(c.root_spec(a)) || c.root_spec(a) >= o.len) by {
        assert(b.root_spec(a) < b.len);
    }
}

} // verus!
