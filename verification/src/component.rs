//! Splitting the active vertices into connected components.

use vstd::prelude::*;
use crate::graph::Graph;
use crate::merge::lemma_active_below_len;
use crate::finish::lemma_select;
use crate::sums::{
    sum_to, lemma_sum_le, lemma_sum_add, lemma_sum_point, lemma_sum_nonneg, lemma_square_le,
};

verus! {

/// Whether `c` is an entry of `s`.
pub open spec fn occurs(s: Seq<usize>, c: int) -> bool {
    exists|k: int| 0 <= k < s.len() && s[k] == c
}

/// The entries of `s` that satisfy `f`, in their order.
pub open spec fn kept(s: Seq<usize>, f: spec_fn(int) -> bool) -> Seq<usize>
    decreases s.len(),
{
    if s.len() == 0 {
        s
    } else if f(s.last() as int) {
        kept(s.drop_last(), f).push(s.last())
    } else {
        kept(s.drop_last(), f)
    }
}

/// What `kept` holds: the entries that satisfy `f`, each as often as before.
pub proof fn lemma_kept(s: Seq<usize>, f: spec_fn(int) -> bool)
    ensures
        forall|c: int| #[trigger] occurs(kept(s, f), c) <==> (f(c) && occurs(s, c)),
        kept(s, f).len() <= s.len(),
        s.no_duplicates() ==> kept(s, f).no_duplicates(),
        kept(s, f).len() + kept(s, |v: int| !f(v)).len() == s.len(),
        (forall|k: int| 0 <= k < s.len() ==> f(#[trigger] s[k] as int)) ==> kept(s, f) == s,
    decreases s.len(),
{
    let g = |v: int| !f(v);
    if s.len() > 0 {
        let t = s.drop_last();
        let l = s.last();
        lemma_kept(t, f);
        let r = kept(t, f);
        let w = kept(s, f);
        assert forall|c: int| #[trigger] occurs(w, c) <==> (f(c) && occurs(s, c)) by {
            if occurs(w, c) {
                let k = choose|k: int| 0 <= k < w.len() && w[k] == c;
                if k < r.len() {
                    assert(r[k] == c);
                    assert(occurs(r, c));
                    let j = choose|j: int| 0 <= j < t.len() && t[j] == c;
                    assert(s[j] == c);
                } else {
                    assert(s[s.len() - 1] == c);
                }
            }
            if f(c) && occurs(s, c) {
                let j = choose|j: int| 0 <= j < s.len() && s[j] == c;
                if j < t.len() {
                    assert(t[j] == c);
                    assert(occurs(t, c));
                    assert(occurs(r, c));
                    let k = choose|k: int| 0 <= k < r.len() && r[k] == c;
                    assert(w[k] == c);
                } else {
                    assert(w[w.len() - 1] == c);
                }
            }
        }
        if s.no_duplicates() {
            assert(t.no_duplicates());
            if f(l as int) {
                assert forall|i: int, j: int|
                    0 <= i < w.len() && 0 <= j < w.len() && i != j implies w[i] != w[j] by {
                    if w[i] == w[j] {
                        let m = if i == r.len() {
                            j
                        } else {
                            i
                        };
                        assert(r[m] == l);
                        assert(occurs(r, l as int));
                        assert(occurs(t, l as int));
                        let k = choose|k: int| 0 <= k < t.len() && t[k] == l as int;
                        assert(s[k] == s[s.len() - 1]);
                    }
                }
            }
        }
        if forall|k: int| 0 <= k < s.len() ==> f(#[trigger] s[k] as int) {
            assert forall|k: int| 0 <= k < t.len() implies f(#[trigger] t[k] as int) by {
                assert(t[k] == s[k]);
            }
            assert(f(s[s.len() - 1] as int));
            assert(r.push(l) =~= s);
        }
    }
}

impl Graph {
    /// A walk along positive edges between active vertices.
    pub open spec fn is_walk(&self, walk: Seq<int>) -> bool {
        &&& walk.len() > 0
        &&& forall|k: int| 0 <= k < walk.len() ==> self.is_active(#[trigger] walk[k])
        &&& forall|k: int|
            0 <= k < walk.len() - 1 ==> self.is_positive(#[trigger] walk[k], walk[k + 1])
    }

    /// Whether a walk along positive edges leads from `a` to `b`.
    pub open spec fn connected(&self, a: int, b: int) -> bool {
        exists|walk: Seq<int>| #[trigger]
            self.is_walk(walk) && walk.first() == a && walk.last() == b
    }

    /// The vertices that walks along positive edges lead to from `a`.
    pub open spec fn component(&self, a: int) -> spec_fn(int) -> bool {
        |b: int| self.connected(a, b)
    }

    /// The number of active vertices without a mark.
    pub open spec fn unmarked(&self, marks: Seq<bool>) -> int {
        sum_to(
            |v: int|
                if self.is_active(v) && !marks[v] {
                    1int
                } else {
                    0int
                },
            self.cap(),
        )
    }
}

/// An active vertex is connected to itself.
pub proof fn lemma_connected_self(g: &Graph, a: int)
    requires
        g.is_active(a),
    ensures
        g.connected(a, a),
{
    let walk = seq![a];
    assert(g.is_walk(walk) && walk.first() == a && walk.last() == a);
}

/// A walk goes on along a positive edge.
pub proof fn lemma_connected_step(g: &Graph, a: int, b: int, c: int)
    requires
        g.connected(a, b),
        g.is_active(c),
        g.is_positive(b, c),
    ensures
        g.connected(a, c),
{
    let walk = choose|walk: Seq<int>| #[trigger]
        g.is_walk(walk) && walk.first() == a && walk.last() == b;
    let longer = walk.push(c);
    assert forall|k: int| 0 <= k < longer.len() implies g.is_active(#[trigger] longer[k]) by {
        if k < walk.len() {
            assert(longer[k] == walk[k]);
        }
    }
    assert forall|k: int| 0 <= k < longer.len() - 1 implies g.is_positive(
        #[trigger] longer[k],
        longer[k + 1],
    ) by {
        if k < walk.len() - 1 {
            assert(longer[k] == walk[k]);
            assert(longer[k + 1] == walk[k + 1]);
        }
    }
    assert(g.is_walk(longer) && longer.first() == a && longer.last() == c);
}

/// Marking one more active vertex leaves fewer unmarked.
pub proof fn lemma_unmarked(g: &Graph, before: Seq<bool>, after: Seq<bool>, v: int)
    requires
        before.len() == g.cap(),
        after.len() == g.cap(),
        forall|u: int| 0 <= u < g.cap() && before[u] ==> after[u],
    ensures
        0 <= g.unmarked(after) <= g.unmarked(before),
        0 <= v < g.cap() && g.is_active(v) && !before[v] && after[v] ==> g.unmarked(after)
            < g.unmarked(before),
{
    let n = g.cap();
    let fb = |u: int|
        if g.is_active(u) && !before[u] {
            1int
        } else {
            0int
        };
    let fa = |u: int|
        if g.is_active(u) && !after[u] {
            1int
        } else {
            0int
        };
    lemma_sum_le(fa, fb, n);
    lemma_sum_nonneg(fa, n);
    if 0 <= v < n && g.is_active(v) && !before[v] && after[v] {
        let d = |u: int|
            if u == v {
                1int
            } else {
                0int
            };
        let fad = |u: int| fa(u) + d(u);
        lemma_sum_le(fad, fb, n);
        lemma_sum_add(fad, fa, d, n);
        lemma_sum_point(d, n, v);
    }
}

impl Graph {
    /// A walk along positive edges between active vertices without a mark.
    pub open spec fn is_free_walk(&self, walk: Seq<int>, marks: Seq<bool>) -> bool {
        &&& self.is_walk(walk)
        &&& forall|k: int|
            0 <= k < walk.len() ==> 0 <= #[trigger] walk[k] < marks.len() && !marks[walk[k]]
    }

    /// Whether a walk along positive edges through vertices without a mark
    /// leads from `a` to `b`.
    pub open spec fn reaches(&self, marks: Seq<bool>, a: int, b: int) -> bool {
        exists|walk: Seq<int>| #[trigger]
            self.is_free_walk(walk, marks) && walk.first() == a && walk.last() == b
    }
}

/// An active vertex without a mark reaches itself.
pub proof fn lemma_reaches_self(g: &Graph, marks: Seq<bool>, a: int)
    requires
        g.is_active(a),
        0 <= a < marks.len(),
        !marks[a],
    ensures
        g.reaches(marks, a, a),
{
    let walk = seq![a];
    assert(g.is_free_walk(walk, marks) && walk.first() == a && walk.last() == a);
}

/// A free walk goes on along a positive edge to a vertex without a mark.
pub proof fn lemma_reaches_step(g: &Graph, marks: Seq<bool>, a: int, b: int, c: int)
    requires
        g.reaches(marks, a, b),
        g.is_active(c),
        g.is_positive(b, c),
        0 <= c < marks.len(),
        !marks[c],
    ensures
        g.reaches(marks, a, c),
{
    let walk = choose|walk: Seq<int>| #[trigger]
        g.is_free_walk(walk, marks) && walk.first() == a && walk.last() == b;
    let longer = walk.push(c);
    assert forall|k: int| 0 <= k < longer.len() implies g.is_active(#[trigger] longer[k]) by {
        if k < walk.len() {
            assert(longer[k] == walk[k]);
        }
    }
    assert forall|k: int| 0 <= k < longer.len() - 1 implies g.is_positive(
        #[trigger] longer[k],
        longer[k + 1],
    ) by {
        if k < walk.len() - 1 {
            assert(longer[k] == walk[k]);
            assert(longer[k + 1] == walk[k + 1]);
        }
    }
    assert forall|k: int| 0 <= k < longer.len() implies 0 <= #[trigger] longer[k] < marks.len()
        && !marks[longer[k]] by {
        if k < walk.len() {
            assert(longer[k] == walk[k]);
        }
    }
    assert(g.is_free_walk(longer, marks) && longer.first() == a && longer.last() == c);
}

/// What a positive neighbour of `a` reaches while more vertices are
/// marked, `a` reaches while fewer are.
pub proof fn lemma_reaches_from(
    g: &Graph,
    fewer: Seq<bool>,
    more: Seq<bool>,
    a: int,
    b: int,
    c: int,
)
    requires
        g.is_active(a),
        0 <= a < fewer.len(),
        !fewer[a],
        g.is_positive(a, b),
        fewer.len() == more.len(),
        forall|u: int| 0 <= u < fewer.len() && fewer[u] ==> more[u],
        g.reaches(more, b, c),
    ensures
        g.reaches(fewer, a, c),
{
    let walk = choose|walk: Seq<int>| #[trigger]
        g.is_free_walk(walk, more) && walk.first() == b && walk.last() == c;
    let longer = seq![a] + walk;
    assert forall|k: int| 0 <= k < longer.len() implies g.is_active(#[trigger] longer[k]) by {
        if k > 0 {
            assert(longer[k] == walk[k - 1]);
        }
    }
    assert forall|k: int| 0 <= k < longer.len() - 1 implies g.is_positive(
        #[trigger] longer[k],
        longer[k + 1],
    ) by {
        if k > 0 {
            assert(longer[k] == walk[k - 1]);
            assert(longer[k + 1] == walk[k - 1 + 1]);
        } else {
            assert(longer[1] == walk[0]);
        }
    }
    assert forall|k: int| 0 <= k < longer.len() implies 0 <= #[trigger] longer[k] < fewer.len()
        && !fewer[longer[k]] by {
        if k > 0 {
            assert(longer[k] == walk[k - 1]);
        }
    }
    assert(g.is_free_walk(longer, fewer) && longer.first() == a && longer.last() == c);
}

/// A set of vertices that holds `a` and every unmarked active vertex that
/// a positive edge leads to from it holds every vertex that `a` reaches.
pub proof fn lemma_closed_holds_reach(
    g: &Graph,
    marks: Seq<bool>,
    inside: spec_fn(int) -> bool,
    a: int,
    b: int,
)
    requires
        inside(a),
        forall|v: int, w: int|
            inside(v) && g.is_active(w) && 0 <= w < marks.len() && !marks[w]
                && #[trigger] g.is_positive(v, w) ==> inside(w),
        g.reaches(marks, a, b),
    ensures
        inside(b),
{
    let walk = choose|walk: Seq<int>| #[trigger]
        g.is_free_walk(walk, marks) && walk.first() == a && walk.last() == b;
    lemma_free_walk_inside(g, marks, inside, walk, walk.len() - 1);
}

proof fn lemma_free_walk_inside(
    g: &Graph,
    marks: Seq<bool>,
    inside: spec_fn(int) -> bool,
    walk: Seq<int>,
    k: int,
)
    requires
        g.is_free_walk(walk, marks),
        inside(walk.first()),
        forall|v: int, w: int|
            inside(v) && g.is_active(w) && 0 <= w < marks.len() && !marks[w]
                && #[trigger] g.is_positive(v, w) ==> inside(w),
        0 <= k < walk.len(),
    ensures
        inside(walk[k]),
    decreases k,
{
    if k > 0 {
        lemma_free_walk_inside(g, marks, inside, walk, k - 1);
        assert(g.is_positive(walk[k - 1], walk[k - 1 + 1]));
        assert(g.is_active(walk[k]));
        assert(!marks[walk[k]]);
    }
}

/// Where no active vertex has a mark, a vertex reaches what it is connected to.
pub proof fn lemma_reaches_connected(g: &Graph, marks: Seq<bool>, a: int, b: int)
    requires
        g.wf(),
        marks.len() == g.cap(),
        forall|v: int| g.is_active(v) ==> !marks[v],
    ensures
        g.reaches(marks, a, b) == g.connected(a, b),
{
    if g.reaches(marks, a, b) {
        let walk = choose|walk: Seq<int>| #[trigger]
            g.is_free_walk(walk, marks) && walk.first() == a && walk.last() == b;
        assert(g.is_walk(walk) && walk.first() == a && walk.last() == b);
    }
    if g.connected(a, b) {
        let walk = choose|walk: Seq<int>| #[trigger]
            g.is_walk(walk) && walk.first() == a && walk.last() == b;
        assert forall|k: int| 0 <= k < walk.len() implies 0 <= #[trigger] walk[k] < marks.len()
            && !marks[walk[k]] by {
            assert(g.is_active(walk[k]));
            lemma_active_below_len(g, walk[k]);
        }
        assert(g.is_free_walk(walk, marks) && walk.first() == a && walk.last() == b);
    }
}

/// Marks `v1` and every vertex that a walk along positive edges through
/// unmarked vertices leads to from it.
pub fn add_connected(graph: &Graph, v1: usize, vertex_markers: &mut Vec<bool>)
    requires
        graph.wf(),
        graph.is_active(v1 as int),
        old(vertex_markers).len() == graph.cap(),
        !old(vertex_markers)@[v1 as int],
    ensures
        final(vertex_markers).len() == graph.cap(),
        forall|u: int|
            0 <= u < graph.cap() ==> #[trigger] final(vertex_markers)@[u] == (old(vertex_markers)@[u]
                || graph.reaches(old(vertex_markers)@, v1 as int, u)),
    decreases graph.unmarked(old(vertex_markers)@),
{
    let ghost start = old(vertex_markers)@;
    proof {
        lemma_active_below_len(graph, v1 as int);
        lemma_reaches_self(graph, start, v1 as int);
    }
    vertex_markers.set(v1, true);
    let ghost first = vertex_markers@;
    proof {
        lemma_unmarked(graph, old(vertex_markers)@, first, v1 as int);
    }
    let friends = graph.positive(v1, 0);
    let ghost keep = graph.keeps_positive(v1 as int);
    proof {
        lemma_select(graph, 0, graph.active.len() as int, keep);
    }
    let mut j: usize = 0;
    while j < friends.len()
        invariant
            graph.wf(),
            graph.is_active(v1 as int),
            v1 < graph.cap(),
            j <= friends.len(),
            friends@ == graph.select(0, graph.active.len() as int, keep),
            keep == graph.keeps_positive(v1 as int),
            forall|m: int|
                0 <= m < friends.len() ==> {
                    let e = #[trigger] friends@[m];
                    &&& 0 < e.0 <= graph.active.len()
                    &&& e.1 == graph.active@[e.0 - 1]
                    &&& keep(e.1 as int)
                },
            forall|m: int, l: int| 0 <= m < l < friends.len() ==> friends@[m].0 < friends@[l].0,
            old(vertex_markers).len() == graph.cap(),
            start == old(vertex_markers)@,
            vertex_markers.len() == graph.cap(),
            !old(vertex_markers)@[v1 as int],
            vertex_markers@[v1 as int],
            0 <= graph.unmarked(vertex_markers@) < graph.unmarked(old(vertex_markers)@),
            forall|u: int| 0 <= u < graph.cap() && old(vertex_markers)@[u] ==> vertex_markers@[u],
            forall|u: int|
                0 <= u < graph.cap() && vertex_markers@[u] && !old(vertex_markers)@[u]
                    ==> graph.reaches(start, v1 as int, u),
            forall|u: int, w: int|
                0 <= u < graph.cap() && u != v1 && vertex_markers@[u] && !old(vertex_markers)@[u]
                    && graph.is_active(w) && #[trigger] graph.is_positive(u, w)
                    ==> vertex_markers@[w],
            forall|m: int| 0 <= m < j ==> vertex_markers@[(#[trigger] friends@[m]).1 as int],
        decreases friends.len() - j,
    {
        let v2: usize = friends[j].1;
        proof {
            assert(keep(friends@[j as int].1 as int));
            assert(graph.active@[friends@[j as int].0 - 1] == v2);
            assert(graph.is_active(v2 as int));
            lemma_active_below_len(graph, v2 as int);
        }
        if !vertex_markers[v2] {
            let ghost before = vertex_markers@;
            add_connected(graph, v2, vertex_markers);
            proof {
                lemma_unmarked(graph, before, vertex_markers@, v2 as int);
                lemma_reaches_self(graph, before, v2 as int);
                assert forall|u: int|
                    0 <= u < graph.cap() && vertex_markers@[u] && !old(vertex_markers)@[u]
                    implies graph.reaches(start, v1 as int, u) by {
                    if !before[u] {
                        lemma_reaches_from(graph, start, before, v1 as int, v2 as int, u);
                    }
                }
                assert forall|u: int, w: int|
                    0 <= u < graph.cap() && u != v1 && vertex_markers@[u] && !old(vertex_markers)@[u] && graph.is_active(w) && #[trigger] graph.is_positive(u, w)
                    implies vertex_markers@[w] by {
                    lemma_active_below_len(graph, w);
                    if before[u] {
                        assert(before[w]);
                    } else if !before[w] {
                        lemma_reaches_step(graph, before, v2 as int, u, w);
                    }
                }
                assert forall|m: int| 0 <= m < j + 1 implies vertex_markers@[(
                #[trigger] friends@[m]).1 as int] by {
                    if m < j {
                        assert(before[friends@[m].1 as int]);
                        assert(graph.active@[friends@[m].0 - 1] == friends@[m].1);
                        assert(graph.is_active(friends@[m].1 as int));
                        lemma_active_below_len(graph, friends@[m].1 as int);
                    }
                }
            }
        }
        j += 1;
    }
    proof {
        let marks = vertex_markers@;
        let inside = |u: int| 0 <= u < graph.cap() && marks[u] && !start[u];
        assert forall|v: int, w: int|
            inside(v) && graph.is_active(w) && 0 <= w < start.len() && !start[w]
                && #[trigger] graph.is_positive(v, w) implies inside(w) by {
            if v == v1 {
                lemma_select_complete(graph, 0, graph.active.len() as int, keep, w);
                let m = choose|m: int| 0 <= m < friends.len() && (#[trigger] friends@[m]).1 == w;
                assert(marks[friends@[m].1 as int]);
            }
        }
        assert forall|u: int| 0 <= u < graph.cap() implies #[trigger] marks[u] == (start[u]
            || graph.reaches(start, v1 as int, u)) by {
            if graph.reaches(start, v1 as int, u) {
                lemma_closed_holds_reach(graph, start, inside, v1 as int, u);
            }
        }
    }
}

/// `select` leaves out no active vertex that satisfies `keep`.
pub proof fn lemma_select_complete(
    g: &Graph,
    from: int,
    upto: int,
    keep: spec_fn(int) -> bool,
    w: int,
)
    requires
        0 <= from,
        upto <= g.active.len(),
        exists|k: int| from <= k < upto && g.active@[k] == w,
        keep(w),
    ensures
        exists|m: int|
            0 <= m < g.select(from, upto, keep).len() && (#[trigger] g.select(
                from,
                upto,
                keep,
            )[m]).1 == w,
    decreases upto - from,
{
    let k = choose|k: int| from <= k < upto && g.active@[k] == w;
    let all = g.select(from, upto, keep);
    if k == upto - 1 {
        assert(all[all.len() - 1].1 == w);
    } else {
        lemma_select_complete(g, from, upto - 1, keep, w);
        let rest = g.select(from, upto - 1, keep);
        let m = choose|m: int| 0 <= m < rest.len() && (#[trigger] rest[m]).1 == w;
        assert(all[m] == rest[m]);
    }
}

impl Graph {
    /// `self` is `whole` with some of the active vertices left out, and
    /// perhaps with room taken for more vertices.
    pub open spec fn restricts(&self, whole: &Graph) -> bool {
        &&& self.vertex_merged@ == whole.vertex_merged@
        &&& self.edges.wf()
        &&& self.edges.spec_len() == whole.edges.spec_len()
        &&& forall|a: int, b: int|
            0 <= a < whole.len && 0 <= b < whole.len ==> #[trigger] self.edge(a, b) == whole.edge(
                a,
                b,
            )
        &&& whole.len <= self.len
        &&& self.len + self.active.len() <= self.cap()
        &&& self.active@.no_duplicates()
        &&& forall|v: int| self.is_active(v) ==> whole.is_active(v)
    }
}

/// A graph stays well-formed when active vertices are left out.
pub proof fn lemma_restrict(g: &Graph, h: &Graph)
    requires
        g.wf(),
        h.restricts(g),
    ensures
        h.wf(),
        h.weight_sum() <= g.weight_sum(),
{
    assert forall|k: int| 0 <= k < h.active.len() implies (#[trigger] h.active@[k]) < h.len
        && h.vertex_merged@[h.active@[k] as int] is None by {
        assert(h.is_active(h.active@[k] as int));
        lemma_active_below_len(g, h.active@[k] as int);
    }
    assert forall|a: int, b: int| #[trigger] h.is_pair(a, b) implies h.edge(a, b).ok() by {
        assert(g.is_pair(a, b));
        lemma_active_below_len(g, a);
        lemma_active_below_len(g, b);
    }
    let f = |a: int, b: int| h.pair_magnitude(a, b);
    let e = |a: int, b: int| g.pair_magnitude(a, b);
    assert forall|a: int, b: int| 0 <= a < g.cap() && 0 <= b < g.cap() implies #[trigger] f(a, b)
        <= e(a, b) by {
        if h.is_pair(a, b) {
            assert(g.is_pair(a, b));
            lemma_active_below_len(g, a);
            lemma_active_below_len(g, b);
        }
    }
    lemma_square_le(f, e, g.cap());
}

/// The vertices set aside while one component is searched, and the marks
/// of the walk that finds a component.
#[derive(Clone)]
pub struct Components {
    pub un_active: Vec<usize>,
    pub vertex_markers: Vec<bool>,
}

impl Components {
    /// An empty store for a graph with room for `len` vertices.
    pub fn new(len: usize) -> (c: Self)
        ensures
            c.un_active@ == Seq::<usize>::empty(),
            c.vertex_markers.len() == len,
            forall|v: int| 0 <= v < len ==> !(#[trigger] c.vertex_markers@[v]),
    {
        let mut vertex_markers: Vec<bool> = Vec::new();
        let mut v: usize = 0;
        while v < len
            invariant
                v <= len,
                vertex_markers.len() == v,
                forall|u: int| 0 <= u < v ==> !(#[trigger] vertex_markers@[u]),
            decreases len - v,
        {
            vertex_markers.push(false);
            v += 1;
        }
        Components { un_active: Vec::new(), vertex_markers }
    }

    /// Restricts the active vertices to the component of the first of
    /// them, sets the others aside, and returns how many were set aside.
    pub fn isolate_component(&mut self, graph: &mut Graph) -> (count: usize)
        requires
            old(graph).wf(),
            old(self).vertex_markers.len() == old(graph).cap(),
        ensures
            final(graph).wf(),
            final(graph).restricts(old(graph)),
            final(graph).len == old(graph).len,
            final(self).vertex_markers.len() == old(graph).cap(),
            old(graph).active.len() == 0 ==> count == 0 && final(graph).active@ == old(
                graph,
            ).active@ && final(self).un_active@ == old(self).un_active@,
            old(graph).active.len() > 0 ==> {
                let inside = old(graph).component(old(graph).active@[0] as int);
                &&& final(graph).active@ == kept(old(graph).active@, inside)
                &&& final(self).un_active@ == old(self).un_active@ + kept(
                    old(graph).active@,
                    |v: int| !inside(v),
                )
                &&& count == kept(old(graph).active@, |v: int| !inside(v)).len()
            },
    {
        let n: usize = graph.active.len();
        if n == 0 {
            return 0;
        }
        let mut k: usize = 0;
        while k < n
            invariant
                graph.wf(),
                *graph == *old(graph),
                n == graph.active.len(),
                k <= n,
                self.un_active == old(self).un_active,
                self.vertex_markers.len() == graph.cap(),
                forall|j: int| 0 <= j < k ==> !self.vertex_markers@[(#[trigger] graph.active@[j]) as int],
            decreases n - k,
        {
            let v: usize = graph.active[k];
            proof {
                assert(graph.is_active(v as int));
                lemma_active_below_len(graph, v as int);
            }
            self.vertex_markers.set(v, false);
            k += 1;
        }
        let v0: usize = graph.active[0];
        let ghost cleared = self.vertex_markers@;
        proof {
            assert(graph.is_active(v0 as int));
        }
        add_connected(graph, v0, &mut self.vertex_markers);
        let ghost inside = graph.component(v0 as int);
        let ghost outside = |v: int| !inside(v);
        let ghost marks = self.vertex_markers@;
        proof {
            assert forall|v: int| graph.is_active(v) implies !cleared[v] by {
                let j = choose|j: int| 0 <= j < graph.active.len() && graph.active@[j] == v;
                assert(!cleared[graph.active@[j] as int]);
            }
            assert forall|j: int| 0 <= j < n implies marks[(#[trigger] graph.active@[j]) as int]
                == inside(graph.active@[j] as int) by {
                let v = graph.active@[j] as int;
                assert(graph.is_active(v));
                lemma_active_below_len(graph, v);
                lemma_reaches_connected(graph, cleared, v0 as int, v);
            }
        }
        let mut stay: Vec<usize> = Vec::new();
        let mut count: usize = 0;
        let mut i: usize = 0;
        while i < n
            invariant
                graph.wf(),
                *graph == *old(graph),
                n == graph.active.len(),
                i <= n,
                count <= i,
                self.vertex_markers@ == marks,
                marks.len() == graph.cap(),
                inside == graph.component(v0 as int),
                outside == |v: int| !inside(v),
                forall|j: int|
                    0 <= j < n ==> marks[(#[trigger] graph.active@[j]) as int] == inside(
                        graph.active@[j] as int,
                    ),
                stay@ == kept(graph.active@.take(i as int), inside),
                self.un_active@ == old(self).un_active@ + kept(
                    graph.active@.take(i as int),
                    outside,
                ),
                count == kept(graph.active@.take(i as int), outside).len(),
            decreases n - i,
        {
            let v: usize = graph.active[i];
            proof {
                assert(graph.is_active(v as int));
                lemma_active_below_len(graph, v as int);
                assert(graph.active@.take(i + 1).drop_last() == graph.active@.take(i as int));
                assert(graph.active@.take(i + 1).last() == v);
            }
            if self.vertex_markers[v] {
                stay.push(v);
            } else {
                self.un_active.push(v);
                count += 1;
                proof {
                    assert(self.un_active@ =~= old(self).un_active@ + kept(
                        graph.active@.take(i + 1),
                        outside,
                    ));
                }
            }
            i += 1;
        }
        proof {
            assert(graph.active@.take(n as int) == graph.active@);
            lemma_kept(graph.active@, inside);
        }
        let ghost g = *graph;
        graph.active = stay;
        proof {
            assert forall|v: int| graph.is_active(v) implies g.is_active(v) by {
                assert(occurs(graph.active@, v));
                assert(occurs(g.active@, v));
            }
            lemma_restrict(&g, graph);
        }
        count
    }

    /// Swaps the active vertices with the `len` vertices set aside last,
    /// and returns how many vertices were active.
    pub fn other_component(&mut self, active: &mut Vec<usize>, len: usize) -> (count: usize)
        requires
            len <= old(self).un_active.len(),
        ensures
            count == old(active).len(),
            final(active)@ == old(self).un_active@.subrange(
                old(self).un_active.len() - len,
                old(self).un_active.len() as int,
            ),
            final(self).un_active@ == old(self).un_active@.subrange(
                0,
                old(self).un_active.len() - len,
            ) + old(active)@,
            final(self).vertex_markers == old(self).vertex_markers,
    {
        let active_len: usize = active.len();
        let un_active_len: usize = self.un_active.len();
        let mut other = self.un_active.split_off(un_active_len - len);
        self.un_active.append(active);
        active.append(&mut other);
        active_len
    }

    /// Makes the `len` vertices set aside last active again.
    pub fn all_components(&mut self, active: &mut Vec<usize>, len: usize)
        requires
            len <= old(self).un_active.len(),
        ensures
            final(active)@ == old(active)@ + old(self).un_active@.subrange(
                old(self).un_active.len() - len,
                old(self).un_active.len() as int,
            ),
            final(self).un_active@ == old(self).un_active@.subrange(
                0,
                old(self).un_active.len() - len,
            ),
            final(self).vertex_markers == old(self).vertex_markers,
    {
        let un_active_len: usize = self.un_active.len();
        let mut other = self.un_active.split_off(un_active_len - len);
        active.append(&mut other);
    }
}

} // verus!
