//! The triples that the incremental maintenance of a packing visits, and
//! the order of their turns.

use vstd::prelude::*;
use crate::graph::Graph;
use crate::triple::Triple;
use crate::packing::{ascending, claim, lemma_ascending};
use crate::order::lemma_position;

verus! {

/// Whether `v` is one of the three vertices.
pub open spec fn holds(t: (int, int, int), v: int) -> bool {
    t.0 == v || t.1 == v || t.2 == v
}

/// The two vertices of the triple other than `x`, in ascending order.
pub open spec fn rest_of(t: (int, int, int), x: int) -> (int, int) {
    if t.0 == x {
        (t.1, t.2)
    } else if t.1 == x {
        (t.0, t.2)
    } else {
        (t.0, t.1)
    }
}

/// The triples that hold `v1` and `v2`.
pub open spec fn with_edge(v1: int, v2: int) -> spec_fn((int, int, int)) -> bool {
    |t: (int, int, int)| holds(t, v1) && holds(t, v2)
}

/// The triples that hold `x`, and do not hold `skip` unless `skip` is `x`.
pub open spec fn with_vertex(x: int, skip: int) -> spec_fn((int, int, int)) -> bool {
    |t: (int, int, int)| holds(t, x) && (skip == x || !holds(t, skip))
}

/// The triples that hold `v1` or `v2`.
pub open spec fn with_either(v1: int, v2: int) -> spec_fn((int, int, int)) -> bool {
    |t: (int, int, int)| holds(t, v1) || holds(t, v2)
}

impl Graph {
    /// Three different active vertices in ascending order.
    pub open spec fn is_entry(&self, t: (int, int, int)) -> bool {
        t.0 < t.1 < t.2 && self.is_triple(t.0, t.1, t.2)
    }

    /// The ascending triples of active vertices that satisfy `f`.
    pub open spec fn triples_where(&self, f: spec_fn((int, int, int)) -> bool) -> Set<
        (int, int, int),
    > {
        Set::new(|t: (int, int, int)| self.is_entry(t) && f(t))
    }

    /// The triples of `v1`, `v2` and a third vertex that stands before position `i`.
    pub open spec fn edge_turns(&self, v1: int, v2: int, i: int) -> Set<(int, int, int)> {
        Set::new(
            |t: (int, int, int)|
                self.is_entry(t) && holds(t, v1) && holds(t, v2) && self.place(
                    t.0 + t.1 + t.2 - v1 - v2,
                ) < i,
        )
    }

    /// Whether the two vertices stand at positions that come before
    /// `(i2, i3)`, the smaller position first.
    pub open spec fn pair_before(&self, r: (int, int), i2: int, i3: int) -> bool {
        let p = self.place(r.0);
        let q = self.place(r.1);
        let lo = if p < q {
            p
        } else {
            q
        };
        let hi = if p < q {
            q
        } else {
            p
        };
        lo < i2 || (lo == i2 && hi < i3)
    }

    /// The triples of `x` and two vertices other than `skip` whose
    /// positions come before `(i2, i3)`.
    pub open spec fn vertex_turns(&self, x: int, skip: int, i2: int, i3: int) -> Set<
        (int, int, int),
    > {
        Set::new(
            |t: (int, int, int)|
                self.is_entry(t) && with_vertex(x, skip)(t) && self.pair_before(
                    rest_of(t, x),
                    i2,
                    i3,
                ),
        )
    }
}

/// The position of an active vertex.
pub proof fn lemma_place(g: &Graph, v: int)
    requires
        g.is_active(v),
    ensures
        0 <= g.place(v) < g.active.len(),
        g.at(g.place(v)) == v,
{
}

/// The turn of the triple of `v1`, `v2` and the vertex at position `i`.
pub proof fn lemma_edge_turn(g: &Graph, v1: int, v2: int, i: int)
    requires
        g.active@.no_duplicates(),
        g.is_pair(v1, v2),
        0 <= i < g.active.len(),
    ensures
        g.at(i) != v1 && g.at(i) != v2 ==> {
            let t = ascending(v1, v2, g.at(i));
            &&& g.is_triple(v1, v2, g.at(i))
            &&& !g.edge_turns(v1, v2, i).contains(t)
            &&& g.edge_turns(v1, v2, i).insert(t) == g.edge_turns(v1, v2, i + 1)
            &&& g.triples_where(with_edge(v1, v2)).contains(t)
        },
        g.at(i) == v1 || g.at(i) == v2 ==> g.edge_turns(v1, v2, i + 1) == g.edge_turns(v1, v2, i),
{
    let c = g.at(i);
    lemma_position(g.active@, i);
    assert(g.is_active(c));
    if c != v1 && c != v2 {
        let x = ascending(v1, v2, c);
        lemma_ascending(v1, v2, c);
        assert forall|t: (int, int, int)|
            g.edge_turns(v1, v2, i).insert(x).contains(t) <==> g.edge_turns(v1, v2, i + 1).contains(
                t,
            ) by {
            if g.is_entry(t) && holds(t, v1) && holds(t, v2) {
                let d = t.0 + t.1 + t.2 - v1 - v2;
                assert(holds(t, d));
                lemma_place(g, d);
                if g.place(d) == i {
                    assert(d == c);
                    lemma_ascending(v1, v2, d);
                }
            }
        }
        assert(g.edge_turns(v1, v2, i).insert(x) =~= g.edge_turns(v1, v2, i + 1));
    } else {
        assert forall|t: (int, int, int)|
            g.edge_turns(v1, v2, i).contains(t) <==> g.edge_turns(v1, v2, i + 1).contains(t) by {
            if g.is_entry(t) && holds(t, v1) && holds(t, v2) {
                let d = t.0 + t.1 + t.2 - v1 - v2;
                assert(holds(t, d));
                lemma_place(g, d);
            }
        }
        assert(g.edge_turns(v1, v2, i) =~= g.edge_turns(v1, v2, i + 1));
    }
}

/// Before the first turn no triple of the edge has had its turn, and after
/// the last all of them have.
pub proof fn lemma_edge_turns_bounds(g: &Graph, v1: int, v2: int)
    requires
        g.is_pair(v1, v2),
    ensures
        g.edge_turns(v1, v2, 0) == Set::<(int, int, int)>::empty(),
        g.edge_turns(v1, v2, g.active.len() as int) == g.triples_where(with_edge(v1, v2)),
{
    assert forall|t: (int, int, int)| g.is_entry(t) && holds(t, v1) && holds(t, v2) implies 0
        <= g.place(t.0 + t.1 + t.2 - v1 - v2) < g.active.len() by {
        let d = t.0 + t.1 + t.2 - v1 - v2;
        assert(holds(t, d));
        lemma_place(g, d);
    }
    assert(g.edge_turns(v1, v2, 0) =~= Set::<(int, int, int)>::empty());
    assert(g.edge_turns(v1, v2, g.active.len() as int) =~= g.triples_where(with_edge(v1, v2)));
}

/// What is known of a triple that holds `x`: the other two are active
/// vertices at two different positions.
pub proof fn lemma_rest_of(g: &Graph, t: (int, int, int), x: int)
    requires
        g.is_entry(t),
        holds(t, x),
    ensures
        rest_of(t, x).0 < rest_of(t, x).1,
        g.is_triple(x, rest_of(t, x).0, rest_of(t, x).1),
        t == ascending(x, rest_of(t, x).0, rest_of(t, x).1),
        0 <= g.place(rest_of(t, x).0) < g.active.len(),
        0 <= g.place(rest_of(t, x).1) < g.active.len(),
        g.place(rest_of(t, x).0) != g.place(rest_of(t, x).1),
        g.at(g.place(rest_of(t, x).0)) == rest_of(t, x).0,
        g.at(g.place(rest_of(t, x).1)) == rest_of(t, x).1,
        forall|v: int| holds(t, v) <==> (v == x || v == rest_of(t, x).0 || v == rest_of(t, x).1),
{
    let r = rest_of(t, x);
    lemma_place(g, r.0);
    lemma_place(g, r.1);
    lemma_ascending(x, r.0, r.1);
}

/// The turn of the triple of `x` and the vertices at the positions `i2 < i3`.
pub proof fn lemma_vertex_turn(g: &Graph, x: int, skip: int, i2: int, i3: int)
    requires
        g.active@.no_duplicates(),
        g.is_active(x),
        0 <= i2 < i3 < g.active.len(),
    ensures
        g.at(i2) != x && g.at(i2) != skip && g.at(i3) != x && g.at(i3) != skip ==> {
            let t = ascending(x, g.at(i2), g.at(i3));
            &&& g.is_triple(x, g.at(i2), g.at(i3))
            &&& !g.vertex_turns(x, skip, i2, i3).contains(t)
            &&& g.vertex_turns(x, skip, i2, i3).insert(t) == g.vertex_turns(x, skip, i2, i3 + 1)
            &&& g.triples_where(with_vertex(x, skip)).contains(t)
            &&& holds(t, x) && holds(t, g.at(i2)) && holds(t, g.at(i3))
            &&& forall|v: int| holds(t, v) ==> v == x || v == g.at(i2) || v == g.at(i3)
        },
        g.at(i2) == x || g.at(i2) == skip || g.at(i3) == x || g.at(i3) == skip ==> g.vertex_turns(
            x,
            skip,
            i2,
            i3 + 1,
        ) == g.vertex_turns(x, skip, i2, i3),
{
    let b = g.at(i2);
    let c = g.at(i3);
    lemma_position(g.active@, i2);
    lemma_position(g.active@, i3);
    assert(g.is_active(b) && g.is_active(c));
    assert(b != c);
    if b != x && b != skip && c != x && c != skip {
        let s = ascending(x, b, c);
        lemma_ascending(x, b, c);
        assert(g.is_entry(s));
        lemma_rest_of(g, s, x);
        assert forall|t: (int, int, int)|
            g.vertex_turns(x, skip, i2, i3).insert(s).contains(t) <==> g.vertex_turns(
                x,
                skip,
                i2,
                i3 + 1,
            ).contains(t) by {
            if g.is_entry(t) && holds(t, x) {
                lemma_rest_of(g, t, x);
                let r = rest_of(t, x);
                if (g.place(r.0) == i2 && g.place(r.1) == i3) || (g.place(r.0) == i3 && g.place(r.1)
                    == i2) {
                    lemma_ascending(x, r.0, r.1);
                    lemma_ascending(x, r.1, r.0);
                    assert(t == s);
                }
            }
        }
        assert(g.vertex_turns(x, skip, i2, i3).insert(s) =~= g.vertex_turns(x, skip, i2, i3 + 1));
    } else {
        assert forall|t: (int, int, int)|
            g.vertex_turns(x, skip, i2, i3).contains(t) <==> g.vertex_turns(
                x,
                skip,
                i2,
                i3 + 1,
            ).contains(t) by {
            if g.is_entry(t) && holds(t, x) {
                lemma_rest_of(g, t, x);
            }
        }
        assert(g.vertex_turns(x, skip, i2, i3) =~= g.vertex_turns(x, skip, i2, i3 + 1));
    }
}

/// Where one loop over the positions ends, the next begins.
pub proof fn lemma_vertex_turns_bounds(g: &Graph, x: int, skip: int, i2: int)
    requires
        g.active@.no_duplicates(),
        0 <= i2,
    ensures
        g.vertex_turns(x, skip, 0, 0) == Set::<(int, int, int)>::empty(),
        g.vertex_turns(x, skip, i2, i2 + 1) == g.vertex_turns(x, skip, i2, 0),
        g.vertex_turns(x, skip, i2, g.active.len() as int) == g.vertex_turns(x, skip, i2 + 1, 0),
        g.vertex_turns(x, skip, g.active.len() as int, 0) == g.triples_where(with_vertex(x, skip)),
        i2 < g.active.len() && (g.at(i2) == x || g.at(i2) == skip) ==> g.vertex_turns(
            x,
            skip,
            i2 + 1,
            0,
        ) == g.vertex_turns(x, skip, i2, 0),
{
    let n = g.active.len() as int;
    assert forall|t: (int, int, int)| g.is_entry(t) && holds(t, x) implies {
        let r = rest_of(t, x);
        &&& 0 <= g.place(r.0) < n
        &&& 0 <= g.place(r.1) < n
        &&& g.place(r.0) != g.place(r.1)
        &&& g.at(g.place(r.0)) == r.0
        &&& g.at(g.place(r.1)) == r.1
        &&& holds(t, r.0)
        &&& holds(t, r.1)
        &&& r.0 != x
        &&& r.1 != x
    } by {
        lemma_rest_of(g, t, x);
    }
    assert(g.vertex_turns(x, skip, 0, 0) =~= Set::<(int, int, int)>::empty());
    assert(g.vertex_turns(x, skip, i2, i2 + 1) =~= g.vertex_turns(x, skip, i2, 0));
    assert(g.vertex_turns(x, skip, i2, n) =~= g.vertex_turns(x, skip, i2 + 1, 0));
    assert(g.vertex_turns(x, skip, n, 0) =~= g.triples_where(with_vertex(x, skip)));
    if i2 < n && (g.at(i2) == x || g.at(i2) == skip) {
        assert(g.vertex_turns(x, skip, i2 + 1, 0) =~= g.vertex_turns(x, skip, i2, 0));
    }
}

/// The packing after the turns of the triples of `v1`, `v2` and the
/// vertices before position `k`.
pub open spec fn edge_claims(g: &Graph, ts: Seq<Triple>, v1: int, v2: int, k: int) -> Seq<Triple>
    decreases k,
{
    if k <= 0 {
        ts
    } else {
        let before = edge_claims(g, ts, v1, v2, k - 1);
        if g.at(k - 1) != v1 && g.at(k - 1) != v2 {
            claim(g, before, v1, v2, g.at(k - 1))
        } else {
            before
        }
    }
}

/// The packing after the turns of the triples of `x`, the vertex at
/// position `i2` and the vertices at the positions between `i2` and `k`.
pub open spec fn vertex_claims_inner(
    g: &Graph,
    ts: Seq<Triple>,
    x: int,
    i2: int,
    k: int,
) -> Seq<Triple>
    decreases k - i2,
{
    if k <= i2 + 1 {
        ts
    } else {
        let before = vertex_claims_inner(g, ts, x, i2, k - 1);
        if g.at(k - 1) != x {
            claim(g, before, x, g.at(i2), g.at(k - 1))
        } else {
            before
        }
    }
}

/// The packing after the turns of the triples of `x` and two vertices of
/// which the first stands before position `k`.
pub open spec fn vertex_claims(g: &Graph, ts: Seq<Triple>, x: int, k: int) -> Seq<Triple>
    decreases k,
{
    if k <= 0 {
        ts
    } else {
        let before = vertex_claims(g, ts, x, k - 1);
        if g.at(k - 1) != x {
            vertex_claims_inner(g, before, x, k - 1, g.active.len() as int)
        } else {
            before
        }
    }
}

/// The packing after the turns of the triples of `v1`, and then of `v2`,
/// with the vertex at position `i3` and each vertex at the positions
/// between `i3` and `k`.
pub open spec fn pair_claims_inner(
    g: &Graph,
    ts: Seq<Triple>,
    v1: int,
    v2: int,
    i3: int,
    k: int,
) -> Seq<Triple>
    decreases k - i3,
{
    if k <= i3 + 1 {
        ts
    } else {
        let before = pair_claims_inner(g, ts, v1, v2, i3, k - 1);
        if g.at(k - 1) != v1 && g.at(k - 1) != v2 {
            claim(g, claim(g, before, v1, g.at(i3), g.at(k - 1)), v2, g.at(i3), g.at(k - 1))
        } else {
            before
        }
    }
}

/// The packing after the turns of the triples of `v1` or `v2` and two
/// other vertices of which the first stands before position `k`.
pub open spec fn pair_claims(g: &Graph, ts: Seq<Triple>, v1: int, v2: int, k: int) -> Seq<Triple>
    decreases k,
{
    if k <= 0 {
        ts
    } else {
        let before = pair_claims(g, ts, v1, v2, k - 1);
        if g.at(k - 1) != v1 && g.at(k - 1) != v2 {
            pair_claims_inner(g, before, v1, v2, k - 1, g.active.len() as int)
        } else {
            before
        }
    }
}

/// The list without entry `i`, whose place the last entry takes.
pub open spec fn swap_removed(ts: Seq<Triple>, i: int) -> Seq<Triple> {
    ts.update(i, ts.last()).drop_last()
}

/// The list after each of its first `i` entries, from the last of them
/// down, is taken out where it satisfies `gone`, the last entry of the
/// list taking its place.
pub open spec fn purged(ts: Seq<Triple>, gone: spec_fn(Triple) -> bool, i: int) -> Seq<Triple>
    decreases i,
{
    if i <= 0 || i > ts.len() {
        ts
    } else if gone(ts[i - 1]) {
        purged(swap_removed(ts, i - 1), gone, i - 1)
    } else {
        purged(ts, gone, i - 1)
    }
}

} // verus!
