//! The order in which the triples of active vertices take their turn: by
//! the positions of their vertices in the list of active vertices.

use vstd::prelude::*;
use crate::graph::Graph;
use crate::triple::{Triple};
use crate::packing::{ascending, claim, all_triples, lemma_ascending};

verus! {

/// A position at which `v` stands in `s`.
pub open spec fn position(s: Seq<usize>, v: int) -> int {
    choose|k: int| 0 <= k < s.len() && s[k] == v
}

/// In a list without repetition every entry stands at one position only.

pub proof fn lemma_position(s: Seq<usize>, k: int)
    requires
        s.no_duplicates(),
        0 <= k < s.len(),
    ensures
        position(s, s[k] as int) == k,
{
    let v = s[k] as int;
    assert(0 <= k < s.len() && s[k] == v);
    let c = choose|c: int| 0 <= c < s.len() && s[c] == v;
    assert(s[c] == s[k]);
}

impl Graph {
    /// The position of the active vertex `v` in the list of active vertices.
    pub open spec fn place(&self, v: int) -> int {
        position(self.active@, v)
    }

    /// The positions of three vertices, in ascending order.
    pub open spec fn placed(&self, t: (int, int, int)) -> (int, int, int) {
        ascending(self.place(t.0), self.place(t.1), self.place(t.2))
    }

    /// The vertex at position `k`.
    pub open spec fn at(&self, k: int) -> int {
        self.active@[k] as int
    }
}

/// Whether the positions `p` come before `(i1, i2, i3)` in the order of the turns.
pub open spec fn before(p: (int, int, int), i1: int, i2: int, i3: int) -> bool {
    p.0 < i1 || (p.0 == i1 && (p.1 < i2 || (p.1 == i2 && p.2 < i3)))
}

/// The triples of active vertices whose turn comes before that of the positions `(i1, i2, i3)`.
pub open spec fn counted_upto(g: &Graph, i1: int, i2: int, i3: int) -> Set<(int, int, int)> {
    Set::new(
        |t: (int, int, int)|
            t.0 < t.1 < t.2 && g.is_triple(t.0, t.1, t.2) && before(g.placed(t), i1, i2, i3),
    )
}

/// The positions of three different active vertices are three different positions.
pub proof fn lemma_placed(g: &Graph, t: (int, int, int))
    requires
        g.is_triple(t.0, t.1, t.2),
    ensures
        0 <= g.placed(t).0 < g.placed(t).1 < g.placed(t).2 < g.active.len(),
        g.at(g.place(t.0)) == t.0,
        g.at(g.place(t.1)) == t.1,
        g.at(g.place(t.2)) == t.2,
        0 <= g.place(t.0) < g.active.len(),
        0 <= g.place(t.1) < g.active.len(),
        0 <= g.place(t.2) < g.active.len(),
{
    lemma_ascending(g.place(t.0), g.place(t.1), g.place(t.2));
}

/// The triple at the positions `i1 < i2 < i3` has not had its turn before
/// these positions, and has had it before the next.
pub proof fn lemma_counted_step(g: &Graph, i1: int, i2: int, i3: int)
    requires
        g.active@.no_duplicates(),
        0 <= i1 < i2 < i3 < g.active.len(),
    ensures
        g.is_triple(g.at(i1), g.at(i2), g.at(i3)),
        !counted_upto(g, i1, i2, i3).contains(ascending(g.at(i1), g.at(i2), g.at(i3))),
        counted_upto(g, i1, i2, i3).insert(ascending(g.at(i1), g.at(i2), g.at(i3)))
            == counted_upto(g, i1, i2, i3 + 1),
{
    let a1 = g.at(i1);
    let a2 = g.at(i2);
    let a3 = g.at(i3);
    let x = ascending(a1, a2, a3);
    lemma_position(g.active@, i1);
    lemma_position(g.active@, i2);
    lemma_position(g.active@, i3);
    lemma_ascending(a1, a2, a3);
    lemma_ascending(i1, i2, i3);
    assert(g.is_triple(a1, a2, a3));
    assert(g.placed(x) == (i1, i2, i3));
    assert forall|t: (int, int, int)|
        counted_upto(g, i1, i2, i3).insert(x).contains(t) <==> counted_upto(
            g,
            i1,
            i2,
            i3 + 1,
        ).contains(t) by {
        if t.0 < t.1 < t.2 && g.is_triple(t.0, t.1, t.2) {
            lemma_placed(g, t);
            if g.placed(t) == (i1, i2, i3) {
                assert(t == x);
            }
        }
    }
    assert(counted_upto(g, i1, i2, i3).insert(x) =~= counted_upto(g, i1, i2, i3 + 1));
}

/// Where one loop over the positions ends, the next begins.
pub proof fn lemma_counted_bounds(g: &Graph, i1: int, i2: int)
    requires
        0 <= i1 < i2,
    ensures
        counted_upto(g, 0, 0, 0) == Set::<(int, int, int)>::empty(),
        counted_upto(g, i1, i1 + 1, 0) == counted_upto(g, i1, 0, 0),
        counted_upto(g, i1, i2, i2 + 1) == counted_upto(g, i1, i2, 0),
        counted_upto(g, i1, i2, g.active.len() as int) == counted_upto(g, i1, i2 + 1, 0),
        counted_upto(g, i1, g.active.len() as int, 0) == counted_upto(g, i1 + 1, 0, 0),
        counted_upto(g, g.active.len() as int, 0, 0) == all_triples(g),
{
    let n = g.active.len() as int;
    assert forall|t: (int, int, int)| t.0 < t.1 < t.2 && g.is_triple(t.0, t.1, t.2) implies 0
        <= g.placed(t).0 < g.placed(t).1 < g.placed(t).2 < n by {
        lemma_placed(g, t);
    }
    assert(counted_upto(g, 0, 0, 0) =~= Set::<(int, int, int)>::empty());
    assert(counted_upto(g, i1, i1 + 1, 0) =~= counted_upto(g, i1, 0, 0));
    assert(counted_upto(g, i1, i2, i2 + 1) =~= counted_upto(g, i1, i2, 0));
    assert(counted_upto(g, i1, i2, n) =~= counted_upto(g, i1, i2 + 1, 0));
    assert(counted_upto(g, i1, n, 0) =~= counted_upto(g, i1 + 1, 0, 0));
    assert(counted_upto(g, n, 0, 0) =~= all_triples(g));
}

/// The packing after the turns of the triples at `(i1, i2, i3)` for `i2 < i3 < k`.
pub open spec fn pack_inner(g: &Graph, ts: Seq<Triple>, i1: int, i2: int, k: int) -> Seq<Triple>
    decreases k - i2,
{
    if k <= i2 + 1 {
        ts
    } else {
        claim(g, pack_inner(g, ts, i1, i2, k - 1), g.at(i1), g.at(i2), g.at(k - 1))
    }
}

/// The packing after the turns of the triples at `(i1, i2, i3)` for `i1 < i2 < k` and all `i3`.
pub open spec fn pack_middle(g: &Graph, ts: Seq<Triple>, i1: int, k: int) -> Seq<Triple>
    decreases k - i1,
{
    if k <= i1 + 1 {
        ts
    } else {
        pack_inner(g, pack_middle(g, ts, i1, k - 1), i1, k - 1, g.active.len() as int)
    }
}

/// The packing after the turns of the triples at `(i1, i2, i3)` for `i1 < k` and all `i2`, `i3`.
pub open spec fn pack_outer(g: &Graph, ts: Seq<Triple>, k: int) -> Seq<Triple>
    decreases k,
{
    if k <= 0 {
        ts
    } else {
        pack_middle(g, pack_outer(g, ts, k - 1), k - 1, g.active.len() as int)
    }
}

/// The greedy packing: every triple of active vertices takes its turn, in
/// the order of the positions of its vertices.
pub open spec fn pack_triples(g: &Graph) -> Seq<Triple> {
    pack_outer(g, Seq::empty(), g.active.len() as int)
}

} // verus!
