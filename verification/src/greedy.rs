//! What the greedy packing leaves behind: no conflict whose three pairs
//! all have budget left.

use vstd::prelude::*;
use crate::graph::Graph;
use crate::merge::lemma_active_below_len;
use crate::triple::{Triple, triple_of};
use crate::packing::{
    claimed, claim, room, min3, sound, lemma_claim_sound, lemma_claimed_push, lemma_ascending,
};
use crate::order::{pack_inner, pack_middle, pack_outer, pack_triples};

verus! {

/// One of the three pairs of `a`, `b` and `c` has no budget left.
pub open spec fn exhausted(g: &Graph, ts: Seq<Triple>, a: int, b: int, c: int) -> bool {
    room(g, ts, a, b) <= 0 || room(g, ts, a, c) <= 0 || room(g, ts, b, c) <= 0
}

/// The vertices at the three positions are in no conflict, or one of
/// their pairs has no budget left.
pub open spec fn settled_at(g: &Graph, ts: Seq<Triple>, i1: int, i2: int, i3: int) -> bool {
    g.is_conflict(g.at(i1), g.at(i2), g.at(i3)) ==> exhausted(g, ts, g.at(i1), g.at(i2), g.at(i3))
}

/// The claims of `us` against every pair are at least those of `ts`.
pub open spec fn grows(ts: Seq<Triple>, us: Seq<Triple>) -> bool {
    forall|a: int, b: int| claimed(ts, a, b) <= #[trigger] claimed(us, a, b)
}

/// The vertices at three different positions are three different active vertices.
pub proof fn lemma_triple_at(g: &Graph, i1: int, i2: int, i3: int)
    requires
        g.wf(),
        0 <= i1 < i2 < i3 < g.active.len(),
    ensures
        g.is_triple(g.at(i1), g.at(i2), g.at(i3)),
{
    assert(g.active@[i1] == g.at(i1));
    assert(g.active@[i2] == g.at(i2));
    assert(g.active@[i3] == g.at(i3));
}

/// After the turn of a triple its conflict, if it is one, has a pair
/// without budget, and no claim has fallen.
pub proof fn lemma_claim_exhausts(g: &Graph, ts: Seq<Triple>, v1: int, v2: int, v3: int)
    requires
        g.wf(),
        sound(g, ts),
        g.is_triple(v1, v2, v3),
    ensures
        sound(g, claim(g, ts, v1, v2, v3)),
        grows(ts, claim(g, ts, v1, v2, v3)),
        g.is_conflict(v1, v2, v3) ==> exhausted(g, claim(g, ts, v1, v2, v3), v1, v2, v3),
{
    lemma_claim_sound(g, ts, v1, v2, v3);
    let next = claim(g, ts, v1, v2, v3);
    if next != ts {
        let cost = min3(room(g, ts, v1, v2), room(g, ts, v1, v3), room(g, ts, v2, v3));
        let t = triple_of(v1, v2, v3, cost);
        lemma_ascending(v1, v2, v3);
        lemma_active_below_len(g, v1);
        lemma_active_below_len(g, v2);
        lemma_active_below_len(g, v3);
        assert forall|a: int, b: int| claimed(ts, a, b) <= #[trigger] claimed(next, a, b) by {
            lemma_claimed_push(ts, t, a, b);
        }
        lemma_claimed_push(ts, t, v1, v2);
        lemma_claimed_push(ts, t, v1, v3);
        lemma_claimed_push(ts, t, v2, v3);
        assert(t.has_edge(v1, v2) && t.has_edge(v1, v3) && t.has_edge(v2, v3));
    }
}

/// Claims that do not fall leave a pair without budget as it is.
pub proof fn lemma_grows_settled(g: &Graph, ts: Seq<Triple>, us: Seq<Triple>, i1: int, i2: int, i3: int)
    requires
        grows(ts, us),
        settled_at(g, ts, i1, i2, i3),
    ensures
        settled_at(g, us, i1, i2, i3),
{
    let a = g.at(i1);
    let b = g.at(i2);
    let c = g.at(i3);
    assert(claimed(ts, a, b) <= claimed(us, a, b));
    assert(claimed(ts, a, c) <= claimed(us, a, c));
    assert(claimed(ts, b, c) <= claimed(us, b, c));
}

/// What the turns of the triples at `(i1, i2, i3)` for `i2 < i3 < k` leave.
pub proof fn lemma_inner_settled(g: &Graph, ts: Seq<Triple>, i1: int, i2: int, k: int)
    requires
        g.wf(),
        sound(g, ts),
        0 <= i1 < i2 < k <= g.active.len(),
    ensures
        sound(g, pack_inner(g, ts, i1, i2, k)),
        grows(ts, pack_inner(g, ts, i1, i2, k)),
        forall|i3: int|
            i2 < i3 < k ==> #[trigger] settled_at(g, pack_inner(g, ts, i1, i2, k), i1, i2, i3),
    decreases k - i2,
{
    if k > i2 + 1 {
        let mid = pack_inner(g, ts, i1, i2, k - 1);
        let res = pack_inner(g, ts, i1, i2, k);
        lemma_inner_settled(g, ts, i1, i2, k - 1);
        lemma_triple_at(g, i1, i2, k - 1);
        lemma_claim_exhausts(g, mid, g.at(i1), g.at(i2), g.at(k - 1));
        assert forall|a: int, b: int| claimed(ts, a, b) <= #[trigger] claimed(res, a, b) by {
            assert(claimed(ts, a, b) <= claimed(mid, a, b));
        }
        assert forall|i3: int| i2 < i3 < k implies #[trigger] settled_at(g, res, i1, i2, i3) by {
            if i3 < k - 1 {
                assert(settled_at(g, mid, i1, i2, i3));
                lemma_grows_settled(g, mid, res, i1, i2, i3);
            }
        }
    }
}

/// What the turns of the triples at `(i1, i2, i3)` for `i1 < i2 < k` leave.
pub proof fn lemma_middle_settled(g: &Graph, ts: Seq<Triple>, i1: int, k: int)
    requires
        g.wf(),
        sound(g, ts),
        0 <= i1 < k <= g.active.len(),
    ensures
        sound(g, pack_middle(g, ts, i1, k)),
        grows(ts, pack_middle(g, ts, i1, k)),
        forall|i2: int, i3: int|
            i1 < i2 < k && i2 < i3 < g.active.len() ==> #[trigger] settled_at(
                g,
                pack_middle(g, ts, i1, k),
                i1,
                i2,
                i3,
            ),
    decreases k - i1,
{
    if k > i1 + 1 {
        let n = g.active.len() as int;
        let mid = pack_middle(g, ts, i1, k - 1);
        let res = pack_middle(g, ts, i1, k);
        lemma_middle_settled(g, ts, i1, k - 1);
        lemma_inner_settled(g, mid, i1, k - 1, n);
        assert forall|a: int, b: int| claimed(ts, a, b) <= #[trigger] claimed(res, a, b) by {
            assert(claimed(ts, a, b) <= claimed(mid, a, b));
        }
        assert forall|i2: int, i3: int| i1 < i2 < k && i2 < i3 < n implies #[trigger] settled_at(
            g,
            res,
            i1,
            i2,
            i3,
        ) by {
            if i2 < k - 1 {
                assert(settled_at(g, mid, i1, i2, i3));
                lemma_grows_settled(g, mid, res, i1, i2, i3);
            }
        }
    }
}

/// What the turns of the triples at `(i1, i2, i3)` for `i1 < k` leave.
pub proof fn lemma_outer_settled(g: &Graph, ts: Seq<Triple>, k: int)
    requires
        g.wf(),
        sound(g, ts),
        0 <= k <= g.active.len(),
    ensures
        sound(g, pack_outer(g, ts, k)),
        grows(ts, pack_outer(g, ts, k)),
        forall|i1: int, i2: int, i3: int|
            0 <= i1 < k && i1 < i2 < i3 < g.active.len() ==> #[trigger] settled_at(
                g,
                pack_outer(g, ts, k),
                i1,
                i2,
                i3,
            ),
    decreases k,
{
    if k > 0 {
        let n = g.active.len() as int;
        let mid = pack_outer(g, ts, k - 1);
        let res = pack_outer(g, ts, k);
        lemma_outer_settled(g, ts, k - 1);
        lemma_middle_settled(g, mid, k - 1, n);
        assert forall|a: int, b: int| claimed(ts, a, b) <= #[trigger] claimed(res, a, b) by {
            assert(claimed(ts, a, b) <= claimed(mid, a, b));
        }
        assert forall|i1: int, i2: int, i3: int|
            0 <= i1 < k && i1 < i2 < i3 < n implies #[trigger] settled_at(g, res, i1, i2, i3) by {
            if i1 < k - 1 {
                assert(settled_at(g, mid, i1, i2, i3));
                lemma_grows_settled(g, mid, res, i1, i2, i3);
            }
        }
    }
}

/// The greedy packing leaves no conflict whose three pairs all have
/// budget left: it cannot be extended.
pub proof fn lemma_pack_exhausts(g: &Graph, i1: int, i2: int, i3: int)
    requires
        g.wf(),
        0 <= i1 < i2 < i3 < g.active.len(),
        g.is_conflict(g.at(i1), g.at(i2), g.at(i3)),
    ensures
        exhausted(g, pack_triples(g), g.at(i1), g.at(i2), g.at(i3)),
{
    let none = Seq::<Triple>::empty();
    assert forall|a: int, b: int| #[trigger] g.is_pair(a, b) implies claimed(none, a, b)
        <= crate::graph::abs(g.weight(a, b)) by {}
    assert(sound(g, none));
    lemma_outer_settled(g, none, g.active.len() as int);
    assert(settled_at(g, pack_triples(g), i1, i2, i3));
}

} // verus!
