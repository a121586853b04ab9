//! What keeps a packing in order while the graph changes under it, and
//! what the packings of one graph have in common however they were made.

use vstd::prelude::*;
use crate::graph::Graph;
use crate::merge::{lemma_active_below_len, lemma_merge_wf};
use crate::triple::Triple;
use crate::packing::{
    Packing, claimed, all_triples, ascending, counted_term, counted_conflicts, conflict_count,
    lemma_counted_all, lemma_ascending, lemma_packing_admissible,
};
use crate::turns::{holds, with_vertex, with_either, with_edge, purged, swap_removed};
use crate::packing::total;
use crate::incremental::{claim_of, lemma_swap_removed};
use crate::sums::{lemma_sum_eq, lemma_sum_zero};

verus! {

/// Triples that do not hold a pair claim nothing against it.
pub proof fn lemma_claimed_none(ts: Seq<Triple>, a: int, b: int)
    requires
        forall|k: int| 0 <= k < ts.len() ==> !(#[trigger] ts[k]).has_edge(a, b),
    ensures
        claimed(ts, a, b) == 0,
    decreases ts.len(),
{
    if ts.len() > 0 {
        let rest = ts.drop_last();
        assert forall|k: int| 0 <= k < rest.len() implies !(#[trigger] rest[k]).has_edge(a, b) by {
            assert(rest[k] == ts[k]);
        }
        lemma_claimed_none(rest, a, b);
        assert(!ts[ts.len() - 1].has_edge(a, b));
    }
}

/// The costs of those of the first `i` triples that satisfy `gone`.
pub open spec fn taken_total(ts: Seq<Triple>, gone: spec_fn(Triple) -> bool, i: int) -> int
    decreases i,
{
    if i <= 0 || i > ts.len() {
        0
    } else {
        taken_total(ts, gone, i - 1) + if gone(ts[i - 1]) {
            ts[i - 1].cost as int
        } else {
            0
        }
    }
}

/// What those of the first `i` triples that satisfy `gone` claim against the pair `{a, b}`.
pub open spec fn taken_claims(
    ts: Seq<Triple>,
    gone: spec_fn(Triple) -> bool,
    i: int,
    a: int,
    b: int,
) -> int
    decreases i,
{
    if i <= 0 || i > ts.len() {
        0
    } else {
        taken_claims(ts, gone, i - 1, a, b) + if gone(ts[i - 1]) {
            claim_of(ts[i - 1], a, b)
        } else {
            0
        }
    }
}

/// What is taken depends on the first `i` triples only.
pub proof fn lemma_taken_prefix(
    ts: Seq<Triple>,
    us: Seq<Triple>,
    gone: spec_fn(Triple) -> bool,
    i: int,
    a: int,
    b: int,
)
    requires
        0 <= i <= ts.len(),
        i <= us.len(),
        forall|k: int| 0 <= k < i ==> ts[k] == us[k],
    ensures
        taken_total(ts, gone, i) == taken_total(us, gone, i),
        taken_claims(ts, gone, i, a, b) == taken_claims(us, gone, i, a, b),
    decreases i,
{
    if i > 0 {
        lemma_taken_prefix(ts, us, gone, i - 1, a, b);
    }
}

/// What the purge comes to: every triple that was not to go is kept, and
/// the costs and the claims against every pair fall by those of the
/// triples that went.
pub proof fn lemma_purged_sums(
    ts: Seq<Triple>,
    gone: spec_fn(Triple) -> bool,
    i: int,
    a: int,
    b: int,
)
    requires
        0 <= i <= ts.len(),
        forall|k: int| i <= k < ts.len() ==> !gone(#[trigger] ts[k]),
    ensures
        forall|k: int|
            0 <= k < ts.len() && !gone(#[trigger] ts[k]) ==> purged(ts, gone, i).contains(ts[k]),
        total(purged(ts, gone, i)) == total(ts) - taken_total(ts, gone, i),
        claimed(purged(ts, gone, i), a, b) == claimed(ts, a, b) - taken_claims(ts, gone, i, a, b),
    decreases i,
{
    let res = purged(ts, gone, i);
    if i > 0 {
        if gone(ts[i - 1]) {
            let us = swap_removed(ts, i - 1);
            assert forall|k: int| i - 1 <= k < us.len() implies !gone(#[trigger] us[k]) by {
                if k == i - 1 {
                    assert(us[k] == ts[ts.len() - 1]);
                } else {
                    assert(us[k] == ts[k]);
                }
            }
            lemma_purged_sums(us, gone, i - 1, a, b);
            lemma_swap_removed(ts, i - 1, a, b);
            lemma_taken_prefix(ts, us, gone, i - 1, a, b);
            assert(res == purged(us, gone, i - 1));
            assert forall|k: int| 0 <= k < ts.len() && !gone(#[trigger] ts[k]) implies res.contains(
                ts[k],
            ) by {
                if k == ts.len() - 1 {
                    assert(us[i - 1] == ts[k]);
                    assert(!gone(us[i - 1]));
                } else {
                    assert(us[k] == ts[k]);
                    assert(!gone(us[k]));
                }
            }
        } else {
            lemma_purged_sums(ts, gone, i - 1, a, b);
            assert(res == purged(ts, gone, i - 1));
        }
    } else {
        assert(res == ts);
        assert forall|k: int| 0 <= k < ts.len() && !gone(#[trigger] ts[k]) implies res.contains(
            ts[k],
        ) by {
            assert(res[k] == ts[k]);
        }
    }
}

/// What is left after the purge: entries of the list, none of which was to go.
pub proof fn lemma_purged(ts: Seq<Triple>, gone: spec_fn(Triple) -> bool, i: int)
    requires
        0 <= i <= ts.len(),
        forall|k: int| i <= k < ts.len() ==> !gone(#[trigger] ts[k]),
    ensures
        forall|k: int|
            0 <= k < purged(ts, gone, i).len() ==> !gone(#[trigger] purged(ts, gone, i)[k]),
        forall|k: int|
            0 <= k < purged(ts, gone, i).len() ==> ts.contains(#[trigger] purged(ts, gone, i)[k]),
    decreases i,
{
    let res = purged(ts, gone, i);
    if i > 0 {
        if gone(ts[i - 1]) {
            let us = swap_removed(ts, i - 1);
            assert forall|k: int| i - 1 <= k < us.len() implies !gone(#[trigger] us[k]) by {
                if k == i - 1 {
                    assert(us[k] == ts[ts.len() - 1]);
                } else {
                    assert(us[k] == ts[k]);
                }
            }
            lemma_purged(us, gone, i - 1);
            assert(res == purged(us, gone, i - 1));
            assert forall|k: int| 0 <= k < res.len() implies ts.contains(#[trigger] res[k]) by {
                let t = res[k];
                assert(us.contains(t));
                let j = choose|j: int| 0 <= j < us.len() && us[j] == t;
                if j == i - 1 {
                    assert(ts[ts.len() - 1] == t);
                } else {
                    assert(ts[j] == t);
                }
            }
        } else {
            lemma_purged(ts, gone, i - 1);
            assert(res == purged(ts, gone, i - 1));
        }
    } else {
        assert(res == ts);
        assert forall|k: int| 0 <= k < res.len() implies ts.contains(#[trigger] res[k]) by {
            assert(ts[k] == res[k]);
        }
    }
}

/// A packing that is in order for a graph is in order for every graph
/// that keeps active what the packing speaks of, and that keeps the
/// edges that a triple of the packing holds.
pub proof fn lemma_packing_transfer(p: &Packing, g: &Graph, h: &Graph)
    requires
        g.wf(),
        h.wf(),
        h.cap() == g.cap(),
        p.wf(g),
        forall|t: (int, int, int)| p.counted@.contains(t) ==> #[trigger] h.is_triple(t.0, t.1, t.2),
        forall|k: int|
            0 <= k < p.triples.len() ==> h.is_triple(
                (#[trigger] p.triples@[k]).v0(),
                p.triples@[k].v1(),
                p.triples@[k].v2(),
            ),
        forall|a: int, b: int|
            g.is_pair(a, b) && h.is_pair(a, b) ==> #[trigger] h.edge(a, b) == g.edge(a, b) || ((
            forall|c: int| !p.counted@.contains(#[trigger] ascending(a, b, c))) && (forall|k: int|
                0 <= k < p.triples.len() ==> !(#[trigger] p.triples@[k]).has_edge(a, b))),
    ensures
        p.wf(h),
{
    let ts = p.triples@;
    let r = p.counted@;
    assert forall|a: int, b: int| #[trigger] h.is_pair(a, b) implies h.edge(a, b).ok() by {}
    // a pair that the packing speaks of has the same edge in both graphs
    assert forall|t: Triple, a: int, b: int|
        ts.contains(t) && #[trigger] t.has_edge(a, b) implies g.is_pair(a, b) && h.is_pair(a, b)
        && #[trigger] h.edge(a, b) == g.edge(a, b) by {
        let k = choose|k: int| 0 <= k < ts.len() && ts[k] == t;
        assert(g.is_triple(ts[k].v0(), ts[k].v1(), ts[k].v2()));
        assert(h.is_triple(ts[k].v0(), ts[k].v1(), ts[k].v2()));
        assert(g.is_pair(a, b) && h.is_pair(a, b));
        assert(ts[k].has_edge(a, b));
    }
    assert forall|i: int| 0 <= i < ts.len() implies {
        let t = #[trigger] ts[i];
        &&& t.sorted()
        &&& h.is_triple(t.v0(), t.v1(), t.v2())
        &&& h.is_conflict(t.v0(), t.v1(), t.v2())
        &&& t.cost > 0
    } by {
        let t = ts[i];
        assert(ts.contains(t));
        assert(t.has_edge(t.v0(), t.v1()) && t.has_edge(t.v0(), t.v2()) && t.has_edge(
            t.v1(),
            t.v2(),
        ));
        assert(h.edge(t.v0(), t.v1()) == g.edge(t.v0(), t.v1()));
        assert(h.edge(t.v0(), t.v2()) == g.edge(t.v0(), t.v2()));
        assert(h.edge(t.v1(), t.v2()) == g.edge(t.v1(), t.v2()));
    }
    assert forall|a: int, b: int| #[trigger] h.is_pair(a, b) implies claimed(ts, a, b)
        <= crate::graph::abs(h.weight(a, b)) && p.edge_cost.at(a, b) == claimed(ts, a, b)
        && p.edge_conflicts.at(a, b) == counted_conflicts(h, r, a, b) by {
        lemma_active_below_len(h, a);
        lemma_active_below_len(h, b);
        if exists|k: int| 0 <= k < ts.len() && (#[trigger] ts[k]).has_edge(a, b) {
            let k = choose|k: int| 0 <= k < ts.len() && (#[trigger] ts[k]).has_edge(a, b);
            assert(ts.contains(ts[k]));
            assert(h.edge(a, b) == g.edge(a, b));
        } else {
            lemma_claimed_none(ts, a, b);
            if !g.is_pair(a, b) {
                assert(p.edge_cost.at(a, b) == 0);
            }
        }
        lemma_counts_transfer(p, g, h, a, b);
    }
    assert forall|a: int, b: int|
        0 <= a < h.cap() && 0 <= b < h.cap() && !h.is_pair(a, b) implies #[trigger] p.edge_cost.at(
        a,
        b,
    ) == 0 by {
        if g.is_pair(a, b) {
            assert forall|k: int| 0 <= k < ts.len() implies !(#[trigger] ts[k]).has_edge(a, b) by {
                if ts[k].has_edge(a, b) {
                    assert(ts.contains(ts[k]));
                }
            }
            lemma_claimed_none(ts, a, b);
        }
    }
    assert forall|a: int, b: int|
        0 <= a < h.cap() && 0 <= b < h.cap() && !h.is_pair(a, b)
        implies #[trigger] p.edge_conflicts.at(a, b) == 0 by {
        if g.is_pair(a, b) {
            let f = |c: int| counted_term(g, r, a, b, c);
            assert forall|c: int| 0 <= c < g.cap() implies #[trigger] f(c) == 0 by {
                if r.contains(ascending(a, b, c)) && a != b && a != c && b != c {
                    lemma_ascending(a, b, c);
                    let t = ascending(a, b, c);
                    assert(h.is_triple(t.0, t.1, t.2));
                }
            }
            lemma_sum_zero(f, g.cap());
        }
    }
    assert forall|t: (int, int, int)| r.contains(t) implies t.0 < t.1 < t.2 && h.is_triple(
        t.0,
        t.1,
        t.2,
    ) by {}
}

proof fn lemma_counts_transfer(p: &Packing, g: &Graph, h: &Graph, a: int, b: int)
    requires
        g.wf(),
        h.wf(),
        h.cap() == g.cap(),
        p.wf(g),
        h.is_pair(a, b),
        forall|t: (int, int, int)| p.counted@.contains(t) ==> #[trigger] h.is_triple(t.0, t.1, t.2),
        forall|a: int, b: int|
            g.is_pair(a, b) && h.is_pair(a, b) ==> #[trigger] h.edge(a, b) == g.edge(a, b) || ((
            forall|c: int| !p.counted@.contains(#[trigger] ascending(a, b, c))) && (forall|k: int|
                0 <= k < p.triples.len() ==> !(#[trigger] p.triples@[k]).has_edge(a, b))),
    ensures
        p.edge_conflicts.at(a, b) == counted_conflicts(h, p.counted@, a, b),
{
    let r = p.counted@;
    let f = |c: int| counted_term(h, r, a, b, c);
    lemma_active_below_len(h, a);
    lemma_active_below_len(h, b);
    if g.is_pair(a, b) {
        let e = |c: int| counted_term(g, r, a, b, c);
        assert forall|c: int| 0 <= c < g.cap() implies #[trigger] f(c) == e(c) by {
            if r.contains(ascending(a, b, c)) && c != a && c != b {
                lemma_ascending(a, b, c);
                let t = ascending(a, b, c);
                assert(h.is_triple(t.0, t.1, t.2));
                assert(g.is_triple(t.0, t.1, t.2));
                assert(h.is_active(c) && g.is_active(c));
                assert(g.is_pair(a, c) && h.is_pair(a, c) && g.is_pair(b, c) && h.is_pair(b, c));
                lemma_ascending(a, c, b);
                lemma_ascending(b, c, a);
                assert(r.contains(ascending(a, c, b)));
                assert(r.contains(ascending(b, c, a)));
                assert(r.contains(ascending(a, b, c)));
                assert(h.edge(a, b) == g.edge(a, b));
                assert(h.edge(a, c) == g.edge(a, c));
                assert(h.edge(b, c) == g.edge(b, c));
            }
        }
        lemma_sum_eq(f, e, g.cap());
    } else {
        assert forall|c: int| 0 <= c < g.cap() implies #[trigger] f(c) == 0 by {
            if r.contains(ascending(a, b, c)) && c != a && c != b {
                lemma_ascending(a, b, c);
                let t = ascending(a, b, c);
                assert(g.is_triple(t.0, t.1, t.2));
            }
        }
        lemma_sum_zero(f, g.cap());
        assert(p.edge_conflicts.at(a, b) == 0);
    }
}

/// The triples of the merged graph are those of the graph before that
/// hold neither of the merged vertices, and those that hold the new vertex.
pub proof fn lemma_triples_merge(g: &Graph, h: &Graph, v1: usize, v2: usize)
    requires
        g.wf(),
        g.is_pair(v1 as int, v2 as int),
        !g.edge(v1 as int, v2 as int).fixed,
        h.merged_from(g, v1, v2),
    ensures
        all_triples(h) == all_triples(g).difference(
            g.triples_where(with_either(v1 as int, v2 as int)),
        ).union(h.triples_where(with_vertex(g.len as int, g.len as int))),
        forall|t: (int, int, int)|
            all_triples(g).difference(
                g.triples_where(with_either(v1 as int, v2 as int)),
            ).contains(t) ==> #[trigger] h.is_triple(t.0, t.1, t.2) && !holds(t, g.len as int),
{
    lemma_merge_wf(g, h, v1, v2);
    lemma_active_below_len(g, v1 as int);
    lemma_active_below_len(g, v2 as int);
    let vv = g.len as int;
    assert(!g.is_active(vv)) by {
        if g.is_active(vv) {
            lemma_active_below_len(g, vv);
        }
    }
    let left = all_triples(h);
    let right = all_triples(g).difference(
        g.triples_where(with_either(v1 as int, v2 as int)),
    ).union(h.triples_where(with_vertex(vv, vv)));
    assert forall|t: (int, int, int)| left.contains(t) == right.contains(t) by {
        if t.0 < t.1 < t.2 {
            assert(h.is_active(t.0) == (t.0 == vv || g.is_third(v1 as int, v2 as int, t.0)));
            assert(h.is_active(t.1) == (t.1 == vv || g.is_third(v1 as int, v2 as int, t.1)));
            assert(h.is_active(t.2) == (t.2 == vv || g.is_third(v1 as int, v2 as int, t.2)));
        }
    }
    assert(left =~= right);
}

/// The packings of a graph that have counted every conflict record the
/// same number of conflicts for every pair, whether they were rebuilt
/// from nothing or kept up to date; and the bound of each of them is at
/// most the cost of every clustering of the graph.
pub proof fn lemma_same_counts(p: &Packing, q: &Packing, g: &Graph)
    requires
        g.wf(),
        p.wf(g),
        q.wf(g),
        p.counted@ == all_triples(g),
        q.counted@ == all_triples(g),
    ensures
        forall|a: int, b: int| #[trigger]
            g.is_pair(a, b) ==> p.edge_conflicts.at(a, b) == q.edge_conflicts.at(a, b)
                && p.edge_conflicts.at(a, b) == conflict_count(g, a, b),
        forall|c: spec_fn(int) -> int|
            g.admits(c) ==> p.lower <= #[trigger] g.cost(c) && q.lower <= g.cost(c),
{
    assert forall|a: int, b: int| #[trigger] g.is_pair(a, b) implies p.edge_conflicts.at(a, b)
        == q.edge_conflicts.at(a, b) && p.edge_conflicts.at(a, b) == conflict_count(g, a, b) by {
        lemma_counted_all(g, a, b);
    }
    assert forall|c: spec_fn(int) -> int| g.admits(c) implies p.lower <= #[trigger] g.cost(c)
        && q.lower <= g.cost(c) by {
        lemma_packing_admissible(g, p.triples@, c);
        lemma_packing_admissible(g, q.triples@, c);
    }
}


/// Keeping a packing up to date along a merge: once the triples of the
/// two vertices have left, the packing is in order for the merged graph,
/// and when the triples of the new vertex have had their turn every
/// conflict of the merged graph is counted, as after a rebuild.
pub proof fn lemma_kept_along_merge(
    p: &Packing,
    g: &Graph,
    h: &Graph,
    v1: usize,
    v2: usize,
    before: Seq<Triple>,
)
    requires
        g.wf(),
        g.is_pair(v1 as int, v2 as int),
        !g.edge(v1 as int, v2 as int).fixed,
        h.merged_from(g, v1, v2),
        p.wf(g),
        p.counted@ == all_triples(g).difference(g.triples_where(with_either(v1 as int, v2 as int))),
        p.triples@ == purged(
            before,
            |t: Triple| t.has_vertex(v1 as int) || t.has_vertex(v2 as int),
            before.len() as int,
        ),
    ensures
        h.wf(),
        p.wf(h),
        forall|t: (int, int, int)|
            h.triples_where(with_vertex(g.len as int, g.len as int)).contains(t)
                ==> !p.counted@.contains(t),
        p.counted@.union(h.triples_where(with_vertex(g.len as int, g.len as int))) == all_triples(
            h,
        ),
{
    let gone = |t: Triple| t.has_vertex(v1 as int) || t.has_vertex(v2 as int);
    lemma_merge_wf(g, h, v1, v2);
    lemma_purged(before, gone, before.len() as int);
    lemma_triples_merge(g, h, v1, v2);
    assert forall|t: (int, int, int)| p.counted@.contains(t) implies #[trigger] h.is_triple(
        t.0,
        t.1,
        t.2,
    ) by {}
    assert forall|k: int| 0 <= k < p.triples.len() implies h.is_triple(
        (#[trigger] p.triples@[k]).v0(),
        p.triples@[k].v1(),
        p.triples@[k].v2(),
    ) by {
        let t = p.triples@[k];
        assert(!gone(t));
        assert(g.is_triple(t.v0(), t.v1(), t.v2()));
        assert(g.is_third(v1 as int, v2 as int, t.v0()));
        assert(g.is_third(v1 as int, v2 as int, t.v1()));
        assert(g.is_third(v1 as int, v2 as int, t.v2()));
    }
    assert forall|a: int, b: int| g.is_pair(a, b) && h.is_pair(a, b) implies #[trigger] h.edge(a, b)
        == g.edge(a, b) by {
        lemma_active_below_len(g, a);
        lemma_active_below_len(g, b);
    }
    lemma_packing_transfer(p, g, h);
}

/// Keeping a packing up to date while a merge is taken back: once the
/// triples of the merged vertex have left, the packing is in order for the
/// graph with the two vertices back, and when the triples of the two have
/// had their turn every conflict of that graph is counted, as after a rebuild.
pub proof fn lemma_kept_along_un_merge(
    p: &Packing,
    g: &Graph,
    h: &Graph,
    h2: &Graph,
    r: &Graph,
    v1: usize,
    v2: usize,
    before: Seq<Triple>,
)
    requires
        g.wf(),
        g.is_pair(v1 as int, v2 as int),
        !g.edge(v1 as int, v2 as int).fixed,
        h.merged_from(g, v1, v2),
        h2.wf(),
        h2.same_state(h),
        r.unmerged_from(h2, v1, v2, g.len),
        p.wf(h2),
        p.counted@ == all_triples(h2).difference(
            h2.triples_where(with_vertex(g.len as int, g.len as int)),
        ),
        p.triples@ == purged(before, |t: Triple| t.has_vertex(g.len as int), before.len() as int),
    ensures
        r.wf(),
        p.wf(r),
        forall|t: (int, int, int)|
            r.triples_where(with_either(v1 as int, v2 as int)).contains(t) ==> !p.counted@.contains(
                t,
            ),
        p.counted@.union(r.triples_where(with_either(v1 as int, v2 as int))) == all_triples(r),
{
    let vv = g.len as int;
    let gone = |t: Triple| t.has_vertex(vv);
    lemma_merge_wf(g, h, v1, v2);
    crate::merge::lemma_merge_un_merge(g, h, h2, r, v1, v2);
    lemma_purged(before, gone, before.len() as int);
    lemma_triples_merge(g, h, v1, v2);
    lemma_active_below_len(g, v1 as int);
    lemma_active_below_len(g, v2 as int);
    assert(!g.is_active(vv)) by {
        if g.is_active(vv) {
            lemma_active_below_len(g, vv);
        }
    }
    assert forall|v: int| h2.is_active(v) == (v == vv || g.is_third(v1 as int, v2 as int, v)) by {
        assert(h2.is_active(v) == h.is_active(v));
    }
    assert forall|v: int| r.is_active(v) == g.is_active(v) by {}
    assert forall|t: (int, int, int)| p.counted@.contains(t) implies #[trigger] r.is_triple(
        t.0,
        t.1,
        t.2,
    ) && !holds(t, v1 as int) && !holds(t, v2 as int) by {
        assert(h2.is_triple(t.0, t.1, t.2) && !holds(t, vv));
    }
    assert forall|k: int| 0 <= k < p.triples.len() implies r.is_triple(
        (#[trigger] p.triples@[k]).v0(),
        p.triples@[k].v1(),
        p.triples@[k].v2(),
    ) by {
        let t = p.triples@[k];
        assert(!gone(t));
        assert(h2.is_triple(t.v0(), t.v1(), t.v2()));
    }
    assert forall|a: int, b: int| h2.is_pair(a, b) && r.is_pair(a, b) implies #[trigger] r.edge(a, b)
        == h2.edge(a, b) by {}
    lemma_packing_transfer(p, h2, r);
    assert(p.counted@.union(r.triples_where(with_either(v1 as int, v2 as int))) =~= all_triples(
        r,
    )) by {
        assert forall|t: (int, int, int)|
            p.counted@.union(r.triples_where(with_either(v1 as int, v2 as int))).contains(t)
                == all_triples(r).contains(t) by {
            if t.0 < t.1 < t.2 {
                assert(h2.is_active(t.0) == (t.0 == vv || g.is_third(v1 as int, v2 as int, t.0)));
                assert(h2.is_active(t.1) == (t.1 == vv || g.is_third(v1 as int, v2 as int, t.1)));
                assert(h2.is_active(t.2) == (t.2 == vv || g.is_third(v1 as int, v2 as int, t.2)));
            }
        }
    }
}

/// Keeping a packing up to date along a cut, or while a cut is taken
/// back: once the triples of the edge have left, the packing is in order
/// for the graph with the edge changed, and when the triples of the edge
/// have had their turn every conflict of that graph is counted, as after
/// a rebuild.
pub proof fn lemma_kept_along_edge(
    p: &Packing,
    g: &Graph,
    h: &Graph,
    v1: usize,
    v2: usize,
    before: Seq<Triple>,
)
    requires
        g.wf(),
        h.wf(),
        g.is_pair(v1 as int, v2 as int),
        h.same_vertices(g),
        h.edges_same_except(g, v1 as int, v2 as int),
        p.wf(g),
        p.counted@ == all_triples(g).difference(g.triples_where(with_edge(v1 as int, v2 as int))),
        p.triples@ == purged(
            before,
            |t: Triple| t.has_edge(v1 as int, v2 as int),
            before.len() as int,
        ),
    ensures
        p.wf(h),
        forall|t: (int, int, int)|
            h.triples_where(with_edge(v1 as int, v2 as int)).contains(t) ==> !p.counted@.contains(t),
        p.counted@.union(h.triples_where(with_edge(v1 as int, v2 as int))) == all_triples(h),
{
    let gone = |t: Triple| t.has_edge(v1 as int, v2 as int);
    lemma_purged(before, gone, before.len() as int);
    assert forall|v: int| h.is_active(v) == g.is_active(v) by {}
    assert forall|a: int, b: int| g.is_pair(a, b) && h.is_pair(a, b) implies #[trigger] h.edge(a, b)
        == g.edge(a, b) || ((forall|c: int| !p.counted@.contains(#[trigger] ascending(a, b, c)))
        && (forall|k: int| 0 <= k < p.triples.len() ==> !(#[trigger] p.triples@[k]).has_edge(a, b)))
    by {
        lemma_active_below_len(g, a);
        lemma_active_below_len(g, b);
        if (a == v1 && b == v2) || (a == v2 && b == v1) {
            assert forall|c: int| !p.counted@.contains(#[trigger] ascending(a, b, c)) by {
                let t = ascending(a, b, c);
                if all_triples(g).contains(t) {
                    lemma_ascending(a, b, c);
                    assert(holds(t, a) && holds(t, b));
                }
            }
            assert forall|k: int| 0 <= k < p.triples.len() implies !(
            #[trigger] p.triples@[k]).has_edge(a, b) by {
                assert(!gone(p.triples@[k]));
            }
        }
    }
    lemma_packing_transfer(p, g, h);
    assert(p.counted@.union(h.triples_where(with_edge(v1 as int, v2 as int))) =~= all_triples(h));
}

} // verus!
