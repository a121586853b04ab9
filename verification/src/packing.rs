//! The lower bound: a packing of conflict triples, each claiming a cost
//! against the remaining budget of its three edges.

use vstd::prelude::*;
use crate::graph::{Graph, abs};
use crate::matrix::Matrix;
use crate::triple::{Triple, triple_of, least3, middle3, greatest3};
use crate::cost::{singletons, lemma_cost_twice, lemma_singletons_cost};
use crate::merge::lemma_active_below_len;
use crate::order::{
    counted_upto, pack_inner, pack_middle, pack_outer, pack_triples, lemma_counted_step,
    lemma_counted_bounds,
};
use crate::sums::{
    sum_to, square_sum, lemma_sum_add, lemma_sum_le, lemma_sum_point, lemma_sum_nonneg,
    lemma_sum_prefix_const, lemma_square_add, lemma_square_le, lemma_square_nonneg,
    lemma_square_update_pair, lemma_square_zero,
};

verus! {

impl Graph {
    /// How many of the three pairs among `a`, `b` and `c` are positive.
    pub open spec fn positives(&self, a: int, b: int, c: int) -> int {
        (if self.weight(a, b) > 0 {
            1int
        } else {
            0int
        }) + (if self.weight(a, c) > 0 {
            1int
        } else {
            0int
        }) + (if self.weight(b, c) > 0 {
            1int
        } else {
            0int
        })
    }

    /// The three vertices are in conflict: exactly two of their pairs are
    /// positive, so no clustering agrees with all three.
    pub open spec fn is_conflict(&self, a: int, b: int, c: int) -> bool {
        self.positives(a, b, c) == 2
    }

    /// Three different active vertices.
    pub open spec fn is_triple(&self, a: int, b: int, c: int) -> bool {
        a != b && a != c && b != c && self.is_active(a) && self.is_active(b) && self.is_active(c)
    }

    /// The pair `{a, b}` is violated by the labelling: positive and apart, or
    /// not positive and together.
    pub open spec fn violates(&self, p: spec_fn(int) -> int, a: int, b: int) -> bool {
        self.is_pair(a, b) && ((p(a) == p(b)) != (self.weight(a, b) > 0))
    }
}

/// The three indices in ascending order.
pub open spec fn ascending(a: int, b: int, c: int) -> (int, int, int) {
    (least3(a, b, c), middle3(a, b, c), greatest3(a, b, c))
}

/// What the triples claim together against the pair `{a, b}`.
pub open spec fn claimed(ts: Seq<Triple>, a: int, b: int) -> int
    decreases ts.len(),
{
    if ts.len() == 0 {
        0
    } else {
        claimed(ts.drop_last(), a, b) + if ts.last().has_edge(a, b) {
            ts.last().cost as int
        } else {
            0
        }
    }
}

/// The costs of all triples together.
pub open spec fn total(ts: Seq<Triple>) -> int
    decreases ts.len(),
{
    if ts.len() == 0 {
        0
    } else {
        total(ts.drop_last()) + ts.last().cost
    }
}

/// What is left of the budget of the pair `{a, b}`.
pub open spec fn room(g: &Graph, ts: Seq<Triple>, a: int, b: int) -> int {
    abs(g.weight(a, b)) - claimed(ts, a, b)
}

/// The least of three numbers.

pub open spec fn min3(a: int, b: int, c: int) -> int {
    least3(a, b, c)
}

/// The packing after the triple of `v1`, `v2` and `v3` had its turn: where
/// the three are in conflict and each of their edges has budget left, the
/// triple joins with the least of the three budgets as its cost.
pub open spec fn claim(g: &Graph, ts: Seq<Triple>, v1: int, v2: int, v3: int) -> Seq<Triple> {
    if g.is_conflict(v1, v2, v3) && room(g, ts, v1, v2) > 0 && room(g, ts, v1, v3) > 0 && room(
        g,
        ts,
        v2,
        v3,
    ) > 0 {
        ts.push(
            triple_of(
                v1,
                v2,
                v3,
                min3(room(g, ts, v1, v2), room(g, ts, v1, v3), room(g, ts, v2, v3)),
            ),
        )
    } else {
        ts
    }
}

/// Every triple is a conflict among three active vertices, with a positive cost.
pub open spec fn all_conflicts(g: &Graph, ts: Seq<Triple>) -> bool {
    forall|i: int|
        0 <= i < ts.len() ==> {
            let t = #[trigger] ts[i];
            &&& t.sorted()
            &&& g.is_triple(t.v0(), t.v1(), t.v2())
            &&& g.is_conflict(t.v0(), t.v1(), t.v2())
            &&& t.cost > 0
        }
}

/// No pair of active vertices has more claimed against it than its weight allows.
pub open spec fn within_budget(g: &Graph, ts: Seq<Triple>) -> bool {
    forall|a: int, b: int| #[trigger] g.is_pair(a, b) ==> claimed(ts, a, b) <= abs(g.weight(a, b))
}

/// A packing whose total is a lower bound.
pub open spec fn sound(g: &Graph, ts: Seq<Triple>) -> bool {
    all_conflicts(g, ts) && within_budget(g, ts)
}

/// What is claimed against a pair is not negative, and no more than all costs together.

pub proof fn lemma_claimed_nonneg(ts: Seq<Triple>, a: int, b: int)
    ensures
        0 <= claimed(ts, a, b) <= total(ts),
    decreases ts.len(),
{
    if ts.len() > 0 {
        lemma_claimed_nonneg(ts.drop_last(), a, b);
    }
}

/// A triple that joins adds its cost to the claims against each of its pairs.

pub proof fn lemma_claimed_push(ts: Seq<Triple>, t: Triple, a: int, b: int)
    ensures
        claimed(ts.push(t), a, b) == claimed(ts, a, b) + if t.has_edge(a, b) {
            t.cost as int
        } else {
            0
        },
        total(ts.push(t)) == total(ts) + t.cost,
{
    assert(ts.push(t).drop_last() =~= ts);
}

/// The ascending order of three different indices holds each of them once.
pub proof fn lemma_ascending(a: int, b: int, c: int)
    requires
        a != b,
        a != c,
        b != c,
    ensures
        least3(a, b, c) < middle3(a, b, c) < greatest3(a, b, c),
        ascending(a, b, c) == ascending(a, c, b),
        ascending(a, b, c) == ascending(b, a, c),
        ascending(a, b, c) == ascending(b, c, a),
        ascending(a, b, c) == ascending(c, a, b),
        ascending(a, b, c) == ascending(c, b, a),
        a == least3(a, b, c) || a == middle3(a, b, c) || a == greatest3(a, b, c),
        b == least3(a, b, c) || b == middle3(a, b, c) || b == greatest3(a, b, c),
        c == least3(a, b, c) || c == middle3(a, b, c) || c == greatest3(a, b, c),
{
}

/// Whether three vertices are in conflict does not depend on their order.
pub proof fn lemma_conflict_symmetric(g: &Graph, a: int, b: int, c: int)
    ensures
        g.is_conflict(a, b, c) == g.is_conflict(a, c, b),
        g.is_conflict(a, b, c) == g.is_conflict(b, a, c),
        g.is_conflict(a, b, c) == g.is_conflict(b, c, a),
        g.is_conflict(a, b, c) == g.is_conflict(c, a, b),
        g.is_conflict(a, b, c) == g.is_conflict(c, b, a),
        g.is_conflict(a, b, c) == g.is_conflict(
            least3(a, b, c),
            middle3(a, b, c),
            greatest3(a, b, c),
        ),
{
    assert(g.edge(a, b) == g.edge(b, a));
    assert(g.edge(a, c) == g.edge(c, a));
    assert(g.edge(b, c) == g.edge(c, b));
}

/// Every labelling violates a pair of every conflict.
pub proof fn lemma_conflict_violated(g: &Graph, p: spec_fn(int) -> int, a: int, b: int, c: int)
    requires
        g.is_triple(a, b, c),
        g.is_conflict(a, b, c),
    ensures
        g.violates(p, a, b) || g.violates(p, a, c) || g.violates(p, b, c),
{
}

/// What the triples claim against the pairs that the labelling violates,
/// summed over ordered pairs.
pub open spec fn violated_claims(g: &Graph, p: spec_fn(int) -> int, ts: Seq<Triple>) -> int {
    square_sum(
        |a: int, b: int|
            if g.violates(p, a, b) {
                claimed(ts, a, b)
            } else {
                0
            },
        g.cap(),
    )
}

proof fn lemma_total_violated(g: &Graph, p: spec_fn(int) -> int, ts: Seq<Triple>)
    requires
        g.wf(),
        all_conflicts(g, ts),
    ensures
        2 * total(ts) <= violated_claims(g, p, ts),
    decreases ts.len(),
{
    let n = g.cap();
    let vc = |a: int, b: int|
        if g.violates(p, a, b) {
            claimed(ts, a, b)
        } else {
            0
        };
    if ts.len() == 0 {
        lemma_square_zero(vc, n);
    } else {
        let rest = ts.drop_last();
        let t = ts.last();
        assert(t == ts[ts.len() - 1]);
        assert forall|i: int| 0 <= i < rest.len() implies {
            let t = #[trigger] rest[i];
            &&& t.sorted()
            &&& g.is_triple(t.v0(), t.v1(), t.v2())
            &&& g.is_conflict(t.v0(), t.v1(), t.v2())
            &&& t.cost > 0
        } by {
            assert(rest[i] == ts[i]);
        }
        lemma_total_violated(g, p, rest);
        let vr = |a: int, b: int|
            if g.violates(p, a, b) {
                claimed(rest, a, b)
            } else {
                0
            };
        let d = |a: int, b: int|
            if g.violates(p, a, b) && t.has_edge(a, b) {
                t.cost as int
            } else {
                0
            };
        lemma_square_add(vc, vr, d, n);
        lemma_conflict_violated(g, p, t.v0(), t.v1(), t.v2());
        let (x, y) = if g.violates(p, t.v0(), t.v1()) {
            (t.v0(), t.v1())
        } else if g.violates(p, t.v0(), t.v2()) {
            (t.v0(), t.v2())
        } else {
            (t.v1(), t.v2())
        };
        assert(g.violates(p, x, y) && t.has_edge(x, y));
        assert(g.violates(p, y, x)) by {
            assert(g.edge(x, y) == g.edge(y, x));
        }
        lemma_active_below_len(g, x);
        lemma_active_below_len(g, y);
        let d0 = |a: int, b: int|
            if (a == x && b == y) || (a == y && b == x) {
                0
            } else {
                d(a, b)
            };
        lemma_square_update_pair(d0, d, n, x, y, t.cost as int);
        lemma_square_nonneg(d0, n);
    }
}

/// The total of a sound packing is a lower bound: no admitted labelling costs less.
pub proof fn lemma_packing_admissible(g: &Graph, ts: Seq<Triple>, p: spec_fn(int) -> int)
    requires
        g.wf(),
        sound(g, ts),
        g.admits(p),
    ensures
        total(ts) <= g.cost(p),
{
    let n = g.cap();
    lemma_total_violated(g, p, ts);
    lemma_cost_twice(g, p);
    let vc = |a: int, b: int|
        if g.violates(p, a, b) {
            claimed(ts, a, b)
        } else {
            0
        };
    let pc = |a: int, b: int| g.pair_cost(p, a, b);
    assert forall|a: int, b: int| 0 <= a < n && 0 <= b < n implies #[trigger] vc(a, b) <= pc(
        a,
        b,
    ) by {
        if g.violates(p, a, b) {
            assert(g.is_pair(a, b));
            assert(g.edge(a, b).ok());
        }
    }
    lemma_square_le(vc, pc, n);
}

/// A sound packing of a graph without conflicts is empty: the bound is zero.
pub proof fn lemma_conflict_free_bound(g: &Graph, ts: Seq<Triple>)
    requires
        all_conflicts(g, ts),
        forall|a: int, b: int, c: int| #[trigger] g.is_triple(a, b, c) ==> !g.is_conflict(a, b, c),
    ensures
        ts.len() == 0,
        total(ts) == 0,
{
    if ts.len() > 0 {
        let t = ts[0];
        assert(g.is_triple(t.v0(), t.v1(), t.v2()));
    }
}

/// A sound packing totals at most the weight of all positive edges.
pub proof fn lemma_total_fits(g: &Graph, ts: Seq<Triple>)
    requires
        g.wf(),
        sound(g, ts),
    ensures
        0 <= total(ts) <= g.positive_total() <= i32::MAX,
{
    lemma_singletons_cost(g);
    lemma_packing_admissible(g, ts, singletons());
    lemma_claimed_nonneg(ts, 0, 0);
}

/// Letting a triple of active vertices have its turn keeps a packing sound.
pub proof fn lemma_claim_sound(g: &Graph, ts: Seq<Triple>, v1: int, v2: int, v3: int)
    requires
        g.wf(),
        sound(g, ts),
        g.is_triple(v1, v2, v3),
    ensures
        sound(g, claim(g, ts, v1, v2, v3)),
        0 <= min3(room(g, ts, v1, v2), room(g, ts, v1, v3), room(g, ts, v2, v3)) <= i32::MAX,
{
    let cost = min3(room(g, ts, v1, v2), room(g, ts, v1, v3), room(g, ts, v2, v3));
    assert(g.is_pair(v1, v2) && g.is_pair(v1, v3) && g.is_pair(v2, v3));
    assert(g.edge(v1, v2).ok() && g.edge(v1, v3).ok() && g.edge(v2, v3).ok());
    lemma_claimed_nonneg(ts, v1, v2);
    lemma_claimed_nonneg(ts, v1, v3);
    lemma_claimed_nonneg(ts, v2, v3);
    let next = claim(g, ts, v1, v2, v3);
    if next != ts {
        let t = triple_of(v1, v2, v3, cost);
        lemma_ascending(v1, v2, v3);
        lemma_conflict_symmetric(g, v1, v2, v3);
        lemma_active_below_len(g, v1);
        lemma_active_below_len(g, v2);
        lemma_active_below_len(g, v3);
        assert forall|i: int| 0 <= i < next.len() implies {
            let t = #[trigger] next[i];
            &&& t.sorted()
            &&& g.is_triple(t.v0(), t.v1(), t.v2())
            &&& g.is_conflict(t.v0(), t.v1(), t.v2())
            &&& t.cost > 0
        } by {
            if i < ts.len() {
                assert(next[i] == ts[i]);
            }
        }
        assert forall|a: int, b: int| #[trigger] g.is_pair(a, b) implies claimed(next, a, b)
            <= abs(g.weight(a, b)) by {
            lemma_claimed_push(ts, t, a, b);
            assert(g.edge(a, b) == g.edge(b, a));
            lemma_claimed_symmetric(ts, a, b);
        }
    }
}

/// What is claimed against a pair does not depend on the order of its ends.

pub proof fn lemma_claimed_symmetric(ts: Seq<Triple>, a: int, b: int)
    ensures
        claimed(ts, a, b) == claimed(ts, b, a),
    decreases ts.len(),
{
    if ts.len() > 0 {
        lemma_claimed_symmetric(ts.drop_last(), a, b);
    }
}

/// Whether the conflict of `a`, `b` and the third vertex `c` is counted.
pub open spec fn counted_term(g: &Graph, r: Set<(int, int, int)>, a: int, b: int, c: int) -> int {
    if g.is_third(a, b, c) && r.contains(ascending(a, b, c)) && g.is_conflict(a, b, c) {
        1
    } else {
        0
    }
}

/// The number of counted conflicts that the pair `{a, b}` is part of.
pub open spec fn counted_conflicts(g: &Graph, r: Set<(int, int, int)>, a: int, b: int) -> int {
    sum_to(|c: int| counted_term(g, r, a, b, c), g.cap())
}

/// The ascending triples of three different active vertices.
pub open spec fn all_triples(g: &Graph) -> Set<(int, int, int)> {
    Set::new(|t: (int, int, int)| t.0 < t.1 < t.2 && g.is_triple(t.0, t.1, t.2))
}

/// The number of conflicts that the pair `{a, b}` is part of.
pub open spec fn conflict_count(g: &Graph, a: int, b: int) -> int {
    sum_to(
        |c: int|
            if g.is_third(a, b, c) && g.is_conflict(a, b, c) {
                1int
            } else {
                0int
            },
        g.cap(),
    )
}

/// Counting one more triple raises the count of each of its three pairs by
/// one if the triple is a conflict, and changes no other count.
pub proof fn lemma_counted_insert(
    g: &Graph,
    r: Set<(int, int, int)>,
    v1: int,
    v2: int,
    v3: int,
    a: int,
    b: int,
)
    requires
        g.wf(),
        g.is_triple(v1, v2, v3),
        !r.contains(ascending(v1, v2, v3)),
        g.is_pair(a, b),
    ensures
        counted_conflicts(g, r.insert(ascending(v1, v2, v3)), a, b) == counted_conflicts(
            g,
            r,
            a,
            b,
        ) + if (a == v1 || a == v2 || a == v3) && (b == v1 || b == v2 || b == v3) && g.is_conflict(
            v1,
            v2,
            v3,
        ) {
            1int
        } else {
            0int
        },
        0 <= counted_conflicts(g, r, a, b),
        counted_conflicts(g, r.insert(ascending(v1, v2, v3)), a, b) <= g.cap(),
{
    let n = g.cap();
    let r2 = r.insert(ascending(v1, v2, v3));
    let old_term = |c: int| counted_term(g, r, a, b, c);
    let new_term = |c: int| counted_term(g, r2, a, b, c);
    let inside = (a == v1 || a == v2 || a == v3) && (b == v1 || b == v2 || b == v3);
    let third = v1 + v2 + v3 - a - b;
    let d = |c: int|
        if inside && c == third && g.is_conflict(v1, v2, v3) {
            1int
        } else {
            0int
        };
    lemma_ascending(v1, v2, v3);
    lemma_active_below_len(g, v1);
    lemma_active_below_len(g, v2);
    lemma_active_below_len(g, v3);
    assert forall|c: int| 0 <= c < n implies #[trigger] new_term(c) == old_term(c) + d(c) by {
        if g.is_third(a, b, c) {
            lemma_ascending(a, b, c);
            if inside && c == third {
                lemma_conflict_symmetric(g, v1, v2, v3);
                lemma_conflict_symmetric(g, a, b, c);
            }
        }
    }
    lemma_sum_add(new_term, old_term, d, n);
    lemma_sum_point(d, n, third);
    lemma_sum_nonneg(old_term, n);
    let one = |c: int| 1int;
    lemma_sum_le(new_term, one, n);
    lemma_sum_prefix_const(one, n, n, 1);
}

/// Forgetting a counted triple lowers the count of each of its three pairs
/// by one if the triple is a conflict, and changes no other count.
pub proof fn lemma_counted_remove(
    g: &Graph,
    r: Set<(int, int, int)>,
    v1: int,
    v2: int,
    v3: int,
    a: int,
    b: int,
)
    requires
        g.wf(),
        g.is_triple(v1, v2, v3),
        r.contains(ascending(v1, v2, v3)),
        g.is_pair(a, b),
    ensures
        counted_conflicts(g, r, a, b) == counted_conflicts(
            g,
            r.remove(ascending(v1, v2, v3)),
            a,
            b,
        ) + if (a == v1 || a == v2 || a == v3) && (b == v1 || b == v2 || b == v3) && g.is_conflict(
            v1,
            v2,
            v3,
        ) {
            1int
        } else {
            0int
        },
        0 <= counted_conflicts(g, r.remove(ascending(v1, v2, v3)), a, b),
{
    let r0 = r.remove(ascending(v1, v2, v3));
    assert(r0.insert(ascending(v1, v2, v3)) =~= r);
    lemma_counted_insert(g, r0, v1, v2, v3, a, b);
}

/// Once every triple of active vertices is counted, the counts are the
/// numbers of conflicts.
pub proof fn lemma_counted_all(g: &Graph, a: int, b: int)
    requires
        g.is_pair(a, b),
    ensures
        counted_conflicts(g, all_triples(g), a, b) == conflict_count(g, a, b),
{
    let r = all_triples(g);
    let f = |c: int| counted_term(g, r, a, b, c);
    let h = |c: int|
        if g.is_third(a, b, c) && g.is_conflict(a, b, c) {
            1int
        } else {
            0int
        };
    assert forall|c: int| 0 <= c < g.cap() implies #[trigger] f(c) == h(c) by {
        if g.is_third(a, b, c) {
            lemma_ascending(a, b, c);
            assert(r.contains(ascending(a, b, c)));
        }
    }
    crate::sums::lemma_sum_eq(f, h, g.cap());
}

/// The magnitude of a weight that can be negated.
pub fn magnitude(w: i32) -> (m: u32)
    requires
        w > i32::MIN,
    ensures
        m == abs(w as int),
{
    if w < 0 {
        (-w) as u32
    } else {
        w as u32
    }
}

/// Whether `a` and `b` are two different ones of the three vertices.
pub open spec fn is_edge_of(a: int, b: int, v1: int, v2: int, v3: int) -> bool {
    a != b && (a == v1 || a == v2 || a == v3) && (b == v1 || b == v2 || b == v3)
}

/// Raises the entries of the three pairs among `v1`, `v2` and `v3` by `delta`.
fn raise_on_triple(m: &mut Matrix<u32>, v1: usize, v2: usize, v3: usize, delta: u32)
    requires
        old(m).wf(),
        v1 < old(m).spec_len(),
        v2 < old(m).spec_len(),
        v3 < old(m).spec_len(),
        v1 != v2,
        v1 != v3,
        v2 != v3,
        old(m).at(v1 as int, v2 as int) + delta <= u32::MAX,
        old(m).at(v1 as int, v3 as int) + delta <= u32::MAX,
        old(m).at(v2 as int, v3 as int) + delta <= u32::MAX,
    ensures
        final(m).wf(),
        final(m).spec_len() == old(m).spec_len(),
        forall|a: int, b: int|
            0 <= a < old(m).spec_len() && 0 <= b < old(m).spec_len() ==> #[trigger] final(m).at(
                a,
                b,
            ) == old(m).at(a, b) + if is_edge_of(a, b, v1 as int, v2 as int, v3 as int) {
                delta as int
            } else {
                0
            },
{
    let x13: u32 = m.get(v1, v3);
    m.set(v1, v3, x13 + delta);
    let x23: u32 = m.get(v2, v3);
    m.set(v2, v3, x23 + delta);
    let x12: u32 = m.get(v1, v2);
    m.set(v1, v2, x12 + delta);
}

/// Lowers the entries of the three pairs among `v1`, `v2` and `v3` by `delta`.
fn lower_on_triple(m: &mut Matrix<u32>, v1: usize, v2: usize, v3: usize, delta: u32)
    requires
        old(m).wf(),
        v1 < old(m).spec_len(),
        v2 < old(m).spec_len(),
        v3 < old(m).spec_len(),
        v1 != v2,
        v1 != v3,
        v2 != v3,
        old(m).at(v1 as int, v2 as int) >= delta,
        old(m).at(v1 as int, v3 as int) >= delta,
        old(m).at(v2 as int, v3 as int) >= delta,
    ensures
        final(m).wf(),
        final(m).spec_len() == old(m).spec_len(),
        forall|a: int, b: int|
            0 <= a < old(m).spec_len() && 0 <= b < old(m).spec_len() ==> #[trigger] final(m).at(
                a,
                b,
            ) == old(m).at(a, b) - if is_edge_of(a, b, v1 as int, v2 as int, v3 as int) {
                delta as int
            } else {
                0
            },
{
    let x13: u32 = m.get(v1, v3);
    m.set(v1, v3, x13 - delta);
    let x23: u32 = m.get(v2, v3);
    m.set(v2, v3, x23 - delta);
    let x12: u32 = m.get(v1, v2);
    m.set(v1, v2, x12 - delta);
}

/// The packing of conflict triples and the bookkeeping for it.
pub struct Packing {
    /// The triples that claim a cost, in the order in which they joined.
    pub triples: Vec<Triple>,
    /// For each pair, the number of counted conflicts that it is part of.
    pub edge_conflicts: Matrix<u32>,
    /// For each pair, what the triples claim against it.
    pub edge_cost: Matrix<u32>,
    /// The lower bound: the costs of all triples together.
    pub lower: u32,
    /// The triples of vertices, in ascending order, whose conflicts are counted.
    pub counted: Ghost<Set<(int, int, int)>>,
}

impl Packing {
    /// The packing is sound for the graph and its bookkeeping is in order.
    pub open spec fn wf(&self, g: &Graph) -> bool {
        &&& self.edge_conflicts.wf()
        &&& self.edge_conflicts.spec_len() == g.cap()
        &&& self.edge_cost.wf()
        &&& self.edge_cost.spec_len() == g.cap()
        &&& sound(g, self.triples@)
        &&& self.lower == total(self.triples@)
        &&& forall|a: int, b: int| #[trigger]
            g.is_pair(a, b) ==> self.edge_cost.at(a, b) == claimed(self.triples@, a, b)
        &&& forall|a: int, b: int| #[trigger]
            g.is_pair(a, b) ==> self.edge_conflicts.at(a, b) == counted_conflicts(
                g,
                self.counted@,
                a,
                b,
            )
        &&& self.is_clean(g)
        &&& forall|t: (int, int, int)|
            self.counted@.contains(t) ==> t.0 < t.1 < t.2 && g.is_triple(t.0, t.1, t.2)
    }

    /// Nothing is recorded for what is no pair of active vertices.
    pub open spec fn is_clean(&self, g: &Graph) -> bool {
        &&& forall|a: int, b: int|
            0 <= a < g.cap() && 0 <= b < g.cap() && !g.is_pair(a, b)
                ==> #[trigger] self.edge_cost.at(a, b) == 0
        &&& forall|a: int, b: int|
            0 <= a < g.cap() && 0 <= b < g.cap() && !g.is_pair(a, b)
                ==> #[trigger] self.edge_conflicts.at(a, b) == 0
    }

    /// An empty packing for a graph with room for `len` vertices.
    pub fn new(len: usize) -> (p: Self)
        requires
            len * len <= usize::MAX,
        ensures
            p.triples@ == Seq::<Triple>::empty(),
            p.lower == 0,
            p.counted@ == Set::<(int, int, int)>::empty(),
            p.edge_conflicts.wf(),
            p.edge_conflicts.spec_len() == len,
            p.edge_cost.wf(),
            p.edge_cost.spec_len() == len,
            forall|a: int, b: int|
                0 <= a < len && 0 <= b < len ==> #[trigger] p.edge_cost.at(a, b) == 0,
            forall|a: int, b: int|
                0 <= a < len && 0 <= b < len ==> #[trigger] p.edge_conflicts.at(a, b) == 0,
    {
        Packing {
            triples: Vec::new(),
            edge_conflicts: Matrix::new(0, len),
            edge_cost: Matrix::new(0, len),
            lower: 0,
            counted: Ghost(Set::empty()),
        }
    }

    /// Gives the triple of `v1`, `v2` and `v3` its turn: counts it if it is a
    /// conflict, and lets it claim the least budget left on its three edges
    /// if each of them has any.
    pub fn add_triple(&mut self, graph: &Graph, v1: usize, v2: usize, v3: usize)
        requires
            graph.wf(),
            old(self).wf(graph),
            graph.is_triple(v1 as int, v2 as int, v3 as int),
            !old(self).counted@.contains(ascending(v1 as int, v2 as int, v3 as int)),
        ensures
            final(self).wf(graph),
            final(self).counted@ == old(self).counted@.insert(
                ascending(v1 as int, v2 as int, v3 as int),
            ),
            final(self).triples@ == claim(
                graph,
                old(self).triples@,
                v1 as int,
                v2 as int,
                v3 as int,
            ),
    {
        let ghost r = self.counted@;
        let ghost r2 = r.insert(ascending(v1 as int, v2 as int, v3 as int));
        let ghost ts = self.triples@;
        let ghost next = claim(graph, ts, v1 as int, v2 as int, v3 as int);
        proof {
            lemma_active_below_len(graph, v1 as int);
            lemma_active_below_len(graph, v2 as int);
            lemma_active_below_len(graph, v3 as int);
            assert(graph.is_pair(v1 as int, v2 as int));
            assert(graph.is_pair(v1 as int, v3 as int));
            assert(graph.is_pair(v2 as int, v3 as int));
            assert(graph.edge(v1 as int, v2 as int).ok());
            assert(graph.edge(v1 as int, v3 as int).ok());
            assert(graph.edge(v2 as int, v3 as int).ok());
            self.edge_conflicts.lemma_len_bound();
            lemma_ascending(v1 as int, v2 as int, v3 as int);
            lemma_counted_insert(graph, r, v1 as int, v2 as int, v3 as int, v1 as int, v2 as int);
            lemma_counted_insert(graph, r, v1 as int, v2 as int, v3 as int, v1 as int, v3 as int);
            lemma_counted_insert(graph, r, v1 as int, v2 as int, v3 as int, v2 as int, v3 as int);
            lemma_claim_sound(graph, ts, v1 as int, v2 as int, v3 as int);
            lemma_total_fits(graph, next);
            lemma_claimed_nonneg(ts, v1 as int, v2 as int);
            lemma_claimed_nonneg(ts, v1 as int, v3 as int);
            lemma_claimed_nonneg(ts, v2 as int, v3 as int);
        }
        self.counted = Ghost(r2);
        let w12: i32 = graph.edges.get(v1, v2).weight;
        let w13: i32 = graph.edges.get(v1, v3).weight;
        let w23: i32 = graph.edges.get(v2, v3).weight;
        let e12 = w13 > 0;
        let e13 = w23 > 0;
        let e23 = w12 > 0;
        let positives: u32 = (if e12 {
            1u32
        } else {
            0u32
        }) + (if e13 {
            1u32
        } else {
            0u32
        }) + (if e23 {
            1u32
        } else {
            0u32
        });
        if positives != 2 {
            proof {
                assert forall|a: int, b: int| #[trigger]
                    graph.is_pair(a, b) implies self.edge_conflicts.at(a, b) == counted_conflicts(
                    graph,
                    r2,
                    a,
                    b,
                ) by {
                    lemma_counted_insert(graph, r, v1 as int, v2 as int, v3 as int, a, b);
                }
            }
            return ;
        }
        raise_on_triple(&mut self.edge_conflicts, v1, v2, v3, 1);
        proof {
            assert forall|a: int, b: int| #[trigger]
                graph.is_pair(a, b) implies self.edge_conflicts.at(a, b) == counted_conflicts(
                graph,
                r2,
                a,
                b,
            ) by {
                lemma_counted_insert(graph, r, v1 as int, v2 as int, v3 as int, a, b);
                lemma_active_below_len(graph, a);
                lemma_active_below_len(graph, b);
            }
        }
        let a12: u32 = magnitude(w12);
        let a13: u32 = magnitude(w13);
        let a23: u32 = magnitude(w23);
        let used12: u32 = self.edge_cost.get(v1, v2);
        let used13: u32 = self.edge_cost.get(v1, v3);
        let used23: u32 = self.edge_cost.get(v2, v3);
        if used12 == a12 || used13 == a13 || used23 == a23 {
            return ;
        }
        let room12: u32 = a12 - used12;
        let room13: u32 = a13 - used13;
        let room23: u32 = a23 - used23;
        let cost: u32 = if room12 <= room13 && room12 <= room23 {
            room12
        } else if room13 <= room23 {
            room13
        } else {
            room23
        };
        let triple = Triple::new([v1, v2, v3], cost);
        proof {
            assert(next == ts.push(triple));
            lemma_claimed_push(ts, triple, 0, 0);
            lemma_ascending(v1 as int, v2 as int, v3 as int);
        }
        raise_on_triple(&mut self.edge_cost, v1, v2, v3, cost);
        self.triples.push(triple);
        self.lower += cost;
        proof {
            assert forall|a: int, b: int| #[trigger] graph.is_pair(a, b) implies self.edge_cost.at(
                a,
                b,
            ) == claimed(self.triples@, a, b) by {
                lemma_claimed_push(ts, triple, a, b);
                lemma_active_below_len(graph, a);
                lemma_active_below_len(graph, b);
            }
        }
    }

    /// Forgets the counted triple of `v1`, `v2` and `v3`: if it is a
    /// conflict, each of its three pairs is part of one conflict less.
    pub fn remove_triple_conflicts(&mut self, graph: &Graph, v1: usize, v2: usize, v3: usize)
        requires
            graph.wf(),
            old(self).wf(graph),
            graph.is_triple(v1 as int, v2 as int, v3 as int),
            old(self).counted@.contains(ascending(v1 as int, v2 as int, v3 as int)),
        ensures
            final(self).wf(graph),
            final(self).counted@ == old(self).counted@.remove(
                ascending(v1 as int, v2 as int, v3 as int),
            ),
            final(self).triples@ == old(self).triples@,
            final(self).lower == old(self).lower,
    {
        let ghost r = self.counted@;
        let ghost r2 = r.remove(ascending(v1 as int, v2 as int, v3 as int));
        proof {
            lemma_active_below_len(graph, v1 as int);
            lemma_active_below_len(graph, v2 as int);
            lemma_active_below_len(graph, v3 as int);
            assert(graph.is_pair(v1 as int, v2 as int));
            assert(graph.is_pair(v1 as int, v3 as int));
            assert(graph.is_pair(v2 as int, v3 as int));
        }
        self.counted = Ghost(r2);
        let e12 = graph.edges.get(v1, v3).weight > 0;
        let e13 = graph.edges.get(v2, v3).weight > 0;
        let e23 = graph.edges.get(v1, v2).weight > 0;
        let positives: u32 = (if e12 {
            1u32
        } else {
            0u32
        }) + (if e13 {
            1u32
        } else {
            0u32
        }) + (if e23 {
            1u32
        } else {
            0u32
        });
        if positives != 2 {
            proof {
                assert forall|a: int, b: int| #[trigger]
                    graph.is_pair(a, b) implies self.edge_conflicts.at(a, b) == counted_conflicts(
                    graph,
                    r2,
                    a,
                    b,
                ) by {
                    lemma_counted_remove(graph, r, v1 as int, v2 as int, v3 as int, a, b);
                }
            }
            return ;
        }
        proof {
            lemma_counted_remove(graph, r, v1 as int, v2 as int, v3 as int, v1 as int, v2 as int);
            lemma_counted_remove(graph, r, v1 as int, v2 as int, v3 as int, v1 as int, v3 as int);
            lemma_counted_remove(graph, r, v1 as int, v2 as int, v3 as int, v2 as int, v3 as int);
        }
        lower_on_triple(&mut self.edge_conflicts, v1, v2, v3, 1);
        proof {
            assert forall|a: int, b: int| #[trigger]
                graph.is_pair(a, b) implies self.edge_conflicts.at(a, b) == counted_conflicts(
                graph,
                r2,
                a,
                b,
            ) by {
                lemma_counted_remove(graph, r, v1 as int, v2 as int, v3 as int, a, b);
                lemma_active_below_len(graph, a);
                lemma_active_below_len(graph, b);
            }
        }
    }

    /// Gives back what `triple` claimed: against each of its three edges,
    /// and in the lower bound.
    pub fn remove_triple_cost(&mut self, triple: Triple)
        requires
            old(self).edge_cost.wf(),
            triple.sorted(),
            triple.v2() < old(self).edge_cost.spec_len(),
            old(self).edge_cost.at(triple.v0(), triple.v1()) >= triple.cost,
            old(self).edge_cost.at(triple.v0(), triple.v2()) >= triple.cost,
            old(self).edge_cost.at(triple.v1(), triple.v2()) >= triple.cost,
            old(self).lower >= triple.cost,
        ensures
            final(self).lower == old(self).lower - triple.cost,
            final(self).edge_cost.wf(),
            final(self).edge_cost.spec_len() == old(self).edge_cost.spec_len(),
            forall|a: int, b: int|
                0 <= a < old(self).edge_cost.spec_len() && 0 <= b < old(self).edge_cost.spec_len()
                    ==> #[trigger] final(self).edge_cost.at(a, b) == old(self).edge_cost.at(a, b)
                    - if triple.has_edge(a, b) {
                    triple.cost as int
                } else {
                    0
                },
            final(self).triples == old(self).triples,
            final(self).edge_conflicts == old(self).edge_conflicts,
            final(self).counted == old(self).counted,
    {
        let v1: usize = triple.vertices[0];
        let v2: usize = triple.vertices[1];
        let v3: usize = triple.vertices[2];
        lower_on_triple(&mut self.edge_cost, v1, v2, v3, triple.cost);
        self.lower -= triple.cost;
    }

    /// Sets the entries of all pairs of vertices to zero.
    fn clear_all(&mut self, graph: &Graph)
        requires
            graph.wf(),
            old(self).edge_conflicts.wf(),
            old(self).edge_conflicts.spec_len() == graph.cap(),
            old(self).edge_cost.wf(),
            old(self).edge_cost.spec_len() == graph.cap(),
        ensures
            final(self).edge_conflicts.wf(),
            final(self).edge_conflicts.spec_len() == graph.cap(),
            final(self).edge_cost.wf(),
            final(self).edge_cost.spec_len() == graph.cap(),
            final(self).triples == old(self).triples,
            final(self).lower == old(self).lower,
            final(self).counted == old(self).counted,
            forall|a: int, b: int|
                0 <= a < graph.cap() && 0 <= b < graph.cap() ==> #[trigger] final(self).edge_cost.at(
                    a,
                    b,
                ) == 0,
            forall|a: int, b: int|
                0 <= a < graph.cap() && 0 <= b < graph.cap() ==> #[trigger] final(self).edge_conflicts.at(a, b) == 0,
    {
        let n: usize = self.edge_cost.len();
        let mut a: usize = 0;
        while a < n
            invariant
                n == graph.cap(),
                a <= n,
                self.edge_conflicts.wf(),
                self.edge_conflicts.spec_len() == n,
                self.edge_cost.wf(),
                self.edge_cost.spec_len() == n,
                self.triples == old(self).triples,
                self.lower == old(self).lower,
                self.counted == old(self).counted,
                forall|x: int, y: int|
                    0 <= x < a && x <= y < n ==> #[trigger] self.edge_cost.cell(x, y) == 0,
                forall|x: int, y: int|
                    0 <= x < a && x <= y < n ==> #[trigger] self.edge_conflicts.cell(x, y) == 0,
            decreases n - a,
        {
            let mut b: usize = a;
            while b < n
                invariant
                    n == graph.cap(),
                    a < n,
                    a <= b <= n,
                    self.edge_conflicts.wf(),
                    self.edge_conflicts.spec_len() == n,
                    self.edge_cost.wf(),
                    self.edge_cost.spec_len() == n,
                    self.triples == old(self).triples,
                    self.lower == old(self).lower,
                    self.counted == old(self).counted,
                    forall|x: int, y: int|
                        0 <= x <= y < n && (x < a || (x == a && y < b))
                            ==> #[trigger] self.edge_cost.cell(x, y) == 0,
                    forall|x: int, y: int|
                        0 <= x <= y < n && (x < a || (x == a && y < b))
                            ==> #[trigger] self.edge_conflicts.cell(x, y) == 0,
                decreases n - b,
            {
                self.edge_conflicts.set(a, b, 0);
                self.edge_cost.set(a, b, 0);
                b += 1;
            }
            a += 1;
        }
    }

    /// Rebuilds the packing from nothing: every triple of active vertices
    /// takes its turn, in the order of the positions of its vertices.
    pub fn pack(&mut self, graph: &Graph)
        requires
            graph.wf(),
            old(self).edge_conflicts.wf(),
            old(self).edge_conflicts.spec_len() == graph.cap(),
            old(self).edge_cost.wf(),
            old(self).edge_cost.spec_len() == graph.cap(),
        ensures
            final(self).wf(graph),
            final(self).counted@ == all_triples(graph),
            final(self).triples@ == pack_triples(graph),
    {
        self.triples.clear();
        self.lower = 0;
        self.counted = Ghost(Set::empty());
        self.clear_all(graph);
        let n: usize = graph.active.len();
        proof {
            lemma_counted_bounds(graph, 0, 1);
            assert forall|a: int, b: int| #[trigger] graph.is_pair(a, b) implies counted_conflicts(
                graph,
                self.counted@,
                a,
                b,
            ) == 0 by {
                crate::sums::lemma_sum_zero(
                    |c: int| counted_term(graph, self.counted@, a, b, c),
                    graph.cap(),
                );
            }
        }
        let mut i1: usize = 0;
        while i1 < n
            invariant
                graph.wf(),
                n == graph.active.len(),
                i1 <= n,
                self.wf(graph),
                self.counted@ == counted_upto(graph, i1 as int, 0, 0),
                self.triples@ == pack_outer(graph, Seq::empty(), i1 as int),
            decreases n - i1,
        {
            let v1: usize = graph.active[i1];
            let mut i2: usize = i1 + 1;
            let ghost start = self.triples@;
            proof {
                lemma_counted_bounds(graph, i1 as int, i1 as int + 1);
            }
            while i2 < n
                invariant
                    graph.wf(),
                    n == graph.active.len(),
                    i1 < i2 <= n,
                    v1 == graph.active@[i1 as int],
                    self.wf(graph),
                    self.counted@ == counted_upto(graph, i1 as int, i2 as int, 0),
                    self.triples@ == pack_middle(graph, start, i1 as int, i2 as int),
                decreases n - i2,
            {
                let v2: usize = graph.active[i2];
                let mut i3: usize = i2 + 1;
                let ghost mid = self.triples@;
                proof {
                    lemma_counted_bounds(graph, i1 as int, i2 as int);
                }
                while i3 < n
                    invariant
                        graph.wf(),
                        n == graph.active.len(),
                        i1 < i2 < i3 <= n,
                        v1 == graph.active@[i1 as int],
                        v2 == graph.active@[i2 as int],
                        self.wf(graph),
                        self.counted@ == counted_upto(graph, i1 as int, i2 as int, i3 as int),
                        self.triples@ == pack_inner(graph, mid, i1 as int, i2 as int, i3 as int),
                    decreases n - i3,
                {
                    let v3: usize = graph.active[i3];
                    proof {
                        lemma_counted_step(graph, i1 as int, i2 as int, i3 as int);
                    }
                    self.add_triple(graph, v1, v2, v3);
                    i3 += 1;
                }
                proof {
                    lemma_counted_bounds(graph, i1 as int, i2 as int);
                }
                i2 += 1;
            }
            proof {
                lemma_counted_bounds(graph, i1 as int, i1 as int + 1);
            }
            i1 += 1;
        }
        proof {
            lemma_counted_bounds(graph, 0, 1);
        }
    }
}

impl Packing {
    /// `self` holds what `other` holds.
    pub open spec fn same_as(&self, other: &Packing) -> bool {
        &&& self.triples@ == other.triples@
        &&& self.lower == other.lower
        &&& self.counted@ == other.counted@
        &&& self.edge_cost.wf() == other.edge_cost.wf()
        &&& self.edge_cost.spec_len() == other.edge_cost.spec_len()
        &&& self.edge_conflicts.wf() == other.edge_conflicts.wf()
        &&& self.edge_conflicts.spec_len() == other.edge_conflicts.spec_len()
        &&& forall|lo: int, hi: int| #[trigger]
            self.edge_cost.cell(lo, hi) == other.edge_cost.cell(lo, hi)
        &&& forall|lo: int, hi: int| #[trigger]
            self.edge_conflicts.cell(lo, hi) == other.edge_conflicts.cell(lo, hi)
    }
}

impl Clone for Packing {
    /// A copy of the packing.
    fn clone(&self) -> (p: Self)
        ensures
            p.same_as(self),
    {
        let mut triples: Vec<Triple> = Vec::new();
        let mut i: usize = 0;
        while i < self.triples.len()
            invariant
                i <= self.triples.len(),
                triples.len() == i,
                forall|k: int| 0 <= k < i ==> triples@[k] == self.triples@[k],
            decreases self.triples.len() - i,
        {
            triples.push(self.triples[i]);
            i += 1;
        }
        assert(triples@ =~= self.triples@);
        Packing {
            triples,
            edge_conflicts: self.edge_conflicts.clone(),
            edge_cost: self.edge_cost.clone(),
            lower: self.lower,
            counted: Ghost(self.counted@),
        }
    }
}

/// A packing that holds what a packing in order holds is in order.
pub proof fn lemma_packing_same(p: &Packing, q: &Packing, g: &Graph)
    requires
        p.wf(g),
        q.same_as(p),
    ensures
        q.wf(g),
{
    assert forall|a: int, b: int| q.edge_cost.at(a, b) == p.edge_cost.at(a, b)
        && q.edge_conflicts.at(a, b) == p.edge_conflicts.at(a, b) by {}
}

} // verus!
