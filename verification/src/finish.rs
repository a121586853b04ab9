//! Measures of a graph, and the last steps of a solution.

use vstd::prelude::*;
use crate::graph::Graph;
use crate::merge::{lemma_active_below_len, lemma_merge_wf, lemma_two_edges_fit};
use crate::forest::{lemma_root, lemma_root_merged};
use crate::cost::lemma_singletons_cost;
use crate::sums::{
    pair_sum, pair_sum_upto, lemma_pair_sum_upto, lemma_pair_sum_over_seq, lemma_square_le,
    lemma_square_is_twice_pairs,
};

verus! {

impl Graph {
    /// One for a positive pair of active vertices, zero for any other pair.
    pub open spec fn positive_one(&self, a: int, b: int) -> int {
        if self.is_pair(a, b) && self.weight(a, b) > 0 {
            1
        } else {
            0
        }
    }

    /// The number of positive pairs of active vertices.
    pub open spec fn positive_count(&self) -> int {
        pair_sum(|a: int, b: int| self.positive_one(a, b), self.cap())
    }

    /// The number of positive edges among the active vertices.
    pub fn edge_count(&self) -> (total: u32)
        requires
            self.wf(),
        ensures
            total == self.positive_count(),
    {
        let n: usize = self.active.len();
        let ghost f = |a: int, b: int| self.positive_one(a, b);
        let ghost fs = |i: int, j: int| self.positive_one(self.at(i), self.at(j));
        let ghost w = |a: int, b: int| self.positive_part(a, b);
        proof {
            self.lemma_active_in_range();
            self.lemma_pairs_over_positions(f, fs);
            lemma_singletons_cost(self);
            assert forall|a: int, b: int|
                0 <= a < self.cap() && 0 <= b < self.cap() implies #[trigger] f(a, b) <= w(
                a,
                b,
            ) by {}
            lemma_square_le(f, w, self.cap());
            assert forall|a: int, b: int|
                0 <= a < self.cap() && 0 <= b < self.cap() implies #[trigger] w(a, b) == w(
                b,
                a,
            ) by {
                assert(self.edge(a, b) == self.edge(b, a));
            }
            lemma_square_is_twice_pairs(f, self.cap());
            lemma_square_is_twice_pairs(w, self.cap());
        }
        let mut total: u32 = 0;
        let mut i: usize = 0;
        while i < n
            invariant
                self.wf(),
                n == self.active.len(),
                i <= n,
                fs == |i: int, j: int| self.positive_one(self.at(i), self.at(j)),
                pair_sum(fs, n as int) <= i32::MAX,
                total == pair_sum_upto(fs, i as int, 0),
            decreases n - i,
        {
            let v1: usize = self.active[i];
            let mut j: usize = 0;
            while j < i
                invariant
                    self.wf(),
                    n == self.active.len(),
                    i < n,
                    j <= i,
                    v1 == self.active@[i as int],
                    fs == |i: int, j: int| self.positive_one(self.at(i), self.at(j)),
                    pair_sum(fs, n as int) <= i32::MAX,
                    total == pair_sum_upto(fs, i as int, j as int),
                decreases i - j,
            {
                let v2: usize = self.active[j];
                proof {
                    assert(self.is_active(v1 as int) && self.is_active(v2 as int));
                    lemma_active_below_len(self, v1 as int);
                    lemma_active_below_len(self, v2 as int);
                    lemma_pair_sum_upto(fs, i as int, j as int, n as int);
                    lemma_pair_sum_upto(fs, i as int, j as int + 1, n as int);
                }
                if self.edges.get(v1, v2).weight > 0 {
                    total += 1;
                }
                j += 1;
            }
            proof {
                lemma_pair_sum_upto(fs, i as int, i as int, n as int);
            }
            i += 1;
        }
        proof {
            assert(crate::sums::row_sum(fs, n as int, 0) == 0);
        }
        total
    }

    /// The weights of all positive edges among the active vertices: what it
    /// costs to leave every vertex alone.
    pub fn positive_weight(&self) -> (total: u32)
        requires
            self.wf(),
        ensures
            total == self.positive_total(),
    {
        let n: usize = self.active.len();
        let ghost f = |a: int, b: int| self.positive_part(a, b);
        let ghost fs = |i: int, j: int| self.positive_part(self.at(i), self.at(j));
        proof {
            self.lemma_active_in_range();
            self.lemma_pairs_over_positions(f, fs);
            lemma_singletons_cost(self);
        }
        let mut total: u32 = 0;
        let mut i: usize = 0;
        while i < n
            invariant
                self.wf(),
                n == self.active.len(),
                i <= n,
                fs == |i: int, j: int| self.positive_part(self.at(i), self.at(j)),
                pair_sum(fs, n as int) <= i32::MAX,
                total == pair_sum_upto(fs, i as int, 0),
            decreases n - i,
        {
            let v1: usize = self.active[i];
            let mut j: usize = 0;
            while j < i
                invariant
                    self.wf(),
                    n == self.active.len(),
                    i < n,
                    j <= i,
                    v1 == self.active@[i as int],
                    fs == |i: int, j: int| self.positive_part(self.at(i), self.at(j)),
                    pair_sum(fs, n as int) <= i32::MAX,
                    total == pair_sum_upto(fs, i as int, j as int),
                decreases i - j,
            {
                let v2: usize = self.active[j];
                proof {
                    assert(self.is_active(v1 as int) && self.is_active(v2 as int));
                    lemma_active_below_len(self, v1 as int);
                    lemma_active_below_len(self, v2 as int);
                    lemma_pair_sum_upto(fs, i as int, j as int, n as int);
                    lemma_pair_sum_upto(fs, i as int, j as int + 1, n as int);
                }
                let weight: i32 = self.edges.get(v1, v2).weight;
                if weight > 0 {
                    total += weight as u32;
                }
                j += 1;
            }
            proof {
                lemma_pair_sum_upto(fs, i as int, i as int, n as int);
            }
            i += 1;
        }
        proof {
            assert(crate::sums::row_sum(fs, n as int, 0) == 0);
        }
        total
    }

    /// The active vertices of a well-formed graph are within its room.
    pub proof fn lemma_active_in_range(&self)
        requires
            self.wf(),
        ensures
            forall|k: int| 0 <= k < self.active.len() ==> (#[trigger] self.active@[k]) < self.cap(),
    {
        assert forall|k: int| 0 <= k < self.active.len() implies (#[trigger] self.active@[k])
            < self.cap() by {
            assert(self.is_active(self.active@[k] as int));
            lemma_active_below_len(self, self.active@[k] as int);
        }
    }

    /// A sum over the pairs of active vertices can be taken over the pairs
    /// of their positions.
    pub proof fn lemma_pairs_over_positions(
        &self,
        f: spec_fn(int, int) -> int,
        fs: spec_fn(int, int) -> int,
    )
        requires
            self.active@.no_duplicates(),
            forall|k: int| 0 <= k < self.active.len() ==> (#[trigger] self.active@[k]) < self.cap(),
            forall|a: int, b: int| #[trigger] f(a, b) == f(b, a),
            forall|a: int, b: int| !self.is_pair(a, b) ==> #[trigger] f(a, b) == 0,
            forall|i: int, j: int| #[trigger] fs(i, j) == f(self.at(i), self.at(j)),
        ensures
            pair_sum(fs, self.active.len() as int) == pair_sum(f, self.cap()),
            crate::sums::square_sum(f, self.cap()) == 2 * pair_sum(f, self.cap()),
    {
        assert forall|a: int| 0 <= a < self.cap() implies #[trigger] f(a, a) == 0 by {
            assert(!self.is_pair(a, a));
        }
        lemma_pair_sum_over_seq(self.active@, f, fs, self.cap());
        lemma_square_is_twice_pairs(f, self.cap());
    }
}


/// What `select` returns: each entry holds a position after `from`, the
/// vertex that stands before it, which satisfies `keep`; the positions ascend.
pub proof fn lemma_select(g: &Graph, from: int, upto: int, keep: spec_fn(int) -> bool)
    requires
        0 <= from,
        upto <= g.active.len(),
    ensures
        forall|m: int|
            0 <= m < g.select(from, upto, keep).len() ==> {
                let e = #[trigger] g.select(from, upto, keep)[m];
                &&& from < e.0 <= upto
                &&& e.1 == g.active@[e.0 - 1]
                &&& keep(e.1 as int)
            },
        forall|m: int, l: int|
            0 <= m < l < g.select(from, upto, keep).len() ==> g.select(from, upto, keep)[m].0
                < g.select(from, upto, keep)[l].0,
    decreases upto - from,
{
    if upto > from {
        lemma_select(g, from, upto - 1, keep);
        let rest = g.select(from, upto - 1, keep);
        let all = g.select(from, upto, keep);
        let v = g.active@[upto - 1];
        assert forall|m: int| 0 <= m < all.len() implies {
            let e = #[trigger] all[m];
            &&& from < e.0 <= upto
            &&& e.1 == g.active@[e.0 - 1]
            &&& keep(e.1 as int)
        } by {
            if m < rest.len() {
                assert(all[m] == rest[m]);
            }
        }
        assert forall|m: int, l: int| 0 <= m < l < all.len() implies all[m].0 < all[l].0 by {
            assert(all[m] == rest[m]);
            if l < rest.len() {
                assert(all[l] == rest[l]);
            }
        }
    }
}

/// Merging two vertices that share a positive edge keeps a graph free of
/// conflicts, and gives the merged vertex positive edges to the vertices
/// that either of the two had a positive edge to.
pub proof fn lemma_merge_conflict_free(g: &Graph, h: &Graph, v1: usize, v2: usize)
    requires
        g.wf(),
        g.conflict_free(),
        g.is_pair(v1 as int, v2 as int),
        g.weight(v1 as int, v2 as int) > 0,
        h.merged_from(g, v1, v2),
    ensures
        h.conflict_free(),
        forall|b: int|
            g.is_third(v1 as int, v2 as int, b) ==> ((#[trigger] h.weight(g.len as int, b) > 0)
                == (g.weight(v1 as int, b) > 0)) && ((g.weight(v1 as int, b) > 0) == (g.weight(
                v2 as int,
                b,
            ) > 0)),
{
    let a1 = v1 as int;
    let a2 = v2 as int;
    let vv = g.len as int;
    assert(g.edge(a1, a2).ok());
    lemma_merge_wf(g, h, v1, v2);
    assert forall|b: int| g.is_third(a1, a2, b) implies ((#[trigger] h.weight(vv, b) > 0) == (
    g.weight(a1, b) > 0)) && ((g.weight(a1, b) > 0) == (g.weight(a2, b) > 0)) by {
        assert(g.is_triple(a1, a2, b));
        assert(g.is_pair(a1, b) && g.is_pair(a2, b));
        assert(g.edge(a1, b).ok() && g.edge(a2, b).ok());
        lemma_two_edges_fit(g, a1, a2, b);
        assert(h.edge(vv, b) == g.merged_edge(a1, a2, b));
    }
    assert forall|a: int, b: int, c: int| #[trigger] h.is_triple(a, b, c) implies !h.is_conflict(
        a,
        b,
        c,
    ) by {
        let x = if a == vv {
            a1
        } else {
            a
        };
        let y = if b == vv {
            a1
        } else {
            b
        };
        let z = if c == vv {
            a1
        } else {
            c
        };
        lemma_active_below_len(g, a1);
        if a != vv {
            lemma_active_below_len(g, a);
        }
        if b != vv {
            lemma_active_below_len(g, b);
        }
        if c != vv {
            lemma_active_below_len(g, c);
        }
        assert(g.is_triple(x, y, z));
        assert(h.edge(a, b) == h.edge(b, a));
        assert(h.edge(a, c) == h.edge(c, a));
        assert(h.edge(b, c) == h.edge(c, b));
        assert(g.edge(x, y) == g.edge(y, x));
        assert(g.edge(x, z) == g.edge(z, x));
        assert(g.edge(y, z) == g.edge(z, y));
        lemma_sign_kept(g, h, v1, v2, a, b);
        lemma_sign_kept(g, h, v1, v2, a, c);
        lemma_sign_kept(g, h, v1, v2, b, c);
    }
}

proof fn lemma_sign_kept(g: &Graph, h: &Graph, v1: usize, v2: usize, a: int, b: int)
    requires
        g.wf(),
        h.wf(),
        g.is_pair(v1 as int, v2 as int),
        h.merged_from(g, v1, v2),
        h.is_pair(a, b),
        forall|v: int| h.is_active(v) <==> (v == g.len || g.is_third(v1 as int, v2 as int, v)),
        forall|b: int|
            g.is_third(v1 as int, v2 as int, b) ==> ((#[trigger] h.weight(g.len as int, b) > 0)
                == (g.weight(v1 as int, b) > 0)),
    ensures
        (h.weight(a, b) > 0) == (g.weight(
            if a == g.len {
                v1 as int
            } else {
                a
            },
            if b == g.len {
                v1 as int
            } else {
                b
            },
        ) > 0),
{
    let vv = g.len as int;
    lemma_active_below_len(h, a);
    lemma_active_below_len(h, b);
    if a == vv {
        assert(g.is_third(v1 as int, v2 as int, b));
        assert((h.weight(vv, b) > 0) == (g.weight(v1 as int, b) > 0));
    } else if b == vv {
        assert(g.is_third(v1 as int, v2 as int, a));
        assert((h.weight(vv, a) > 0) == (g.weight(v1 as int, a) > 0));
        assert(h.edge(a, b) == h.edge(b, a));
        assert(g.edge(a, v1 as int) == g.edge(v1 as int, a));
    } else {
        assert(h.edge(a, b) == g.edge(a, b));
    }
}

impl Graph {
    /// No active vertex shares a positive edge with the active vertex `r`.
    pub open spec fn settled(&self, r: int) -> bool {
        forall|z: int| self.is_active(z) && z != r ==> #[trigger] self.weight(r, z) <= 0
    }

    /// `self` is what some merges of clusters have made of `o`: the forest
    /// of `o` goes on in `self`, and two active vertices of `o` share a
    /// positive edge where the vertices that stand for them are the same or
    /// share one.
    pub open spec fn finishes(&self, o: &Graph) -> bool {
        &&& self.cap() == o.cap()
        &&& o.len <= self.len
        &&& forall|v: int|
            0 <= v < self.cap() ==> #[trigger] self.root_spec(v) == self.root_spec(o.root_spec(v))
        &&& forall|x: int| o.is_active(x) ==> self.is_active(#[trigger] self.root_spec(x))
        &&& forall|z: int| #[trigger] self.is_active(z) ==> o.is_active(z) || z >= o.len
        &&& forall|x: int, y: int| #[trigger]
            o.is_pair(x, y) ==> (self.root_spec(x) == self.root_spec(y) || self.weight(
                self.root_spec(x),
                self.root_spec(y),
            ) > 0) == (o.weight(x, y) > 0)
        &&& forall|u: int|
            0 <= u < o.len && !o.is_active(u) ==> #[trigger] self.vertex_merged@[u]
                == o.vertex_merged@[u]
        &&& forall|x: int|
            o.is_active(x) ==> (#[trigger] self.vertex_merged@[x] matches Some(p) ==> p >= o.len)
    }
}

/// A graph finishes itself.
pub proof fn lemma_finishes_start(o: &Graph)
    requires
        o.wf(),
    ensures
        o.finishes(o),
{
    assert forall|v: int| 0 <= v < o.cap() implies #[trigger] o.root_spec(v) == o.root_spec(
        o.root_spec(v),
    ) by {
        lemma_root(o, v);
    }
    assert forall|x: int| o.is_active(x) implies o.is_active(#[trigger] o.root_spec(x)) by {
        lemma_active_below_len(o, x);
        lemma_root(o, x);
    }
    assert forall|x: int, y: int| #[trigger] o.is_pair(x, y) implies (o.root_spec(x) == o.root_spec(
        y,
    ) || o.weight(o.root_spec(x), o.root_spec(y)) > 0) == (o.weight(x, y) > 0) by {
        lemma_active_below_len(o, x);
        lemma_active_below_len(o, y);
        lemma_root(o, x);
        lemma_root(o, y);
    }
    assert forall|x: int| o.is_active(x) implies (#[trigger] o.vertex_merged@[x] matches Some(p)
        ==> p >= o.len) by {
        lemma_active_below_len(o, x);
    }
}

/// A merge of two vertices that share a positive edge goes on finishing.
pub proof fn lemma_finishes_merge(o: &Graph, g: &Graph, h: &Graph, v1: usize, v2: usize)
    requires
        o.wf(),
        g.wf(),
        g.conflict_free(),
        g.finishes(o),
        g.is_pair(v1 as int, v2 as int),
        g.weight(v1 as int, v2 as int) > 0,
        h.merged_from(g, v1, v2),
    ensures
        h.finishes(o),
{
    let vv = g.len as int;
    let a1 = v1 as int;
    let a2 = v2 as int;
    lemma_merge_wf(g, h, v1, v2);
    lemma_merge_conflict_free(g, h, v1, v2);
    lemma_active_below_len(g, a1);
    lemma_active_below_len(g, a2);
    assert forall|v: int| 0 <= v < h.cap() implies #[trigger] h.root_spec(v) == h.root_spec(
        o.root_spec(v),
    ) by {
        lemma_root(o, v);
        lemma_root_merged(g, h, v1, v2, v);
        lemma_root_merged(g, h, v1, v2, o.root_spec(v));
        assert(g.root_spec(v) == g.root_spec(o.root_spec(v)));
    }
    assert forall|x: int| o.is_active(x) implies h.is_active(#[trigger] h.root_spec(x)) by {
        lemma_active_below_len(o, x);
        lemma_root_merged(g, h, v1, v2, x);
        assert(g.is_active(g.root_spec(x)));
    }
    assert forall|x: int, y: int| #[trigger] o.is_pair(x, y) implies (h.root_spec(x) == h.root_spec(
        y,
    ) || h.weight(h.root_spec(x), h.root_spec(y)) > 0) == (o.weight(x, y) > 0) by {
        lemma_active_below_len(o, x);
        lemma_active_below_len(o, y);
        lemma_root_merged(g, h, v1, v2, x);
        lemma_root_merged(g, h, v1, v2, y);
        let rx = g.root_spec(x);
        let ry = g.root_spec(y);
        assert(g.is_active(rx) && g.is_active(ry));
        lemma_active_below_len(g, rx);
        lemma_active_below_len(g, ry);
        assert(g.edge(a1, a2) == g.edge(a2, a1));
        let inx = rx == a1 || rx == a2;
        let iny = ry == a1 || ry == a2;
        assert((rx == ry || g.weight(rx, ry) > 0) == (o.weight(x, y) > 0));
        if inx && !iny {
            assert(g.is_third(a1, a2, ry));
            assert(h.root_spec(x) == vv && h.root_spec(y) == ry);
            assert((h.weight(vv, ry) > 0) == (g.weight(a1, ry) > 0));
            assert((g.weight(a1, ry) > 0) == (g.weight(a2, ry) > 0));
        } else if !inx && iny {
            assert(g.is_third(a1, a2, rx));
            assert(h.root_spec(x) == rx && h.root_spec(y) == vv);
            assert((h.weight(vv, rx) > 0) == (g.weight(a1, rx) > 0));
            assert((g.weight(a1, rx) > 0) == (g.weight(a2, rx) > 0));
            assert(h.edge(vv, rx) == h.edge(rx, vv));
            assert(g.edge(a1, rx) == g.edge(rx, a1));
            assert(g.edge(a2, rx) == g.edge(rx, a2));
        } else if !inx && !iny {
            assert(h.root_spec(x) == rx && h.root_spec(y) == ry);
            if rx != ry {
                assert(h.edge(rx, ry) == g.edge(rx, ry));
            }
        } else {
            assert(h.root_spec(x) == vv && h.root_spec(y) == vv);
        }
    }
    assert forall|u: int| 0 <= u < o.len && !o.is_active(u) implies #[trigger] h.vertex_merged@[u]
        == o.vertex_merged@[u] by {
        assert(g.is_active(a1) && g.is_active(a2));
    }
    assert forall|x: int| o.is_active(x) implies (#[trigger] h.vertex_merged@[x] matches Some(p)
        ==> p >= o.len) by {
        lemma_active_below_len(o, x);
    }
}

/// A vertex that shares no positive edge stays so when two others are merged.
pub proof fn lemma_settled_merge(g: &Graph, h: &Graph, v1: usize, v2: usize, r: int)
    requires
        g.wf(),
        g.conflict_free(),
        g.is_pair(v1 as int, v2 as int),
        g.weight(v1 as int, v2 as int) > 0,
        h.merged_from(g, v1, v2),
        g.is_active(r),
        g.settled(r),
    ensures
        r != v1,
        r != v2,
        h.is_active(r),
        h.settled(r),
{
    let vv = g.len as int;
    let a1 = v1 as int;
    let a2 = v2 as int;
    lemma_merge_wf(g, h, v1, v2);
    lemma_merge_conflict_free(g, h, v1, v2);
    lemma_active_below_len(g, r);
    assert(g.edge(a1, a2) == g.edge(a2, a1));
    if r == a1 {
        assert(g.weight(r, a2) <= 0);
    }
    if r == a2 {
        assert(g.weight(r, a1) <= 0);
    }
    assert(g.is_third(a1, a2, r));
    assert forall|z: int| h.is_active(z) && z != r implies #[trigger] h.weight(r, z) <= 0 by {
        if z == vv {
            assert(h.edge(vv, r) == h.edge(r, vv));
            assert(g.weight(r, a1) <= 0);
            assert(g.edge(a1, r) == g.edge(r, a1));
            assert((h.weight(vv, r) > 0) == (g.weight(a1, r) > 0));
        } else {
            assert(g.is_third(a1, a2, z));
            lemma_active_below_len(g, z);
            assert(g.weight(r, z) <= 0);
            assert(h.edge(r, z) == g.edge(r, z));
        }
    }
}

/// Completes a solution: in a graph without conflicts, merges every vertex
/// with all the vertices that it shares a positive edge with. After that
/// two vertices are stood for by the same vertex where they shared a
/// positive edge, and by two vertices otherwise.
pub fn finish_solve(output: &mut Graph)
    requires
        old(output).wf(),
        old(output).conflict_free(),
    ensures
        final(output).wf(),
        final(output).conflict_free(),
        final(output).finishes(old(output)),
        final(output).len + final(output).active.len() == old(output).len + old(
            output,
        ).active.len(),
        forall|x: int, y: int| #[trigger]
            old(output).is_pair(x, y) ==> (final(output).root_spec(x) == final(output).root_spec(y))
                == (old(output).weight(x, y) > 0),
{
    let ghost o = *old(output);
    let order: Vec<usize> = output.active.clone();
    proof {
        assert(order@ =~= o.active@);
        lemma_finishes_start(&o);
    }
    let mut i: usize = 0;
    while i < order.len()
        invariant
            o.wf(),
            output.wf(),
            output.conflict_free(),
            output.finishes(&o),
            output.len + output.active.len() == o.len + o.active.len(),
            order@ == o.active@,
            i <= order.len(),
            forall|k: int|
                0 <= k < order.len() ==> (#[trigger] order@[k]) < output.cap() && (
                output.is_active(order@[k] as int) || output.vertex_merged@[order@[k] as int]
                    is Some),
            forall|y: int|
                o.is_active(y) && (output.vertex_merged@[y] is Some || o.place(y) < i)
                    ==> output.settled(#[trigger] output.root_spec(y)),
        decreases order.len() - i,
    {
        let u: usize = order[i];
        proof {
            crate::order::lemma_position(o.active@, i as int);
            assert(o.is_active(u as int));
            lemma_active_below_len(&o, u as int);
        }
        match output.vertex_merged[u] {
            Some(_) => {},
            None => {
                let friends = output.positive(u, 0);
                let mut x: usize = u;
                let mut j: usize = 0;
                let ghost keep = output.keeps_positive(u as int);
                proof {
                    lemma_root(output, u as int);
                    lemma_select(output, 0, output.active.len() as int, keep);
                    assert forall|k: int| 0 <= k < friends.len() implies output.is_active(
                        (#[trigger] friends@[k]).1 as int,
                    ) && friends@[k].1 != x && output.weight(x as int, friends@[k].1 as int)
                        > 0 by {
                        let e = friends@[k];
                        assert(keep(e.1 as int));
                        assert(output.active@[e.0 - 1] == e.1);
                    }
                    assert forall|k: int, l: int| 0 <= k < l < friends.len() implies (
                    #[trigger] friends@[k]).1 != (#[trigger] friends@[l]).1 by {
                        assert(friends@[k].0 < friends@[l].0);
                    }
                    assert forall|z: int|
                        output.is_active(z) && z != x && output.weight(x as int, z)
                            > 0 implies exists|k: int|
                        0 <= k < friends.len() && (#[trigger] friends@[k]).1 == z by {
                        crate::component::lemma_select_complete(
                            output,
                            0,
                            output.active.len() as int,
                            keep,
                            z,
                        );
                    }
                }
                while j < friends.len()
                    invariant
                        o.wf(),
                        output.wf(),
                        output.conflict_free(),
                        output.finishes(&o),
                        output.len + output.active.len() == o.len + o.active.len(),
                        order@ == o.active@,
                        i < order.len(),
                        u == order@[i as int],
                        o.is_active(u as int),
                        o.place(u as int) == i,
                        j <= friends.len(),
                        output.is_active(x as int),
                        output.root_spec(u as int) == x,
                        forall|k: int|
                            j <= k < friends.len() ==> output.is_active(
                                (#[trigger] friends@[k]).1 as int,
                            ) && friends@[k].1 != x && output.weight(
                                x as int,
                                friends@[k].1 as int,
                            ) > 0,
                        forall|k: int, l: int|
                            0 <= k < l < friends.len() ==> (#[trigger] friends@[k]).1 != (
                            #[trigger] friends@[l]).1,
                        forall|z: int|
                            output.is_active(z) && z != x && output.weight(x as int, z)
                                > 0 ==> exists|k: int|
                                j <= k < friends.len() && (#[trigger] friends@[k]).1 == z,
                        forall|k: int|
                            0 <= k < order.len() ==> (#[trigger] order@[k]) < output.cap() && (
                            output.is_active(order@[k] as int)
                                || output.vertex_merged@[order@[k] as int] is Some),
                        forall|y: int|
                            o.is_active(y) && (output.vertex_merged@[y] is Some || o.place(y) < i)
                                ==> output.root_spec(y) == x || output.settled(
                                #[trigger] output.root_spec(y),
                            ),
                    decreases friends.len() - j,
                {
                    let v2: usize = friends[j].1;
                    let ghost g = *output;
                    proof {
                        assert(g.is_pair(x as int, v2 as int));
                        assert(g.edge(x as int, v2 as int).ok());
                    }
                    let (vv, _) = output.merge(x, v2);
                    proof {
                        lemma_merge_conflict_free(&g, output, x, v2);
                        lemma_merge_wf(&g, output, x, v2);
                        lemma_finishes_merge(&o, &g, output, x, v2);
                        lemma_active_below_len(&g, x as int);
                        lemma_active_below_len(&g, v2 as int);
                        lemma_root_merged(&g, output, x, v2, u as int);
                        assert forall|k: int| j + 1 <= k < friends.len() implies output.is_active(
                            (#[trigger] friends@[k]).1 as int,
                        ) && friends@[k].1 != vv && output.weight(vv as int, friends@[k].1 as int)
                            > 0 by {
                            let b = friends@[k].1 as int;
                            assert(friends@[j as int].1 != friends@[k].1);
                            assert(g.is_third(x as int, v2 as int, b));
                            lemma_active_below_len(&g, b);
                        }
                        assert forall|z: int|
                            output.is_active(z) && z != vv && output.weight(vv as int, z)
                                > 0 implies exists|k: int|
                            j + 1 <= k < friends.len() && (#[trigger] friends@[k]).1 == z by {
                            assert(g.is_third(x as int, v2 as int, z));
                            assert(g.weight(x as int, z) > 0);
                            let k = choose|k: int|
                                j <= k < friends.len() && (#[trigger] friends@[k]).1 == z;
                            assert(k != j);
                        }
                        assert forall|k: int| 0 <= k < order.len() implies (#[trigger] order@[k])
                            < output.cap() && (output.is_active(order@[k] as int)
                            || output.vertex_merged@[order@[k] as int] is Some) by {
                            let c = order@[k] as int;
                            if g.is_active(c) && c != x && c != v2 {
                                assert(g.is_third(x as int, v2 as int, c));
                            }
                        }
                        assert forall|y: int|
                            o.is_active(y) && (output.vertex_merged@[y] is Some || o.place(y)
                                < i) implies output.root_spec(y) == vv || output.settled(
                            #[trigger] output.root_spec(y),
                        ) by {
                            lemma_active_below_len(&o, y);
                            lemma_root_merged(&g, output, x, v2, y);
                            let r = g.root_spec(y);
                            assert(g.is_active(r));
                            if g.vertex_merged@[y] is Some || o.place(y) < i {
                                if r != x {
                                    lemma_settled_merge(&g, output, x, v2, r);
                                }
                            } else {
                                lemma_root(&g, y);
                            }
                        }
                    }
                    x = vv;
                    j += 1;
                }
                proof {
                    assert(output.settled(x as int)) by {
                        assert forall|z: int|
                            output.is_active(z) && z != x implies #[trigger] output.weight(
                            x as int,
                            z,
                        ) <= 0 by {
                            if output.weight(x as int, z) > 0 {
                                let k = choose|k: int|
                                    j <= k < friends.len() && (#[trigger] friends@[k]).1 == z;
                            }
                        }
                    }
                }
            },
        }
        proof {
            assert forall|y: int|
                o.is_active(y) && (output.vertex_merged@[y] is Some || o.place(y) < i + 1)
                implies output.settled(#[trigger] output.root_spec(y)) by {
                if !(output.vertex_merged@[y] is Some || o.place(y) < i) {
                    crate::turns::lemma_place(&o, y);
                    assert(y == u);
                }
            }
        }
        i += 1;
    }
    proof {
        assert forall|x: int, y: int| #[trigger] o.is_pair(x, y) implies (output.root_spec(x)
            == output.root_spec(y)) == (o.weight(x, y) > 0) by {
            crate::turns::lemma_place(&o, x);
            crate::turns::lemma_place(&o, y);
            let rx = output.root_spec(x);
            let ry = output.root_spec(y);
            assert(output.settled(rx));
            assert(output.is_active(ry));
        }
    }
}


/// A third vertex on which the two ends of a positive edge disagree makes a conflict.
pub proof fn lemma_disagree_conflict(g: &Graph, a: int, b: int, c: int)
    requires
        a != b,
        a != c,
        b != c,
    ensures
        g.weight(a, b) > 0 && g.disagree(a, b, c) ==> g.is_conflict(a, b, c),
        g.is_conflict(a, b, c) ==> (g.weight(a, b) > 0 && g.disagree(a, b, c)) || (g.weight(a, c)
            > 0 && g.disagree(a, c, b)),
{
    assert(g.edge(a, b) == g.edge(b, a));
    assert(g.edge(a, c) == g.edge(c, a));
    assert(g.edge(b, c) == g.edge(c, b));
}

impl Graph {
    /// Whether the positive pair at the positions `p < q` has no third
    /// vertex on which its ends disagree.
    pub open spec fn calm(&self, p: int, q: int) -> bool {
        self.weight(self.at(p), self.at(q)) > 0 ==> forall|c: int|
            self.is_third(self.at(p), self.at(q), c) ==> !#[trigger] self.disagree(
                self.at(p),
                self.at(q),
                c,
            )
    }

    /// Goes through a graph without conflicts as `is_easy` does; a graph
    /// with a conflict is not to be handed in.
    pub fn check_easy(&self)
        requires
            self.wf(),
            self.conflict_free(),
    {
        let easy = self.is_easy();
        assert(easy);
    }

    /// Whether the graph is easy: no three active vertices are in conflict.
    pub fn is_easy(&self) -> (easy: bool)
        requires
            self.wf(),
        ensures
            easy == self.conflict_free(),
    {
        let n: usize = self.active.len();
        let mut i1: usize = 0;
        while i1 < n
            invariant
                self.wf(),
                n == self.active.len(),
                i1 <= n,
                forall|p: int, q: int| 0 <= p < i1 && p < q < n ==> #[trigger] self.calm(p, q),
            decreases n - i1,
        {
            let v1: usize = self.active[i1];
            proof {
                assert(self.is_active(v1 as int));
                lemma_active_below_len(self, v1 as int);
            }
            let friends = self.positive(v1, i1 + 1);
            let ghost keep = self.keeps_positive(v1 as int);
            proof {
                lemma_select(self, i1 as int + 1, n as int, keep);
            }
            let mut j: usize = 0;
            while j < friends.len()
                invariant
                    self.wf(),
                    n == self.active.len(),
                    i1 < n,
                    v1 == self.active@[i1 as int],
                    v1 < self.cap(),
                    j <= friends.len(),
                    friends@ == self.select(i1 as int + 1, n as int, keep),
                    forall|m: int|
                        0 <= m < friends.len() ==> {
                            let e = #[trigger] friends@[m];
                            &&& i1 + 1 < e.0 <= n
                            &&& e.1 == self.active@[e.0 - 1]
                            &&& keep(e.1 as int)
                        },
                    keep == self.keeps_positive(v1 as int),
                    forall|p: int, q: int| 0 <= p < i1 && p < q < n ==> #[trigger] self.calm(p, q),
                    forall|m: int|
                        0 <= m < j ==> self.calm(i1 as int, (#[trigger] friends@[m]).0 - 1),
                decreases friends.len() - j,
            {
                let v2: usize = friends[j].1;
                proof {
                    assert(keep(friends@[j as int].1 as int));
                    assert(self.active@[friends@[j as int].0 - 1] == v2);
                    assert(self.is_active(v2 as int));
                    lemma_active_below_len(self, v2 as int);
                }
                let found = self.conflict_edges(v1, v2, 0);
                let ghost differ = self.keeps_clash(v1 as int, v2 as int);
                if found.len() > 0 {
                    proof {
                        lemma_select(self, 0, n as int, differ);
                        let e = found@[0];
                        let c = e.1 as int;
                        assert(differ(c));
                        assert(self.active@[e.0 - 1] == e.1);
                        assert(self.is_triple(v1 as int, v2 as int, c));
                        lemma_disagree_conflict(self, v1 as int, v2 as int, c);
                    }
                    return false;
                }
                proof {
                    assert forall|c: int|
                        self.is_third(v1 as int, v2 as int, c) implies !#[trigger] self.disagree(
                        v1 as int,
                        v2 as int,
                        c,
                    ) by {
                        if self.disagree(v1 as int, v2 as int, c) {
                            crate::component::lemma_select_complete(self, 0, n as int, differ, c);
                        }
                    }
                }
                j += 1;
            }
            proof {
                assert forall|q: int| i1 < q < n implies #[trigger] self.calm(i1 as int, q) by {
                    let b = self.at(q);
                    if self.weight(v1 as int, b) > 0 {
                        assert(b != v1);
                        crate::component::lemma_select_complete(
                            self,
                            i1 as int + 1,
                            n as int,
                            keep,
                            b,
                        );
                        let m = choose|m: int|
                            0 <= m < friends.len() && (#[trigger] friends@[m]).1 == b;
                        assert(self.active@[friends@[m].0 - 1] == b);
                        assert(self.calm(i1 as int, friends@[m].0 - 1));
                    }
                }
            }
            i1 += 1;
        }
        proof {
            assert forall|a: int, b: int, c: int| #[trigger] self.is_triple(a, b, c)
                implies !self.is_conflict(a, b, c) by {
                if self.is_conflict(a, b, c) {
                    lemma_disagree_conflict(self, a, b, c);
                    let (x, y, z) = if self.weight(a, b) > 0 && self.disagree(a, b, c) {
                        (a, b, c)
                    } else {
                        (a, c, b)
                    };
                    crate::turns::lemma_place(self, x);
                    crate::turns::lemma_place(self, y);
                    let p = self.place(x);
                    let q = self.place(y);
                    assert(self.edge(x, y) == self.edge(y, x));
                    assert(self.edge(x, z) == self.edge(z, x));
                    assert(self.edge(y, z) == self.edge(z, y));
                    if p < q {
                        assert(self.calm(p, q));
                        assert(self.is_third(x, y, z));
                    } else {
                        assert(self.calm(q, p));
                        assert(self.is_third(y, x, z));
                        assert(self.disagree(y, x, z));
                    }
                }
            }
        }
        true
    }

    /// The entries `(u + 1, v + 1)` of the pairs of active vertices `u`,
    /// `v` at the positions `i1 < i2` with `i2 < k` that satisfy `keep`.
    pub open spec fn listed_row(&self, keep: spec_fn(int, int) -> bool, i1: int, k: int) -> Seq<
        (usize, usize),
    >
        decreases k - i1,
    {
        if k <= i1 + 1 {
            Seq::empty()
        } else {
            let before = self.listed_row(keep, i1, k - 1);
            if keep(self.at(i1), self.at(k - 1)) {
                before.push(((self.at(i1) + 1) as usize, (self.at(k - 1) + 1) as usize))
            } else {
                before
            }
        }
    }

    /// The entries `(u + 1, v + 1)` of the pairs of active vertices that
    /// satisfy `keep`, by the position of `u` and then of `v`, for the
    /// positions of `u` before `k`.
    pub open spec fn listed(&self, keep: spec_fn(int, int) -> bool, k: int) -> Seq<(usize, usize)>
        decreases k,
    {
        if k <= 0 {
            Seq::empty()
        } else {
            self.listed(keep, k - 1) + self.listed_row(keep, k - 1, self.active.len() as int)
        }
    }

    /// Lists the pairs of active vertices of `self` that `output` puts in
    /// one cluster, or, if `edits` is set, those whose edge in `self`
    /// disagrees with what `output` does with them.
    fn list_pairs(
        &self,
        output: &Graph,
        edits: bool,
        Ghost(keep): Ghost<spec_fn(int, int) -> bool>,
    ) -> (pairs: Vec<(usize, usize)>)
        requires
            self.wf(),
            output.wf(),
            output.cap() == self.cap(),
            forall|a: int, b: int| #[trigger]
                keep(a, b) == if edits {
                    (self.weight(a, b) > 0) != (output.root_spec(a) == output.root_spec(b))
                } else {
                    output.root_spec(a) == output.root_spec(b)
                },
        ensures
            pairs@ == self.listed(keep, self.active.len() as int),
    {
        let n: usize = self.active.len();
        let mut pairs: Vec<(usize, usize)> = Vec::new();
        let mut i1: usize = 0;
        while i1 < n
            invariant
                self.wf(),
                output.wf(),
                output.cap() == self.cap(),
                n == self.active.len(),
                i1 <= n,
                forall|a: int, b: int| #[trigger]
                    keep(a, b) == if edits {
                        (self.weight(a, b) > 0) != (output.root_spec(a) == output.root_spec(b))
                    } else {
                        output.root_spec(a) == output.root_spec(b)
                    },
                pairs@ == self.listed(keep, i1 as int),
            decreases n - i1,
        {
            let v1: usize = self.active[i1];
            proof {
                assert(self.is_active(v1 as int));
                lemma_active_below_len(self, v1 as int);
            }
            let r1: usize = output.root(v1);
            let ghost start = pairs@;
            let mut i2: usize = i1 + 1;
            while i2 < n
                invariant
                    self.wf(),
                    output.wf(),
                    output.cap() == self.cap(),
                    n == self.active.len(),
                    i1 < i2 <= n,
                    v1 == self.active@[i1 as int],
                    v1 < self.len,
                    r1 == output.root_spec(v1 as int),
                    forall|a: int, b: int| #[trigger]
                        keep(a, b) == if edits {
                            (self.weight(a, b) > 0) != (output.root_spec(a) == output.root_spec(b))
                        } else {
                            output.root_spec(a) == output.root_spec(b)
                        },
                    pairs@ == start + self.listed_row(keep, i1 as int, i2 as int),
                decreases n - i2,
            {
                let v2: usize = self.active[i2];
                proof {
                    assert(self.is_active(v2 as int));
                    lemma_active_below_len(self, v2 as int);
                }
                let same: bool = r1 == output.root(v2);
                let take: bool = if edits {
                    (self.edges.get(v1, v2).weight > 0) != same
                } else {
                    same
                };
                if take {
                    pairs.push((v1 + 1, v2 + 1));
                }
                proof {
                    assert(pairs@ =~= start + self.listed_row(keep, i1 as int, i2 as int + 1));
                }
                i2 += 1;
            }
            i1 += 1;
        }
        pairs
    }

    /// The edits of a solution: the pairs of active vertices of `self`,
    /// counted from one, whose edge is positive where `output` keeps them
    /// apart, or not positive where `output` puts them in one cluster.
    pub fn solution_edits(&self, output: &Graph) -> (edits: Vec<(usize, usize)>)
        requires
            self.wf(),
            output.wf(),
            output.cap() == self.cap(),
        ensures
            edits@ == self.listed(
                |a: int, b: int|
                    (self.weight(a, b) > 0) != (output.root_spec(a) == output.root_spec(b)),
                self.active.len() as int,
            ),
    {
        self.list_pairs(
            output,
            true,
            Ghost(
                |a: int, b: int|
                    (self.weight(a, b) > 0) != (output.root_spec(a) == output.root_spec(b)),
            ),
        )
    }

    /// The edges of a solution: the pairs of active vertices of `self`,
    /// counted from one, that `output` puts in one cluster.
    pub fn solution_edges(&self, output: &Graph) -> (edges: Vec<(usize, usize)>)
        requires
            self.wf(),
            output.wf(),
            output.cap() == self.cap(),
        ensures
            edges@ == self.listed(
                |a: int, b: int| output.root_spec(a) == output.root_spec(b),
                self.active.len() as int,
            ),
    {
        self.list_pairs(
            output,
            false,
            Ghost(|a: int, b: int| output.root_spec(a) == output.root_spec(b)),
        )
    }
}

} // verus!
