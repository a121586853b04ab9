//! The weighted graph: one signed weight per pair of vertices, a set of
//! active vertices and the forest that records which vertices were merged.

use vstd::prelude::*;
use crate::matrix::Matrix;
use crate::sums::{square_sum, lemma_square_eq, lemma_square_update_pair};

verus! {

/// The weight carried by an edge whose fate is decided for good.
pub const NEVER: i32 = -2147483647;

/// The state of one pair of vertices.
#[derive(Debug, Clone, Copy, PartialEq, Eq, Structural)]
pub struct Edge {
    pub weight: i32,
    pub fixed: bool,
}

impl Edge {
    /// An undecided edge of the given weight.
    pub fn new(weight: i32) -> (e: Self)
        ensures
            e == (Edge { weight, fixed: false }),
    {
        Edge { weight, fixed: false }
    }

    /// The edge of a pair that may never share a cluster.
    pub fn none() -> (e: Self)
        ensures
            e == Edge::spec_none(),
    {
        Edge { weight: NEVER, fixed: true }
    }

    /// The edge of a pair that may never share a cluster.

    pub open spec fn spec_none() -> Edge {
        Edge { weight: NEVER, fixed: true }
    }

    /// A weight can be negated, and a fixed edge carries the weight `NEVER`.
    pub open spec fn ok(self) -> bool {
        &&& self.weight >= NEVER
        &&& self.fixed ==> self.weight == NEVER
    }

    /// What an undecided edge costs to violate; nothing for a fixed edge.
    pub open spec fn magnitude(self) -> int {
        if self.fixed {
            0
        } else {
            abs(self.weight as int)
        }
    }
}

/// The absolute value.

pub open spec fn abs(x: int) -> int {
    if x < 0 {
        -x
    } else {
        x
    }
}

/// The smaller of two numbers.

pub open spec fn min(x: int, y: int) -> int {
    if x <= y {
        x
    } else {
        y
    }
}

/// `s` without the occurrences of `x` and `y`, the order of the rest kept.
pub open spec fn without(s: Seq<usize>, x: usize, y: usize) -> Seq<usize>
    decreases s.len(),
{
    if s.len() == 0 {
        s
    } else {
        let rest = without(s.drop_last(), x, y);
        if s.last() == x || s.last() == y {
            rest
        } else {
            rest.push(s.last())
        }
    }
}

/// What is left holds the entries other than the two values, each as often as before.

pub proof fn lemma_without_contains(s: Seq<usize>, x: usize, y: usize)
    ensures
        forall|c: usize|
            #![trigger without(s, x, y).contains(c)]
            without(s, x, y).contains(c) <==> (s.contains(c) && c != x && c != y),
        without(s, x, y).len() <= s.len(),
        s.no_duplicates() ==> without(s, x, y).no_duplicates(),
    decreases s.len(),
{
    if s.len() > 0 {
        let t = s.drop_last();
        let r = without(t, x, y);
        lemma_without_contains(t, x, y);
        assert forall|c: usize|
            #![trigger without(s, x, y).contains(c)]
            without(s, x, y).contains(c) <==> (s.contains(c) && c != x && c != y) by {
            let w = without(s, x, y);
            if w.contains(c) {
                let i = choose|i: int| 0 <= i < w.len() && w[i] == c;
                if i < r.len() {
                    assert(r[i] == c);
                    assert(r.contains(c));
                    let j = choose|j: int| 0 <= j < t.len() && t[j] == c;
                    assert(s[j] == c);
                } else {
                    assert(s[s.len() - 1] == c);
                }
            }
            if s.contains(c) && c != x && c != y {
                let j = choose|j: int| 0 <= j < s.len() && s[j] == c;
                if j < t.len() {
                    assert(t[j] == c);
                    assert(t.contains(c));
                    assert(r.contains(c));
                    let i = choose|i: int| 0 <= i < r.len() && r[i] == c;
                    assert(w[i] == c);
                } else {
                    assert(w[w.len() - 1] == c);
                }
            }
        }
        if s.no_duplicates() {
            assert(t.no_duplicates());
            if !(s.last() == x || s.last() == y) {
                let w = r.push(s.last());
                assert forall|i: int, j: int|
                    0 <= i < w.len() && 0 <= j < w.len() && i != j implies w[i] != w[j] by {
                    if i == r.len() && w[i] == w[j] {
                        assert(r.contains(s.last()));
                        let k = choose|k: int| 0 <= k < t.len() && t[k] == s.last();
                        assert(s[k] == s[s.len() - 1]);
                    }
                    if j == r.len() && w[i] == w[j] {
                        assert(r.contains(s.last()));
                        let k = choose|k: int| 0 <= k < t.len() && t[k] == s.last();
                        assert(s[k] == s[s.len() - 1]);
                    }
                }
            }
        }
    }
}

/// Removing two distinct values that both occur in a sequence without
/// repetition shortens it by two; removing one shortens it by one.
pub proof fn lemma_without_len(s: Seq<usize>, x: usize, y: usize)
    requires
        s.no_duplicates(),
        s.contains(x),
        s.contains(y),
    ensures
        without(s, x, y).len() == if x == y {
            s.len() - 1
        } else {
            s.len() - 2
        },
    decreases s.len(),
{
    let t = s.drop_last();
    assert(t.no_duplicates());
    let l = s.last();
    assert forall|c: usize| c != l && s.contains(c) implies t.contains(c) by {
        let j = choose|j: int| 0 <= j < s.len() && s[j] == c;
        assert(t[j] == c);
    }
    assert(!t.contains(l)) by {
        if t.contains(l) {
            let k = choose|k: int| 0 <= k < t.len() && t[k] == l;
            assert(s[k] == s[s.len() - 1]);
        }
    }
    if l == x && l == y {
        lemma_without_absent(t, x, y);
    } else if l == x {
        lemma_without_absent(t, x, x);
        lemma_without_len(t, y, y);
        lemma_without_same(t, x, y);
    } else if l == y {
        lemma_without_absent(t, y, y);
        lemma_without_len(t, x, x);
        lemma_without_same(t, y, x);
        lemma_without_swap(t, x, y);
    } else {
        lemma_without_len(t, x, y);
    }
}

/// Removing values that do not occur changes nothing.
pub proof fn lemma_without_absent(s: Seq<usize>, x: usize, y: usize)
    requires
        !s.contains(x),
        !s.contains(y),
    ensures
        without(s, x, y) == s,
    decreases s.len(),
{
    if s.len() > 0 {
        let t = s.drop_last();
        assert(s[s.len() - 1] == s.last());
        assert forall|c: usize| t.contains(c) implies s.contains(c) by {
            let j = choose|j: int| 0 <= j < t.len() && t[j] == c;
            assert(s[j] == c);
        }
        lemma_without_absent(t, x, y);
        assert(t.push(s.last()) =~= s);
    }
}

/// A value that does not occur can be left out of the removal.
pub proof fn lemma_without_same(s: Seq<usize>, x: usize, y: usize)
    requires
        !s.contains(x),
    ensures
        without(s, x, y) == without(s, y, y),
    decreases s.len(),
{
    if s.len() > 0 {
        let t = s.drop_last();
        assert(s[s.len() - 1] == s.last());
        assert forall|c: usize| t.contains(c) implies s.contains(c) by {
            let j = choose|j: int| 0 <= j < t.len() && t[j] == c;
            assert(s[j] == c);
        }
        lemma_without_same(t, x, y);
    }
}

/// The order in which the two values are named does not matter.

pub proof fn lemma_without_swap(s: Seq<usize>, x: usize, y: usize)
    ensures
        without(s, x, y) == without(s, y, x),
    decreases s.len(),
{
    if s.len() > 0 {
        lemma_without_swap(s.drop_last(), x, y);
    }
}

/// Removes every occurrence of `x` and of `y` from `list`, keeping the order of the rest.
pub fn remove_values(list: &mut Vec<usize>, x: usize, y: usize)
    ensures
        final(list)@ == without(old(list)@, x, y),
{
    let mut kept: Vec<usize> = Vec::new();
    let mut i: usize = 0;
    while i < list.len()
        invariant
            i <= list.len(),
            kept@ == without(list@.take(i as int), x, y),
        decreases list.len() - i,
    {
        let v: usize = list[i];
        proof {
            assert(list@.take(i + 1).drop_last() == list@.take(i as int));
        }
        if v != x && v != y {
            kept.push(v);
        }
        i += 1;
    }
    proof {
        assert(list@.take(list.len() as int) == list@);
    }
    *list = kept;
}

/// A weighted graph under construction by merges and cuts.
#[derive(Debug)]
pub struct Graph {
    /// For each vertex, the vertex that it was merged into, if any.
    pub vertex_merged: Vec<Option<usize>>,
    /// The state of every pair of vertices.
    pub edges: Matrix<Edge>,
    /// The vertices that are alive, each once.
    pub active: Vec<usize>,
    /// The number of vertices created so far.
    pub len: usize,
}

impl Graph {
    /// The number of vertices that the graph has room for.
    pub open spec fn cap(&self) -> int {
        self.vertex_merged.len() as int
    }

    /// Whether `v` is one of the active vertices.
    pub open spec fn is_active(&self, v: int) -> bool {
        exists|k: int| 0 <= k < self.active.len() && self.active@[k] == v
    }

    /// The state of the pair `{a, b}`.
    pub open spec fn edge(&self, a: int, b: int) -> Edge {
        self.edges.at(a, b)
    }

    /// The weight of the pair `{a, b}`.
    pub open spec fn weight(&self, a: int, b: int) -> int {
        self.edge(a, b).weight as int
    }

    /// Whether `{a, b}` is a pair of distinct active vertices.
    pub open spec fn is_pair(&self, a: int, b: int) -> bool {
        a != b && self.is_active(a) && self.is_active(b)
    }

    /// The magnitude of the pair `{a, b}` if it is an undecided pair of
    /// active vertices, and zero otherwise.
    pub open spec fn pair_magnitude(&self, a: int, b: int) -> int {
        if self.is_pair(a, b) {
            self.edge(a, b).magnitude()
        } else {
            0
        }
    }

    /// The magnitudes of all undecided active pairs, summed over ordered
    /// pairs: every unordered pair counts twice.
    pub open spec fn weight_sum(&self) -> int {
        square_sum(|a: int, b: int| self.pair_magnitude(a, b), self.cap())
    }

    /// The shape that every operation expects and keeps.
    pub open spec fn wf(&self) -> bool {
        &&& self.edges.wf()
        &&& self.edges.spec_len() == self.cap()
        &&& self.len + self.active.len() <= self.cap()
        &&& self.active@.no_duplicates()
        &&& forall|k: int| 0 <= k < self.active.len() ==> (#[trigger] self.active@[k]) < self.len
        &&& forall|k: int|
            0 <= k < self.active.len() ==> self.vertex_merged@[(#[trigger] self.active@[k]) as int]
                is None
        &&& forall|v: int|
            0 <= v < self.cap() ==> (#[trigger] self.vertex_merged@[v] matches Some(p) ==> v < p
                < self.len)
        &&& forall|a: int, b: int| #[trigger] self.is_pair(a, b) ==> self.edge(a, b).ok()
        &&& self.weight_sum() <= u32::MAX
    }

    /// Two graphs agree on everything that can be observed: the same set of
    /// active vertices, the same merge forest and the same state of every
    /// pair of vertices created so far.
    pub open spec fn same_state(&self, other: &Graph) -> bool {
        &&& self.cap() == other.cap()
        &&& self.len == other.len
        &&& self.vertex_merged@ == other.vertex_merged@
        &&& forall|v: int| self.is_active(v) <==> other.is_active(v)
        &&& forall|a: int, b: int|
            0 <= a < self.len && 0 <= b < self.len ==> #[trigger] self.edge(a, b) == other.edge(
                a,
                b,
            )
    }
}


/// Well-formedness depends only on what can be observed.
pub proof fn lemma_same_state_wf(g: &Graph, h: &Graph)
    requires
        g.wf(),
        h.same_state(g),
        h.active@.no_duplicates(),
        h.edges.wf(),
        h.edges.spec_len() == h.cap(),
    ensures
        h.wf(),
        h.weight_sum() == g.weight_sum(),
        h.active.len() == g.active.len(),
{
    assert(h.active@.to_set() =~= g.active@.to_set()) by {
        assert forall|v: usize| h.active@.contains(v) == g.active@.contains(v) by {
            assert(h.is_active(v as int) == g.is_active(v as int));
        }
    }
    h.active@.unique_seq_to_set();
    g.active@.unique_seq_to_set();
    assert forall|k: int| 0 <= k < h.active.len() implies (#[trigger] h.active@[k]) < h.len
        && h.vertex_merged@[h.active@[k] as int] is None by {
        assert(h.is_active(h.active@[k] as int));
        assert(g.is_active(h.active@[k] as int));
    }
    assert forall|a: int, b: int| #[trigger] h.is_pair(a, b) implies h.edge(a, b).ok() by {
        assert(g.is_pair(a, b));
    }
    assert forall|a: int, b: int| 0 <= a < h.cap() && 0 <= b < h.cap() implies h.pair_magnitude(
        a,
        b,
    ) == g.pair_magnitude(a, b) by {
        if h.is_pair(a, b) {
            assert(g.is_pair(a, b));
        }
    }
    lemma_square_eq(
        |a: int, b: int| h.pair_magnitude(a, b),
        |a: int, b: int| g.pair_magnitude(a, b),
        h.cap(),
    );
}

impl Graph {
    /// The vertex that stands for `v` once all merges are followed.
    pub open spec fn root_spec(&self, v: int) -> int
        decreases self.cap() - v,
    {
        if 0 <= v < self.cap() {
            match self.vertex_merged@[v] {
                Some(p) => if v < p < self.cap() {
                    self.root_spec(p as int)
                } else {
                    v
                },
                None => v,
            }
        } else {
            v
        }
    }

    /// The entries `(k + 1, active[k])` for `from <= k < upto` whose vertex satisfies `keep`.
    pub open spec fn select(&self, from: int, upto: int, keep: spec_fn(int) -> bool) -> Seq<
        (usize, usize),
    >
        decreases upto - from,
    {
        if upto <= from || upto > self.active.len() {
            Seq::empty()
        } else {
            let rest = self.select(from, upto - 1, keep);
            let v = self.active@[upto - 1];
            if keep(v as int) {
                rest.push((upto as usize, v))
            } else {
                rest
            }
        }
    }

    /// The vertices with a positive edge to `v1`.
    pub open spec fn keeps_positive(&self, v1: int) -> spec_fn(int) -> bool {
        |v2: int| self.is_positive(v1, v2)
    }

    /// The vertices other than `v1` and `v2` on which the two disagree.
    pub open spec fn keeps_clash(&self, v1: int, v2: int) -> spec_fn(int) -> bool {
        |v3: int| v3 != v1 && v3 != v2 && self.disagree(v1, v2, v3)
    }

    /// The vertices other than `v1` and `v2` with a positive edge to both.
    pub open spec fn keeps_shared(&self, v1: int, v2: int) -> spec_fn(int) -> bool {
        |v3: int| v3 != v1 && v3 != v2 && self.weight(v1, v3) > 0 && self.weight(v2, v3) > 0
    }

    /// Whether the undecided pair `{a, b}` has a positive weight.
    pub open spec fn is_positive(&self, a: int, b: int) -> bool {
        a != b && self.weight(a, b) > 0
    }

    /// All pairs but `{v1, v2}` are in the state that they have in `other`.
    pub open spec fn edges_same_except(&self, other: &Graph, v1: int, v2: int) -> bool {
        forall|a: int, b: int|
            0 <= a < self.cap() && 0 <= b < self.cap() && !(a == v1 && b == v2) && !(a == v2 && b
                == v1) ==> #[trigger] self.edge(a, b) == other.edge(a, b)
    }

    /// The vertices and the merge forest are those of `other`.
    pub open spec fn same_vertices(&self, other: &Graph) -> bool {
        &&& self.vertex_merged@ == other.vertex_merged@
        &&& self.active@ == other.active@
        &&& self.len == other.len
        &&& self.edges.wf() == other.edges.wf()
        &&& self.edges.spec_len() == other.edges.spec_len()
    }

    /// A graph of `size` vertices, all active, with weight `-1` on every pair
    /// and room for every merge that can follow.
    pub fn new(size: usize) -> (g: Self)
        requires
            4 * size * size <= usize::MAX,
            size * size <= u32::MAX,
        ensures
            g.wf(),
            g.cap() == 2 * size,
            g.len == size,
            g.active@ == Seq::new(size as nat, |k: int| k as usize),
            forall|v: int| 0 <= v < g.cap() ==> #[trigger] g.vertex_merged@[v] is None,
            forall|a: int, b: int|
                0 <= a < g.cap() && 0 <= b < g.cap() ==> #[trigger] g.edge(a, b) == (Edge {
                    weight: -1i32,
                    fixed: false,
                }),
    {
        assert(2 * size <= usize::MAX && (2 * size) * (2 * size) == 4 * size * size)
            by (nonlinear_arith)
            requires
                4 * size * size <= usize::MAX,
        ;
        let cap: usize = size * 2;
        let mut vertex_merged: Vec<Option<usize>> = Vec::new();
        let mut i: usize = 0;
        while i < cap
            invariant
                i <= cap,
                vertex_merged.len() == i,
                forall|v: int| 0 <= v < i ==> vertex_merged@[v] is None,
            decreases cap - i,
        {
            vertex_merged.push(None);
            i += 1;
        }
        let mut active: Vec<usize> = Vec::new();
        let mut k: usize = 0;
        while k < size
            invariant
                k <= size,
                active.len() == k,
                forall|j: int| 0 <= j < k ==> active@[j] == j,
            decreases size - k,
        {
            active.push(k);
            k += 1;
        }
        let edges = Matrix::new(Edge::new(-1), cap);
        let g = Graph { vertex_merged, edges, active, len: size };
        proof {
            assert(g.active@ =~= Seq::new(size as nat, |k: int| k as usize));
            lemma_unit_weight_sum(&g, size as int);
        }
        g
    }

    /// The entries `(k + 1, active[k])`, for `k` from `from` on, of the active
    /// vertices that share a positive edge with `v1`.
    pub fn positive(&self, v1: usize, from: usize) -> (found: Vec<(usize, usize)>)
        requires
            self.wf(),
            v1 < self.cap(),
        ensures
            found@ == self.select(
                from as int,
                self.active.len() as int,
                self.keeps_positive(v1 as int),
            ),
    {
        let mut found: Vec<(usize, usize)> = Vec::new();
        let mut k: usize = from;
        let ghost keep = self.keeps_positive(v1 as int);
        while k < self.active.len()
            invariant
                self.wf(),
                v1 < self.cap(),
                from <= k,
                keep == self.keeps_positive(v1 as int),
                found@ == self.select(
                    from as int,
                    if k <= self.active.len() {
                        k as int
                    } else {
                        self.active.len() as int
                    },
                    keep,
                ),
            decreases self.active.len() - k,
        {
            let v2: usize = self.active[k];
            if v2 != v1 && self.edges.get(v1, v2).weight > 0 {
                found.push((k + 1, v2));
            }
            k += 1;
        }
        found
    }

    /// Decides for good that `v1` and `v2` stay apart, and returns the edge
    /// that the pair had.
    pub fn cut(&mut self, v1: usize, v2: usize) -> (removed: Edge)
        requires
            old(self).wf(),
            old(self).is_pair(v1 as int, v2 as int),
        ensures
            removed == old(self).edge(v1 as int, v2 as int),
            final(self).edge(v1 as int, v2 as int) == Edge::spec_none(),
            final(self).edges_same_except(old(self), v1 as int, v2 as int),
            final(self).same_vertices(old(self)),
            final(self).wf(),
            final(self).weight_sum() == old(self).weight_sum() - 2 * removed.magnitude(),
    {
        proof {
            assert(self.active@[choose|k: int| 0 <= k < self.active.len() && self.active@[k] == v1]
                < self.len);
            assert(self.active@[choose|k: int| 0 <= k < self.active.len() && self.active@[k] == v2]
                < self.len);
        }
        let removed = self.edges.get(v1, v2);
        self.edges.set(v1, v2, Edge::none());
        proof {
            lemma_edge_update(old(self), self, v1 as int, v2 as int);
        }
        removed
    }

    /// Puts `edge` back on the pair `{v1, v2}`: the inverse of a cut that returned it.
    pub fn un_cut(&mut self, v1: usize, v2: usize, edge: Edge)
        requires
            old(self).wf(),
            old(self).is_pair(v1 as int, v2 as int),
            edge.ok(),
            old(self).weight_sum() - 2 * old(self).edge(v1 as int, v2 as int).magnitude() + 2
                * edge.magnitude() <= u32::MAX,
        ensures
            final(self).edge(v1 as int, v2 as int) == edge,
            final(self).edges_same_except(old(self), v1 as int, v2 as int),
            final(self).same_vertices(old(self)),
            final(self).wf(),
            final(self).weight_sum() == old(self).weight_sum() - 2 * old(self).edge(
                v1 as int,
                v2 as int,
            ).magnitude() + 2 * edge.magnitude(),
    {
        proof {
            assert(self.active@[choose|k: int| 0 <= k < self.active.len() && self.active@[k] == v1]
                < self.len);
            assert(self.active@[choose|k: int| 0 <= k < self.active.len() && self.active@[k] == v2]
                < self.len);
        }
        self.edges.set(v1, v2, edge);
        proof {
            lemma_edge_update(old(self), self, v1 as int, v2 as int);
        }
    }

    /// The vertex that stands for `index` once all merges are followed.
    pub fn root(&self, index: usize) -> (r: usize)
        requires
            self.wf(),
            index < self.cap(),
        ensures
            r == self.root_spec(index as int),
            r < self.cap(),
        decreases self.cap() - index,
    {
        match self.vertex_merged[index] {
            Some(new_index) => self.root(new_index),
            None => index,
        }
    }

}

impl Graph {
    /// `self` is what `clone_from` makes of `before`, given `source`.
    pub open spec fn copies(&self, source: &Graph, before: &Graph) -> bool {
        &&& self.cap() == source.cap()
        &&& self.active@ == source.active@
        &&& self.len == source.len
        &&& forall|a: int, b: int| #[trigger]
            source.is_pair(a, b) ==> self.edge(a, b) == source.edge(a, b)
        &&& forall|a: int, b: int|
            0 <= a < source.cap() && 0 <= b < source.cap() && !source.is_pair(a, b)
                ==> #[trigger] self.edge(a, b) == before.edge(a, b)
        &&& forall|v: int|
            0 <= v < source.cap() ==> #[trigger] self.vertex_merged@[v] == (
            if source.vertex_merged@[v] is Some {
                source.vertex_merged@[v]
            } else if source.is_active(v) {
                None
            } else {
                match before.vertex_merged@[v] {
                    Some(p) => if v < p < source.len {
                        Some(p)
                    } else {
                        None
                    },
                    None => None,
                }
            })
    }

    /// Takes over the active vertices, the number of vertices and the state
    /// of every pair of active vertices from `source`, and its merges; of
    /// its own merges it keeps those of vertices that `source` neither lists
    /// as active nor has merged, where they fit the vertices of `source`.
    pub fn clone_from(&mut self, source: &Graph)
        requires
            source.wf(),
            old(self).cap() == source.cap(),
            old(self).edges.wf(),
            old(self).edges.spec_len() == source.cap(),
        ensures
            final(self).wf(),
            final(self).weight_sum() == source.weight_sum(),
            final(self).copies(source, old(self)),
    {
        let ghost e0 = old(self).edges;
        let ghost vm0 = old(self).vertex_merged@;
        self.active.clear();
        let n: usize = source.active.len();
        let mut k: usize = 0;
        while k < n
            invariant
                n == source.active.len(),
                k <= n,
                self.active.len() == k,
                forall|j: int| 0 <= j < k ==> self.active@[j] == source.active@[j],
                self.vertex_merged@ == vm0,
                self.edges == e0,
            decreases n - k,
        {
            self.active.push(source.active[k]);
            k += 1;
        }
        assert(self.active@ =~= source.active@);
        let cap: usize = self.vertex_merged.len();
        let mut v: usize = 0;
        while v < cap
            invariant
                source.wf(),
                cap == source.cap(),
                self.vertex_merged.len() == cap,
                vm0.len() == cap,
                v <= cap,
                self.active@ == source.active@,
                self.edges == e0,
                forall|u: int|
                    0 <= u < v ==> #[trigger] self.vertex_merged@[u] == (
                    if source.vertex_merged@[u] is Some {
                        source.vertex_merged@[u]
                    } else {
                        match vm0[u] {
                            Some(p) => if u < p < source.len {
                                Some(p)
                            } else {
                                None
                            },
                            None => None,
                        }
                    }),
                forall|u: int| v <= u < cap ==> self.vertex_merged@[u] == vm0[u],
            decreases cap - v,
        {
            match source.vertex_merged[v] {
                Some(p) => {
                    self.vertex_merged.set(v, Some(p));
                },
                None => {
                    match self.vertex_merged[v] {
                        Some(p) => {
                            if !(v < p && p < source.len) {
                                self.vertex_merged.set(v, None);
                            }
                        },
                        None => {},
                    }
                },
            }
            v += 1;
        }
        let ghost cleaned = self.vertex_merged@;
        assert(cleaned.len() == cap);
        let mut i1: usize = 0;
        while i1 < n
            invariant
                source.wf(),
                n == source.active.len(),
                i1 <= n,
                cap == source.cap(),
                self.vertex_merged.len() == cap,
                cleaned.len() == cap,
                self.active@ == source.active@,
                self.edges.wf(),
                self.edges.spec_len() == source.cap(),
                forall|u: int|
                    0 <= u < cap ==> #[trigger] self.vertex_merged@[u] == (if exists|j: int|
                        0 <= j < i1 && source.active@[j] == u {
                        None
                    } else {
                        cleaned[u]
                    }),
                forall|p: int, q: int|
                    0 <= p < i1 && p < q < n ==> self.edges.at(
                        #[trigger] source.active@[p] as int,
                        #[trigger] source.active@[q] as int,
                    ) == source.edge(source.active@[p] as int, source.active@[q] as int),
                forall|a: int, b: int|
                    0 <= a < cap && 0 <= b < cap && !source.is_pair(a, b) ==> #[trigger] self.edges.at(
                        a,
                        b,
                    ) == e0.at(a, b),
            decreases n - i1,
        {
            let v1: usize = source.active[i1];
            proof {
                assert(source.is_active(v1 as int));
                assert(v1 < source.len);
            }
            let ghost vm_before = self.vertex_merged@;
            self.vertex_merged.set(v1, None);
            proof {
                assert forall|u: int| 0 <= u < cap implies #[trigger] self.vertex_merged@[u] == (
                if exists|j: int| 0 <= j < i1 + 1 && source.active@[j] == u {
                    None
                } else {
                    cleaned[u]
                }) by {
                    if u == v1 {
                        assert(source.active@[i1 as int] == u);
                    } else if exists|j: int| 0 <= j < i1 + 1 && source.active@[j] == u {
                        let j = choose|j: int| 0 <= j < i1 + 1 && source.active@[j] == u;
                        assert(0 <= j < i1 && source.active@[j] == u);
                    }
                }
            }
            let mut i2: usize = i1 + 1;
            while i2 < n
                invariant
                    source.wf(),
                    n == source.active.len(),
                    i1 < i2 <= n,
                    v1 == source.active@[i1 as int],
                    cap == source.cap(),
                    self.vertex_merged.len() == cap,
                    cleaned.len() == cap,
                    self.active@ == source.active@,
                    self.edges.wf(),
                    self.edges.spec_len() == source.cap(),
                    forall|u: int|
                        0 <= u < cap ==> #[trigger] self.vertex_merged@[u] == (if exists|j: int|
                            0 <= j < i1 + 1 && source.active@[j] == u {
                            None
                        } else {
                            cleaned[u]
                        }),
                    forall|p: int, q: int|
                        0 <= p < q < n && (p < i1 || (p == i1 && q < i2)) ==> self.edges.at(
                            #[trigger] source.active@[p] as int,
                            #[trigger] source.active@[q] as int,
                        ) == source.edge(source.active@[p] as int, source.active@[q] as int),
                    forall|a: int, b: int|
                        0 <= a < cap && 0 <= b < cap && !source.is_pair(a, b)
                            ==> #[trigger] self.edges.at(a, b) == e0.at(a, b),
                decreases n - i2,
            {
                let v2: usize = source.active[i2];
                proof {
                    assert(source.is_active(v2 as int));
                    assert(v2 < source.len);
                    assert(source.is_pair(v1 as int, v2 as int));
                }
                let ghost before = self.edges;
                self.edges.set(v1, v2, source.edges.get(v1, v2));
                proof {
                    assert forall|p: int, q: int|
                        0 <= p < q < n && (p < i1 || (p == i1 && q < i2 + 1)) implies self.edges.at(
                        #[trigger] source.active@[p] as int,
                        #[trigger] source.active@[q] as int,
                    ) == source.edge(source.active@[p] as int, source.active@[q] as int) by {
                        assert(source.active@[p] < source.len);
                        assert(source.active@[q] < source.len);
                        if !(p == i1 && q == i2) {
                            assert(before.at(source.active@[p] as int, source.active@[q] as int)
                                == source.edge(
                                source.active@[p] as int,
                                source.active@[q] as int,
                            ));
                        }
                    }
                    assert forall|a: int, b: int|
                        0 <= a < cap && 0 <= b < cap && !source.is_pair(a, b)
                        implies #[trigger] self.edges.at(a, b) == e0.at(a, b) by {
                        assert(before.at(a, b) == e0.at(a, b));
                    }
                }
                i2 += 1;
            }
            i1 += 1;
        }
        self.len = source.len;
        proof {
            assert forall|a: int, b: int| #[trigger] source.is_pair(a, b) implies self.edges.at(a, b)
                == source.edge(a, b) by {
                let p = choose|k: int| 0 <= k < source.active.len() && source.active@[k] == a;
                let q = choose|k: int| 0 <= k < source.active.len() && source.active@[k] == b;
                if p < q {
                    assert(self.edges.at(source.active@[p] as int, source.active@[q] as int)
                        == source.edge(source.active@[p] as int, source.active@[q] as int));
                } else {
                    assert(self.edges.at(source.active@[q] as int, source.active@[p] as int)
                        == source.edge(source.active@[q] as int, source.active@[p] as int));
                }
            }
            assert forall|a: int, b: int| 0 <= a < cap && 0 <= b < cap implies (
            #[trigger] self.pair_magnitude(a, b)) == source.pair_magnitude(a, b) by {}
            lemma_square_eq(
                |a: int, b: int| self.pair_magnitude(a, b),
                |a: int, b: int| source.pair_magnitude(a, b),
                source.cap(),
            );
            assert forall|k: int| 0 <= k < self.active.len() implies self.vertex_merged@[(
            #[trigger] self.active@[k]) as int] is None by {
                assert(self.active@[k] < source.len);
            }
        }
    }
}

impl Clone for Graph {
    /// A copy of the graph.
    fn clone(&self) -> (g: Self)
        ensures
            g.same_vertices(self),
            forall|a: int, b: int| #[trigger] g.edge(a, b) == self.edge(a, b),
            g.same_state(self),
            self.wf() ==> g.wf() && g.weight_sum() == self.weight_sum(),
    {
        let mut vertex_merged: Vec<Option<usize>> = Vec::new();
        let mut i: usize = 0;
        while i < self.vertex_merged.len()
            invariant
                i <= self.vertex_merged.len(),
                vertex_merged.len() == i,
                forall|v: int| 0 <= v < i ==> vertex_merged@[v] == self.vertex_merged@[v],
            decreases self.vertex_merged.len() - i,
        {
            vertex_merged.push(self.vertex_merged[i]);
            i += 1;
        }
        let mut active: Vec<usize> = Vec::new();
        let mut k: usize = 0;
        while k < self.active.len()
            invariant
                k <= self.active.len(),
                active.len() == k,
                forall|j: int| 0 <= j < k ==> active@[j] == self.active@[j],
            decreases self.active.len() - k,
        {
            active.push(self.active[k]);
            k += 1;
        }
        let g = Graph { vertex_merged, edges: self.edges.clone(), active, len: self.len };
        proof {
            assert(g.vertex_merged@ =~= self.vertex_merged@);
            assert(g.active@ =~= self.active@);
            if self.wf() {
                lemma_same_state_wf(self, &g);
            }
        }
        g
    }
}

/// After one pair changed, the graph is well-formed if the new edge is
/// sound and the weights still fit.
pub proof fn lemma_edge_update(g: &Graph, h: &Graph, v1: int, v2: int)
    requires
        g.wf(),
        g.is_pair(v1, v2),
        0 <= v1 < g.cap(),
        0 <= v2 < g.cap(),
        h.same_vertices(g),
        h.edges.wf(),
        h.edges_same_except(g, v1, v2),
        h.edge(v1, v2).ok(),
    ensures
        h.weight_sum() == g.weight_sum() - 2 * g.edge(v1, v2).magnitude() + 2 * h.edge(
            v1,
            v2,
        ).magnitude(),
        h.weight_sum() <= u32::MAX ==> h.wf(),
{
    let f = |a: int, b: int| g.pair_magnitude(a, b);
    let e = |a: int, b: int| h.pair_magnitude(a, b);
    assert forall|v: int| h.is_active(v) == g.is_active(v) by {}
    let delta = h.edge(v1, v2).magnitude() - g.edge(v1, v2).magnitude();
    assert(h.is_pair(v1, v2));
    assert(h.is_pair(v2, v1));
    assert(g.is_pair(v2, v1));
    assert(h.edge(v1, v2) == h.edge(v2, v1));
    assert(g.edge(v1, v2) == g.edge(v2, v1));
    lemma_square_update_pair(f, e, g.cap(), v1, v2, delta);
    if h.weight_sum() <= u32::MAX {
        assert forall|a: int, b: int| #[trigger] h.is_pair(a, b) implies h.edge(a, b).ok() by {
            assert(g.is_pair(a, b));
            if !((a == v1 && b == v2) || (a == v2 && b == v1)) {
                let ka = choose|k: int| 0 <= k < g.active.len() && g.active@[k] == a;
                let kb = choose|k: int| 0 <= k < g.active.len() && g.active@[k] == b;
                assert(g.active@[ka] < g.len);
                assert(g.active@[kb] < g.len);
            }
        }
    }
}

/// A graph whose undecided active pairs all weigh at most one in magnitude
/// keeps within the weight budget when its active vertices are below `n`.
pub proof fn lemma_unit_weight_sum(g: &Graph, n: int)
    requires
        0 <= n,
        n * n <= u32::MAX,
        n <= g.cap(),
        forall|k: int| 0 <= k < g.active.len() ==> (#[trigger] g.active@[k]) < n,
        forall|a: int, b: int| #[trigger] g.is_pair(a, b) ==> g.edge(a, b).magnitude() <= 1,
    ensures
        g.weight_sum() <= n * n,
{
    let f = |a: int, b: int| g.pair_magnitude(a, b);
    let one = |a: int, b: int| if 0 <= a < n && 0 <= b < n { 1int } else { 0int };
    assert forall|a: int, b: int| 0 <= a < g.cap() && 0 <= b < g.cap() implies #[trigger] f(a, b)
        <= one(a, b) by {
        if g.is_pair(a, b) {
            let ka = choose|k: int| 0 <= k < g.active.len() && g.active@[k] == a;
            let kb = choose|k: int| 0 <= k < g.active.len() && g.active@[k] == b;
            assert(g.active@[ka] < n);
            assert(g.active@[kb] < n);
        }
    }
    crate::sums::lemma_square_le(f, one, g.cap());
    crate::sums::lemma_square_block(one, n, g.cap());
}

} // verus!
