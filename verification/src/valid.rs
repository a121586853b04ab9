//! Telling at run time whether a graph has the shape that the operations expect.

use vstd::prelude::*;
use crate::graph::{Graph, NEVER};
use crate::sums::{pair_sum, pair_sum_upto, row_sum, lemma_pair_sum_upto};

verus! {

impl Graph {
    /// Whether the graph is well-formed.
    pub fn is_wf(&self) -> (ok: bool)
        ensures
            ok == self.wf(),
    {
        let cap: usize = self.vertex_merged.len();
        if !self.edges.is_wf() || self.edges.len() != cap {
            return false;
        }
        let n: usize = self.active.len();
        if self.len > cap || n > cap - self.len {
            return false;
        }
        let mut i: usize = 0;
        while i < n
            invariant
                n == self.active.len(),
                cap == self.cap(),
                self.len <= cap,
                i <= n,
                forall|k: int| 0 <= k < i ==> (#[trigger] self.active@[k]) < self.len,
                forall|k: int|
                    0 <= k < i ==> self.vertex_merged@[(#[trigger] self.active@[k]) as int] is None,
                forall|k: int, l: int| 0 <= l < k < i ==> self.active@[k] != self.active@[l],
            decreases n - i,
        {
            let v: usize = self.active[i];
            if v >= self.len {
                return false;
            }
            match self.vertex_merged[v] {
                Some(_) => {
                    return false;
                },
                None => {},
            }
            let mut j: usize = 0;
            while j < i
                invariant
                    n == self.active.len(),
                    i < n,
                    j <= i,
                    v == self.active@[i as int],
                    forall|l: int| 0 <= l < j ==> self.active@[l] != v,
                decreases i - j,
            {
                if self.active[j] == v {
                    return false;
                }
                j += 1;
            }
            i += 1;
        }
        let mut v: usize = 0;
        while v < cap
            invariant
                cap == self.cap(),
                v <= cap,
                forall|u: int|
                    0 <= u < v ==> (#[trigger] self.vertex_merged@[u] matches Some(p) ==> u < p
                        < self.len),
            decreases cap - v,
        {
            match self.vertex_merged[v] {
                Some(p) => {
                    if !(v < p && p < self.len) {
                        return false;
                    }
                },
                None => {},
            }
            v += 1;
        }
        let ghost f = |a: int, b: int| self.pair_magnitude(a, b);
        let ghost fs = |i: int, j: int| self.pair_magnitude(self.at(i), self.at(j));
        proof {
            assert(self.active@.no_duplicates());
            assert forall|a: int, b: int| #[trigger] f(a, b) == f(b, a) by {
                assert(self.edge(a, b) == self.edge(b, a));
            }
            self.lemma_pairs_over_positions(f, fs);
        }
        let mut total: u64 = 0;
        let mut i: usize = 0;
        while i < n
            invariant
                n == self.active.len(),
                cap == self.cap(),
                self.len <= cap,
                self.edges.wf(),
                self.edges.spec_len() == cap,
                i <= n,
                self.active@.no_duplicates(),
                forall|k: int| 0 <= k < n ==> (#[trigger] self.active@[k]) < self.len,
                fs == |i: int, j: int| self.pair_magnitude(self.at(i), self.at(j)),
                self.weight_sum() == 2 * pair_sum(fs, n as int),
                total == pair_sum_upto(fs, i as int, 0),
                2 * total <= u32::MAX,
                forall|p: int, q: int|
                    0 <= q < p < i ==> self.edge(#[trigger] self.at(p), #[trigger] self.at(q)).ok(),
            decreases n - i,
        {
            let v1: usize = self.active[i];
            let mut j: usize = 0;
            while j < i
                invariant
                    n == self.active.len(),
                    cap == self.cap(),
                    self.len <= cap,
                    self.edges.wf(),
                    self.edges.spec_len() == cap,
                    i < n,
                    j <= i,
                    v1 == self.active@[i as int],
                    self.active@.no_duplicates(),
                    forall|k: int| 0 <= k < n ==> (#[trigger] self.active@[k]) < self.len,
                    fs == |i: int, j: int| self.pair_magnitude(self.at(i), self.at(j)),
                    self.weight_sum() == 2 * pair_sum(fs, n as int),
                    total == pair_sum_upto(fs, i as int, j as int),
                    2 * total <= u32::MAX,
                    forall|p: int, q: int|
                        0 <= q < p <= i && (p < i || q < j) ==> self.edge(
                            #[trigger] self.at(p),
                            #[trigger] self.at(q),
                        ).ok(),
                decreases i - j,
            {
                let v2: usize = self.active[j];
                proof {
                    assert(self.active@[i as int] < self.len);
                    assert(self.active@[j as int] < self.len);
                    assert(self.is_pair(v1 as int, v2 as int));
                    assert forall|a: int, b: int| 0 <= b < a < n implies #[trigger] fs(a, b)
                        >= 0 by {}
                    lemma_pair_sum_upto(fs, i as int, j as int, n as int);
                    lemma_pair_sum_upto(fs, i as int, j as int + 1, n as int);
                }
                let edge = self.edges.get(v1, v2);
                if edge.weight < NEVER || (edge.fixed && edge.weight != NEVER) {
                    return false;
                }
                if !edge.fixed {
                    let size: u64 = if edge.weight < 0 {
                        (-edge.weight) as u64
                    } else {
                        edge.weight as u64
                    };
                    total = total + size;
                    if 2 * total > u32::MAX as u64 {
                        return false;
                    }
                }
                j += 1;
            }
            proof {
                assert forall|a: int, b: int| 0 <= b < a < n implies #[trigger] fs(a, b) >= 0 by {}
                lemma_pair_sum_upto(fs, i as int, i as int, n as int);
            }
            i += 1;
        }
        proof {
            assert(row_sum(fs, n as int, 0) == 0);
            assert forall|a: int, b: int| #[trigger] self.is_pair(a, b) implies self.edge(
                a,
                b,
            ).ok() by {
                crate::turns::lemma_place(self, a);
                crate::turns::lemma_place(self, b);
                let p = self.place(a);
                let q = self.place(b);
                assert(self.edge(a, b) == self.edge(b, a));
                if q < p {
                    assert(self.edge(self.at(p), self.at(q)).ok());
                } else {
                    assert(self.edge(self.at(q), self.at(p)).ok());
                }
            }
        }
        true
    }
}

} // verus!
