//! Comparing two graphs by what can be observed of them.

use vstd::prelude::*;
use crate::graph::Graph;
use crate::merge::lemma_active_below_len;

verus! {

/// Two lists without repetition of the same length, of which the second
/// holds every entry of the first, hold the same entries.
pub proof fn lemma_same_entries(s: Seq<usize>, t: Seq<usize>)
    requires
        s.no_duplicates(),
        t.no_duplicates(),
        s.len() == t.len(),
        forall|k: int| 0 <= k < s.len() ==> t.contains(#[trigger] s[k]),
    ensures
        forall|v: usize| s.contains(v) <==> t.contains(v),
{
    s.unique_seq_to_set();
    t.unique_seq_to_set();
    assert(s.to_set().subset_of(t.to_set())) by {
        assert forall|v: usize| s.to_set().contains(v) implies t.to_set().contains(v) by {
            let k = choose|k: int| 0 <= k < s.len() && s[k] == v;
            assert(t.contains(s[k]));
        }
    }
    vstd::seq_lib::seq_to_set_is_finite(s);
    vstd::seq_lib::seq_to_set_is_finite(t);
    vstd::set_lib::lemma_subset_equality(s.to_set(), t.to_set());
    assert forall|v: usize| s.contains(v) <==> t.contains(v) by {
        assert(s.to_set().contains(v) == t.to_set().contains(v));
    }
}

impl Graph {
    /// `self` and `other` have the same active vertices and the same state
    /// of every pair of them.
    pub open spec fn looks_like(&self, other: &Graph) -> bool {
        &&& forall|v: int| self.is_active(v) <==> other.is_active(v)
        &&& forall|a: int, b: int| #[trigger]
            self.is_pair(a, b) ==> self.edge(a, b) == other.edge(a, b)
    }

    /// Whether the two graphs have the same active vertices, in whatever
    /// order, and the same state of every pair of them.
    pub fn agrees(&self, other: &Graph) -> (same: bool)
        requires
            self.wf(),
            other.wf(),
            self.cap() == other.cap(),
        ensures
            same == self.looks_like(other),
    {
        let n: usize = self.active.len();
        if n != other.active.len() {
            proof {
                if self.looks_like(other) {
                    assert forall|k: int| 0 <= k < self.active.len() implies other.active@.contains(
                        #[trigger] self.active@[k],
                    ) by {
                        assert(self.is_active(self.active@[k] as int));
                        assert(other.is_active(self.active@[k] as int));
                    }
                    assert forall|k: int| 0 <= k < other.active.len() implies self.active@.contains(
                        #[trigger] other.active@[k],
                    ) by {
                        assert(other.is_active(other.active@[k] as int));
                        assert(self.is_active(other.active@[k] as int));
                    }
                    self.active@.unique_seq_to_set();
                    other.active@.unique_seq_to_set();
                    assert(self.active@.to_set() =~= other.active@.to_set());
                }
            }
            return false;
        }
        let mut i: usize = 0;
        while i < n
            invariant
                self.wf(),
                other.wf(),
                n == self.active.len(),
                n == other.active.len(),
                i <= n,
                forall|k: int| 0 <= k < i ==> other.active@.contains(#[trigger] self.active@[k]),
            decreases n - i,
        {
            let v: usize = self.active[i];
            let mut found: bool = false;
            let mut j: usize = 0;
            while j < n
                invariant
                    n == other.active.len(),
                    j <= n,
                    found == exists|k: int| 0 <= k < j && other.active@[k] == v,
                decreases n - j,
            {
                if other.active[j] == v {
                    found = true;
                }
                j += 1;
            }
            if !found {
                proof {
                    assert(self.is_active(v as int));
                    assert(!other.is_active(v as int));
                }
                return false;
            }
            proof {
                let k = choose|k: int| 0 <= k < n && other.active@[k] == v;
                assert(other.active@[k] == v);
            }
            i += 1;
        }
        proof {
            lemma_same_entries(self.active@, other.active@);
            assert forall|v: int| self.is_active(v) <==> other.is_active(v) by {
                if self.is_active(v) {
                    lemma_active_below_len(self, v);
                    assert(self.active@.contains(v as usize));
                    assert(other.active@.contains(v as usize));
                }
                if other.is_active(v) {
                    lemma_active_below_len(other, v);
                    assert(other.active@.contains(v as usize));
                    assert(self.active@.contains(v as usize));
                }
            }
        }
        let mut i1: usize = 0;
        while i1 < n
            invariant
                self.wf(),
                other.wf(),
                self.cap() == other.cap(),
                n == self.active.len(),
                i1 <= n,
                forall|v: int| self.is_active(v) <==> other.is_active(v),
                forall|p: int, q: int|
                    0 <= p < i1 && p < q < n ==> self.edge(
                        #[trigger] self.at(p),
                        #[trigger] self.at(q),
                    ) == other.edge(self.at(p), self.at(q)),
            decreases n - i1,
        {
            let v1: usize = self.active[i1];
            let mut i2: usize = i1 + 1;
            while i2 < n
                invariant
                    self.wf(),
                    other.wf(),
                    self.cap() == other.cap(),
                    n == self.active.len(),
                    i1 < i2 <= n,
                    v1 == self.active@[i1 as int],
                    forall|v: int| self.is_active(v) <==> other.is_active(v),
                    forall|p: int, q: int|
                        0 <= p < q < n && (p < i1 || (p == i1 && q < i2)) ==> self.edge(
                            #[trigger] self.at(p),
                            #[trigger] self.at(q),
                        ) == other.edge(self.at(p), self.at(q)),
                decreases n - i2,
            {
                let v2: usize = self.active[i2];
                proof {
                    assert(self.is_active(v1 as int) && self.is_active(v2 as int));
                    lemma_active_below_len(self, v1 as int);
                    lemma_active_below_len(self, v2 as int);
                }
                if self.edges.get(v1, v2) != other.edges.get(v1, v2) {
                    proof {
                        assert(self.is_pair(v1 as int, v2 as int));
                    }
                    return false;
                }
                i2 += 1;
            }
            i1 += 1;
        }
        proof {
            assert forall|a: int, b: int| #[trigger] self.is_pair(a, b) implies self.edge(a, b)
                == other.edge(a, b) by {
                crate::turns::lemma_place(self, a);
                crate::turns::lemma_place(self, b);
                let p = self.place(a);
                let q = self.place(b);
                if p < q {
                    assert(self.edge(self.at(p), self.at(q)) == other.edge(self.at(p), self.at(q)));
                } else {
                    assert(self.edge(self.at(q), self.at(p)) == other.edge(self.at(q), self.at(p)));
                }
            }
        }
        true
    }
}

/// Two graphs are equal where both are well-formed, have the same room,
/// and have the same active vertices, in whatever order, and the same
/// state of every pair of them.
impl PartialEq for Graph {
    fn eq(&self, other: &Self) -> (same: bool) {
        self.is_wf() && other.is_wf() && self.vertex_merged.len() == other.vertex_merged.len()
            && self.agrees(other)
    }
}

impl vstd::std_specs::cmp::PartialEqSpecImpl for Graph {
    open spec fn obeys_eq_spec() -> bool {
        true
    }

    open spec fn eq_spec(&self, other: &Self) -> bool {
        self.wf() && other.wf() && self.cap() == other.cap() && self.looks_like(other)
    }
}

} // verus!
