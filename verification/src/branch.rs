//! Choosing the edge to branch on.

use vstd::prelude::*;
use crate::search::Solver;
use crate::merge::lemma_active_below_len;

verus! {

/// The next decision of the search: the pair to branch on, under the
/// branch to try first, or nothing where no pair is left to decide.
#[derive(Debug, Clone, Copy, PartialEq, Eq, Structural)]
pub enum EdgeMod {
    Merge(usize, usize),
    Cut(usize, usize),
    Nothing,
}

impl Solver {
    /// The number of conflicts recorded for the pair `{a, b}`.
    pub open spec fn conflicts(&self, a: int, b: int) -> int {
        self.packing.edge_conflicts.at(a, b) as int
    }

    /// The pair at the positions `i1 < i2` can be branched on: it is
    /// undecided and positive, and part of a conflict.
    pub open spec fn eligible(&self, i1: int, i2: int) -> bool {
        let v1 = self.graph.at(i1);
        let v2 = self.graph.at(i2);
        &&& 0 <= i1 < i2 < self.graph.active.len()
        &&& !self.graph.edge(v1, v2).fixed
        &&& self.graph.weight(v1, v2) > 0
        &&& self.conflicts(v1, v2) > 0
    }

    /// The pair at the positions `i1 < i2` is the first of the pairs that
    /// can be branched on with the most conflicts.
    pub open spec fn is_best(&self, i1: int, i2: int) -> bool {
        &&& self.eligible(i1, i2)
        &&& forall|j1: int, j2: int| #[trigger]
            self.eligible(j1, j2) ==> {
                let here = self.conflicts(self.graph.at(i1), self.graph.at(i2));
                let there = self.conflicts(self.graph.at(j1), self.graph.at(j2));
                &&& there <= here
                &&& (j1 < i1 || (j1 == i1 && j2 < i2)) ==> there < here
            }
    }

    /// Whether the decision names the pair at the positions `i1 < i2`, with
    /// the merge first where the edge weighs more than it has conflicts.
    pub open spec fn decides(&self, res: EdgeMod, i1: int, i2: int) -> bool {
        let v1 = self.graph.at(i1);
        let v2 = self.graph.at(i2);
        if self.graph.weight(v1, v2) > self.conflicts(v1, v2) {
            res == EdgeMod::Merge(v1 as usize, v2 as usize)
        } else {
            res == EdgeMod::Cut(v1 as usize, v2 as usize)
        }
    }

    /// Selects the pair to branch on: the first undecided positive pair of
    /// active vertices with the most conflicts.
    pub fn best_edge(&mut self) -> (res: EdgeMod)
        requires
            old(self).graph.wf(),
            old(self).packing.edge_conflicts.wf(),
            old(self).packing.edge_conflicts.spec_len() == old(self).graph.cap(),
        ensures
            *final(self) == *old(self),
            res == EdgeMod::Nothing ==> forall|i1: int, i2: int| !#[trigger] old(self).eligible(i1, i2),
            res != EdgeMod::Nothing ==> exists|i1: int, i2: int|
                #[trigger] old(self).is_best(i1, i2) && old(self).decides(res, i1, i2),
    {
        let n: usize = self.graph.active.len();
        let mut best_cost: u32 = 0;
        let mut best_v1: usize = 0;
        let mut best_v2: usize = 0;
        let mut best_weight: i32 = 0;
        let ghost mut b1: int = 0;
        let ghost mut b2: int = 0;
        let mut i1: usize = 0;
        while i1 < n
            invariant
                self.graph.wf(),
                self.packing.edge_conflicts.wf(),
                self.packing.edge_conflicts.spec_len() == self.graph.cap(),
                *self == *old(self),
                n == self.graph.active.len(),
                i1 <= n,
                best_cost == 0 ==> forall|j1: int, j2: int|
                    j1 < i1 ==> !#[trigger] self.eligible(j1, j2),
                best_cost > 0 ==> {
                    &&& self.eligible(b1, b2)
                    &&& b1 < i1
                    &&& best_v1 == self.graph.at(b1)
                    &&& best_v2 == self.graph.at(b2)
                    &&& best_weight == self.graph.weight(best_v1 as int, best_v2 as int)
                    &&& best_cost == self.conflicts(best_v1 as int, best_v2 as int)
                    &&& forall|j1: int, j2: int| #[trigger]
                        self.eligible(j1, j2) && j1 < i1 ==> {
                            let there = self.conflicts(self.graph.at(j1), self.graph.at(j2));
                            &&& there <= best_cost
                            &&& (j1 < b1 || (j1 == b1 && j2 < b2)) ==> there < best_cost
                        }
                },
            decreases n - i1,
        {
            let v1: usize = self.graph.active[i1];
            let mut i2: usize = i1 + 1;
            while i2 < n
                invariant
                    self.graph.wf(),
                    self.packing.edge_conflicts.wf(),
                    self.packing.edge_conflicts.spec_len() == self.graph.cap(),
                    *self == *old(self),
                    n == self.graph.active.len(),
                    i1 < i2 <= n,
                    v1 == self.graph.active@[i1 as int],
                    best_cost == 0 ==> forall|j1: int, j2: int|
                        (j1 < i1 || (j1 == i1 && j2 < i2)) ==> !#[trigger] self.eligible(j1, j2),
                    best_cost > 0 ==> {
                        &&& self.eligible(b1, b2)
                        &&& (b1 < i1 || (b1 == i1 && b2 < i2))
                        &&& best_v1 == self.graph.at(b1)
                        &&& best_v2 == self.graph.at(b2)
                        &&& best_weight == self.graph.weight(best_v1 as int, best_v2 as int)
                        &&& best_cost == self.conflicts(best_v1 as int, best_v2 as int)
                        &&& forall|j1: int, j2: int| #[trigger]
                            self.eligible(j1, j2) && (j1 < i1 || (j1 == i1 && j2 < i2)) ==> {
                                let there = self.conflicts(self.graph.at(j1), self.graph.at(j2));
                                &&& there <= best_cost
                                &&& (j1 < b1 || (j1 == b1 && j2 < b2)) ==> there < best_cost
                            }
                    },
                decreases n - i2,
            {
                let v2: usize = self.graph.active[i2];
                proof {
                    assert(self.graph.is_active(v1 as int));
                    assert(self.graph.is_active(v2 as int));
                    lemma_active_below_len(&self.graph, v1 as int);
                    lemma_active_below_len(&self.graph, v2 as int);
                }
                let edge = self.graph.edges.get(v1, v2);
                if !edge.fixed && edge.weight > 0 {
                    let cost: u32 = self.packing.edge_conflicts.get(v1, v2);
                    if cost > best_cost {
                        best_cost = cost;
                        best_v1 = v1;
                        best_v2 = v2;
                        best_weight = edge.weight;
                        proof {
                            b1 = i1 as int;
                            b2 = i2 as int;
                        }
                    }
                }
                i2 += 1;
            }
            i1 += 1;
        }
        if best_cost == 0 {
            EdgeMod::Nothing
        } else {
            proof {
                assert(self.is_best(b1, b2));
            }
            if best_weight as i64 > best_cost as i64 {
                EdgeMod::Merge(best_v1, best_v2)
            } else {
                EdgeMod::Cut(best_v1, best_v2)
            }
        }
    }
}

} // verus!
