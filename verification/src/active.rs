//! Walking the active vertices from a position on.

use vstd::prelude::*;

verus! {

/// A walk over a list of vertices: the position of the next entry and the list.
#[derive(Clone, Copy)]
pub struct Active<'a> {
    from: usize,
    active: &'a [usize],
}

impl<'a> Active<'a> {
    /// The position of the next entry.
    pub closed spec fn position(&self) -> int {
        self.from as int
    }

    /// The list that is walked.
    pub closed spec fn list(&self) -> Seq<usize> {
        self.active@
    }

    /// The next entry with the position behind it, if the list has not ended.
    pub fn next(&mut self) -> (res: Option<(usize, usize)>)
        ensures
            final(self).list() == old(self).list(),
            old(self).position() < old(self).list().len() ==> res == Some(
                ((old(self).position() + 1) as usize, old(self).list()[old(self).position()]),
            ) && final(self).position() == old(self).position() + 1,
            old(self).position() >= old(self).list().len() ==> res is None && final(self).position() == old(self).position(),
    {
        if self.from < self.active.len() {
            let res = self.active[self.from];
            self.from += 1;
            Some((self.from, res))
        } else {
            None
        }
    }
}

/// Lists that can be walked from a position on.
pub trait AllFrom {
    type Iter;

    /// The walk that starts at position `from`.
    fn all(self, from: usize) -> Self::Iter;
}

impl<'a> AllFrom for &'a [usize] {
    type Iter = Active<'a>;

    fn all(self, from: usize) -> (walk: Active<'a>)
        ensures
            walk.position() == from,
            walk.list() == self@,
    {
        Active { from, active: self }
    }
}

} // verus!
