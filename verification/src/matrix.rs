//! Dense symmetric storage addressed by an unordered pair of indices.

use vstd::prelude::*;

verus! {

/// A square table with one cell per unordered pair of indices below its size.
#[derive(Debug)]
pub struct Matrix<T> {
    cells: Vec<T>,
    size: usize,
}

/// The cell of an ordered pair lies within the storage.

pub proof fn lemma_cell_index(lo: int, hi: int, n: int)
    requires
        0 <= lo <= hi < n,
    ensures
        0 <= lo * n + hi < n * n,
{
    assert(lo * n + hi < n * n) by (nonlinear_arith)
        requires
            0 <= lo <= hi < n,
    ;
    assert(0 <= lo * n) by (nonlinear_arith)
        requires
            0 <= lo,
            0 < n,
    ;
}

/// Different ordered pairs have different cells.

pub proof fn lemma_cell_index_injective(a: int, b: int, c: int, d: int, n: int)
    requires
        0 <= a,
        0 <= b < n,
        0 <= c,
        0 <= d < n,
        a * n + b == c * n + d,
    ensures
        a == c,
        b == d,
{
    assert(a == c) by (nonlinear_arith)
        requires
            0 <= a,
            0 <= b < n,
            0 <= c,
            0 <= d < n,
            a * n + b == c * n + d,
    ;
}

impl<T: Copy> Matrix<T> {
    /// A well-formed matrix addresses fewer than 2^32 indices.
    pub proof fn lemma_len_bound(&self)
        requires
            self.wf(),
        ensures
            self.spec_len() * self.spec_len() <= usize::MAX,
            self.spec_len() <= u32::MAX,
    {
        let n = self.size as int;
        if n > u32::MAX {
            assert(n * n > usize::MAX) by (nonlinear_arith)
                requires
                    n >= 0x1_0000_0000,
                    usize::MAX <= 0xffff_ffff_ffff_ffff,
            ;
        }
    }

    /// The number of indices that the matrix addresses.
    pub closed spec fn spec_len(&self) -> int {
        self.size as int
    }

    /// The storage holds exactly one cell for each ordered pair of indices.
    pub closed spec fn wf(&self) -> bool {
        self.cells.len() == self.size * self.size
    }

    /// The cell of the ordered pair `lo <= hi`.
    pub closed spec fn cell(&self, lo: int, hi: int) -> T {
        self.cells@[lo * self.size + hi]
    }

    /// The value stored for the unordered pair `{a, b}`.
    pub open spec fn at(&self, a: int, b: int) -> T {
        if a <= b {
            self.cell(a, b)
        } else {
            self.cell(b, a)
        }
    }

    /// A matrix over `len` indices with `val` stored for every pair.
    pub fn new(val: T, len: usize) -> (m: Self)
        requires
            len * len <= usize::MAX,
        ensures
            m.wf(),
            m.spec_len() == len,
            forall|lo: int, hi: int| 0 <= lo <= hi < len ==> #[trigger] m.cell(lo, hi) == val,
    {
        let total: usize = len * len;
        let mut cells: Vec<T> = Vec::new();
        let mut i: usize = 0;
        while i < total
            invariant
                i <= total,
                cells.len() == i,
                forall|k: int| 0 <= k < i ==> cells@[k] == val,
            decreases total - i,
        {
            cells.push(val);
            i += 1;
        }
        let m = Matrix { cells, size: len };
        assert forall|lo: int, hi: int| 0 <= lo <= hi < len implies #[trigger] m.cell(lo, hi)
            == val by {
            lemma_cell_index(lo, hi, len as int);
        }
        m
    }

    /// Whether the storage holds exactly one cell for each ordered pair of indices.
    pub fn is_wf(&self) -> (ok: bool)
        ensures
            ok == self.wf(),
    {
        match self.size.checked_mul(self.size) {
            Some(total) => self.cells.len() == total,
            None => false,
        }
    }

    /// The number of indices that the matrix addresses.
    pub fn len(&self) -> (n: usize)
        ensures
            n == self.spec_len(),
    {
        self.size
    }

    /// Reads the value stored for the unordered pair `{a, b}`.
    pub fn get(&self, a: usize, b: usize) -> (val: T)
        requires
            self.wf(),
            a < self.spec_len(),
            b < self.spec_len(),
        ensures
            val == self.at(a as int, b as int),
    {
        let lo: usize = if a <= b { a } else { b };
        let hi: usize = if a <= b { b } else { a };
        proof {
            lemma_cell_index(lo as int, hi as int, self.size as int);
        }
        self.cells[lo * self.size + hi]
    }

    /// Stores `val` for the unordered pair `{a, b}` and leaves every other pair alone.
    pub fn set(&mut self, a: usize, b: usize, val: T)
        requires
            old(self).wf(),
            a < old(self).spec_len(),
            b < old(self).spec_len(),
        ensures
            final(self).wf(),
            final(self).spec_len() == old(self).spec_len(),
            final(self).at(a as int, b as int) == val,
            forall|lo: int, hi: int|
                0 <= lo <= hi < old(self).spec_len() && !(lo == a && hi == b) && !(lo == b && hi
                    == a) ==> #[trigger] final(self).cell(lo, hi) == old(self).cell(lo, hi),
    {
        let lo: usize = if a <= b { a } else { b };
        let hi: usize = if a <= b { b } else { a };
        proof {
            lemma_cell_index(lo as int, hi as int, self.size as int);
        }
        let n: usize = self.size;
        let index: usize = lo * n + hi;
        self.cells.set(index, val);
        proof {
            assert forall|x: int, y: int|
                0 <= x <= y < n && !(x == a && y == b) && !(x == b && y == a) implies #[trigger] self.cell(
                x,
                y,
            ) == old(self).cell(x, y) by {
                lemma_cell_index(x, y, n as int);
                if x * n + y == lo * n + hi {
                    lemma_cell_index_injective(x, y, lo as int, hi as int, n as int);
                }
            }
        }
    }
}

impl<T: Copy> Clone for Matrix<T> {
    /// A copy that stores the same value for every pair.
    fn clone(&self) -> (m: Self)
        ensures
            m.wf() == self.wf(),
            m.spec_len() == self.spec_len(),
            forall|lo: int, hi: int| #[trigger] m.cell(lo, hi) == self.cell(lo, hi),
    {
        let mut cells: Vec<T> = Vec::new();
        let mut i: usize = 0;
        while i < self.cells.len()
            invariant
                i <= self.cells.len(),
                cells.len() == i,
                forall|k: int| 0 <= k < i ==> cells@[k] == self.cells@[k],
            decreases self.cells.len() - i,
        {
            cells.push(self.cells[i]);
            i += 1;
        }
        assert(cells@ =~= self.cells@);
        Matrix { cells, size: self.size }
    }
}

} // verus!
