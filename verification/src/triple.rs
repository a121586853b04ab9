//! A conflict triple and the cost that it claims.

use vstd::prelude::*;

verus! {

/// Three vertices in ascending order and the cost claimed against each of their three edges.
#[derive(Debug, PartialEq, Eq, PartialOrd, Ord, Clone, Copy)]
pub struct Triple {
    pub vertices: [usize; 3],
    pub cost: u32,
}

/// The least of three indices.
pub open spec fn least3(a: int, b: int, c: int) -> int {
    if a <= b && a <= c {
        a
    } else if b <= c {
        b
    } else {
        c
    }
}

/// The greatest of three indices.
pub open spec fn greatest3(a: int, b: int, c: int) -> int {
    if a >= b && a >= c {
        a
    } else if b >= c {
        b
    } else {
        c
    }
}

/// The one of three indices that lies between the other two.
pub open spec fn middle3(a: int, b: int, c: int) -> int {
    a + b + c - least3(a, b, c) - greatest3(a, b, c)
}

/// The triple of the vertices `a`, `b` and `c`, in ascending order, with the given cost.
pub open spec fn triple_of(a: int, b: int, c: int, cost: int) -> Triple {
    Triple {
        vertices: [
            least3(a, b, c) as usize,
            middle3(a, b, c) as usize,
            greatest3(a, b, c) as usize,
        ],
        cost: cost as u32,
    }
}

impl Triple {
    /// The least of the three vertices.
    pub open spec fn v0(self) -> int {
        self.vertices@[0] as int
    }

    /// The vertex in the middle.

    pub open spec fn v1(self) -> int {
        self.vertices@[1] as int
    }

    /// The greatest of the three vertices.

    pub open spec fn v2(self) -> int {
        self.vertices@[2] as int
    }

    /// The vertices ascend strictly.
    pub open spec fn sorted(self) -> bool {
        self.v0() < self.v1() < self.v2()
    }

    /// Whether `v` is one of the three vertices.
    pub open spec fn has_vertex(self, v: int) -> bool {
        v == self.v0() || v == self.v1() || v == self.v2()
    }

    /// Whether `a` and `b` are two different vertices of the triple.
    pub open spec fn has_edge(self, a: int, b: int) -> bool {
        a != b && self.has_vertex(a) && self.has_vertex(b)
    }

    /// The triple of the given vertices, in ascending order, with the given cost.
    pub fn new(vertices: [usize; 3], cost: u32) -> (t: Self)
        ensures
            t == triple_of(
                vertices@[0] as int,
                vertices@[1] as int,
                vertices@[2] as int,
                cost as int,
            ),
    {
        let a: usize = vertices[0];
        let b: usize = vertices[1];
        let c: usize = vertices[2];
        let lo: usize = if a <= b && a <= c {
            a
        } else if b <= c {
            b
        } else {
            c
        };
        let hi: usize = if a >= b && a >= c {
            a
        } else if b >= c {
            b
        } else {
            c
        };
        let mid: usize = if (a <= b && b <= c) || (c <= b && b <= a) {
            b
        } else if (b <= a && a <= c) || (c <= a && a <= b) {
            a
        } else {
            c
        };
        let t = Triple { vertices: [lo, mid, hi], cost };
        assert(t.vertices =~= triple_of(a as int, b as int, c as int, cost as int).vertices);
        t
    }

    /// Whether both ends of the given edge are vertices of the triple.
    pub fn edge(&self, vertices: [usize; 2]) -> (found: bool)
        requires
            self.sorted(),
            vertices@[0] != vertices@[1],
        ensures
            found == self.has_edge(vertices@[0] as int, vertices@[1] as int),
    {
        let lo: usize = if vertices[0] <= vertices[1] {
            vertices[0]
        } else {
            vertices[1]
        };
        let hi: usize = if vertices[0] <= vertices[1] {
            vertices[1]
        } else {
            vertices[0]
        };
        let e11 = lo == self.vertices[0];
        let e12 = lo == self.vertices[1];
        let e22 = hi == self.vertices[1];
        let e23 = hi == self.vertices[2];
        (e11 || e12) && (e22 || e23)
    }

    /// Whether `v1` is one of the three vertices.
    pub fn vertex(&self, v1: usize) -> (found: bool)
        ensures
            found == self.has_vertex(v1 as int),
    {
        let e11 = v1 == self.vertices[0];
        let e12 = v1 == self.vertices[1];
        let e13 = v1 == self.vertices[2];
        e11 || e12 || e13
    }
}

} // verus!
