//! Building the graph of an instance from its list of positive edges.

use vstd::prelude::*;
use crate::graph::{Edge, Graph};

verus! {

/// The input does not describe an instance.
#[derive(Debug, Clone, Copy, PartialEq, Eq, Structural)]
pub struct InvalidInput;

/// Whether `(u, v)` names two different vertices of `1..=n`.
pub open spec fn names_pair(n: int, pair: (usize, usize)) -> bool {
    1 <= pair.0 <= n && 1 <= pair.1 <= n && pair.0 != pair.1
}

/// Whether one of the first `k` entries of the list names the pair `{a, b}`, counted from zero.
pub open spec fn named(pairs: Seq<(usize, usize)>, k: int, a: int, b: int) -> bool {
    exists|j: int|
        0 <= j < k && ((#[trigger] pairs[j]).0 == a + 1 && pairs[j].1 == b + 1 || pairs[j].0 == b
            + 1 && pairs[j].1 == a + 1)
}

/// Whether a graph of `n` vertices fits the machine.
pub open spec fn fits(n: int) -> bool {
    4 * n * n <= usize::MAX && n * n <= u32::MAX
}

/// The graph of an instance with the vertices `1..=n` and the given
/// positive edges: weight `1` on every pair that the list names and
/// weight `-1` on every other pair. The input is refused where the graph
/// does not fit the machine or an entry does not name a pair of vertices.
pub fn build(n: usize, pairs: &Vec<(usize, usize)>) -> (res: Result<Graph, InvalidInput>)
    ensures
        res is Ok <==> fits(n as int) && forall|j: int|
            0 <= j < pairs.len() ==> names_pair(n as int, #[trigger] pairs@[j]),
        res is Ok ==> {
            let g = res->Ok_0;
            &&& g.wf()
            &&& g.cap() == 2 * n
            &&& g.len == n
            &&& g.active@ == Seq::new(n as nat, |k: int| k as usize)
            &&& forall|v: int| 0 <= v < g.cap() ==> #[trigger] g.vertex_merged@[v] is None
            &&& forall|a: int, b: int|
                0 <= a < n && 0 <= b < n && a != b ==> #[trigger] g.edge(a, b) == (Edge {
                    weight: if named(pairs@, pairs.len() as int, a, b) {
                        1i32
                    } else {
                        -1i32
                    },
                    fixed: false,
                })
        },
{
    if n > 0xffff {
        proof {
            assert(n as int * n as int > u32::MAX) by (nonlinear_arith)
                requires
                    n >= 0x10000,
            ;
        }
        return Err(InvalidInput);
    }
    proof {
        assert(n * n <= u32::MAX) by (nonlinear_arith)
            requires
                n <= 0xffff,
        ;
    }
    let square: u64 = (n as u64) * (n as u64);
    proof {
        assert(4 * n * n == 4 * (n * n)) by (nonlinear_arith);
    }
    if 4 * square > usize::MAX as u64 {
        return Err(InvalidInput);
    }
    let mut graph = Graph::new(n);
    let mut k: usize = 0;
    while k < pairs.len()
        invariant
            n <= 0xffff,
            fits(n as int),
            k <= pairs.len(),
            graph.wf(),
            graph.cap() == 2 * n,
            graph.len == n,
            graph.active@ == Seq::new(n as nat, |k: int| k as usize),
            forall|v: int| 0 <= v < graph.cap() ==> #[trigger] graph.vertex_merged@[v] is None,
            forall|j: int| 0 <= j < k ==> names_pair(n as int, #[trigger] pairs@[j]),
            forall|a: int, b: int|
                0 <= a < n && 0 <= b < n && a != b ==> #[trigger] graph.edge(a, b) == (Edge {
                    weight: if named(pairs@, k as int, a, b) {
                        1i32
                    } else {
                        -1i32
                    },
                    fixed: false,
                }),
        decreases pairs.len() - k,
    {
        let (u, v) = pairs[k];
        if u < 1 || u > n || v < 1 || v > n || u == v {
            return Err(InvalidInput);
        }
        let a: usize = u - 1;
        let b: usize = v - 1;
        let ghost before = graph;
        proof {
            assert(graph.active@[a as int] == a);
            assert(graph.active@[b as int] == b);
            assert(graph.is_pair(a as int, b as int));
            lemma_weights_fit(&graph, n as int);
        }
        graph.un_cut(a, b, Edge::new(1));
        proof {
            assert forall|x: int, y: int|
                0 <= x < n && 0 <= y < n && x != y implies #[trigger] graph.edge(x, y) == (Edge {
                weight: if named(pairs@, k as int + 1, x, y) {
                    1i32
                } else {
                    -1i32
                },
                fixed: false,
            }) by {
                assert(graph.edge(a as int, b as int) == graph.edge(b as int, a as int));
                if (x == a && y == b) || (x == b && y == a) {
                    assert(pairs@[k as int].0 == a + 1 && pairs@[k as int].1 == b + 1);
                } else {
                    assert(graph.edge(x, y) == before.edge(x, y));
                    if named(pairs@, k as int + 1, x, y) {
                        let j = choose|j: int|
                            0 <= j < k + 1 && ((#[trigger] pairs@[j]).0 == x + 1 && pairs@[j].1 == y
                                + 1 || pairs@[j].0 == y + 1 && pairs@[j].1 == x + 1);
                        assert(j < k);
                    }
                    if named(pairs@, k as int, x, y) {
                        let j = choose|j: int|
                            0 <= j < k && ((#[trigger] pairs@[j]).0 == x + 1 && pairs@[j].1 == y + 1
                                || pairs@[j].0 == y + 1 && pairs@[j].1 == x + 1);
                        assert(0 <= j < k + 1);
                    }
                }
            }
        }
        k += 1;
    }
    Ok(graph)
}

/// Where every pair of active vertices weighs one or minus one, any of
/// them can be given the weight one.
proof fn lemma_weights_fit(g: &Graph, n: int)
    requires
        g.wf(),
        0 <= n,
        n * n <= u32::MAX,
        n <= g.cap(),
        g.active@ == Seq::new(n as nat, |k: int| k as usize),
        forall|a: int, b: int|
            0 <= a < n && 0 <= b < n && a != b ==> (#[trigger] g.edge(a, b)).magnitude() == 1,
    ensures
        g.weight_sum() <= n * n - 2 || n < 2,
        forall|a: int, b: int| g.is_pair(a, b) ==> 0 <= a < n && 0 <= b < n,
{
    assert forall|a: int, b: int| g.is_pair(a, b) implies 0 <= a < n && 0 <= b < n by {
        let i = choose|k: int| 0 <= k < g.active.len() && g.active@[k] == a;
        let j = choose|k: int| 0 <= k < g.active.len() && g.active@[k] == b;
        assert(g.active@[i] == i);
        assert(g.active@[j] == j);
    }
    if n >= 2 {
        let f = |a: int, b: int| g.pair_magnitude(a, b);
        let one = |a: int, b: int|
            if 0 <= a < n && 0 <= b < n {
                1int
            } else {
                0int
            };
        let low = |a: int, b: int|
            if (a == 0 && b == 0) || (a == 1 && b == 1) {
                0int
            } else {
                one(a, b)
            };
        let d1 = |a: int, b: int|
            if a == 0 && b == 0 {
                1int
            } else {
                0int
            };
        let d2 = |a: int, b: int|
            if a == 1 && b == 1 {
                1int
            } else {
                0int
            };
        let d = |a: int, b: int| d1(a, b) + d2(a, b);
        assert forall|a: int, b: int| 0 <= a < g.cap() && 0 <= b < g.cap() implies #[trigger] f(
            a,
            b,
        ) <= low(a, b) by {
            if g.is_pair(a, b) {
                assert(0 <= a < n && 0 <= b < n);
            }
        }
        crate::sums::lemma_square_le(f, low, g.cap());
        crate::sums::lemma_square_block(one, n, g.cap());
        crate::sums::lemma_square_point(d1, g.cap(), 0, 0);
        crate::sums::lemma_square_point(d2, g.cap(), 1, 1);
        crate::sums::lemma_square_add(d, d1, d2, g.cap());
        crate::sums::lemma_square_add(one, low, d, g.cap());
    }
}

} // verus!
