//! Finite sums over index ranges, and the lemmas used to reason about them.

use vstd::prelude::*;

verus! {

/// The sum `f(0) + ... + f(n - 1)`.
pub open spec fn sum_to(f: spec_fn(int) -> int, n: int) -> int
    decreases n,
{
    if n <= 0 {
        0
    } else {
        sum_to(f, n - 1) + f(n - 1)
    }
}

/// The sum of `f(a, b)` over row `a`, for `0 <= b < n`.
pub open spec fn row_sum(f: spec_fn(int, int) -> int, a: int, n: int) -> int {
    sum_to(|b: int| f(a, b), n)
}

/// The sum of `f(a, b)` over all ordered pairs with `0 <= a, b < n`.
pub open spec fn square_sum(f: spec_fn(int, int) -> int, n: int) -> int {
    sum_to(|a: int| row_sum(f, a, n), n)
}

/// The sum of `f(a, b)` over all pairs with `0 <= b < a < n`: each unordered
/// pair of distinct indices counts once.
pub open spec fn pair_sum(f: spec_fn(int, int) -> int, n: int) -> int {
    sum_to(|a: int| row_sum(f, a, a), n)
}

/// The sum of `f(s[0]) + ... + f(s[k - 1])` over a prefix of a sequence of indices.
pub open spec fn seq_sum(s: Seq<usize>, f: spec_fn(int) -> int, k: int) -> int
    decreases k,
{
    if k <= 0 {
        0
    } else {
        seq_sum(s, f, k - 1) + f(s[k - 1] as int)
    }
}

/// A sum of smaller terms is smaller.

pub proof fn lemma_sum_le(f: spec_fn(int) -> int, g: spec_fn(int) -> int, n: int)
    requires
        forall|i: int| 0 <= i < n ==> #[trigger] f(i) <= g(i),
    ensures
        sum_to(f, n) <= sum_to(g, n),
    decreases n,
{
    if n > 0 {
        lemma_sum_le(f, g, n - 1);
    }
}

/// Sums of equal terms are equal.

pub proof fn lemma_sum_eq(f: spec_fn(int) -> int, g: spec_fn(int) -> int, n: int)
    requires
        forall|i: int| 0 <= i < n ==> #[trigger] f(i) == g(i),
    ensures
        sum_to(f, n) == sum_to(g, n),
    decreases n,
{
    if n > 0 {
        lemma_sum_eq(f, g, n - 1);
    }
}

/// The sum of sums of terms is the sum of the sums.

pub proof fn lemma_sum_add(
    h: spec_fn(int) -> int,
    f: spec_fn(int) -> int,
    g: spec_fn(int) -> int,
    n: int,
)
    requires
        forall|i: int| 0 <= i < n ==> #[trigger] h(i) == f(i) + g(i),
    ensures
        sum_to(h, n) == sum_to(f, n) + sum_to(g, n),
    decreases n,
{
    if n > 0 {
        lemma_sum_add(h, f, g, n - 1);
    }
}

/// A sum of zeros is zero.

pub proof fn lemma_sum_zero(f: spec_fn(int) -> int, n: int)
    requires
        forall|i: int| 0 <= i < n ==> #[trigger] f(i) == 0,
    ensures
        sum_to(f, n) == 0,
    decreases n,
{
    if n > 0 {
        lemma_sum_zero(f, n - 1);
    }
}

/// A sum of non-negative terms is not negative.

pub proof fn lemma_sum_nonneg(f: spec_fn(int) -> int, n: int)
    requires
        forall|i: int| 0 <= i < n ==> #[trigger] f(i) >= 0,
    ensures
        sum_to(f, n) >= 0,
    decreases n,
{
    if n > 0 {
        lemma_sum_nonneg(f, n - 1);
    }
}

/// A sum whose terms vanish everywhere but at `k` equals the term at `k`.
pub proof fn lemma_sum_point(f: spec_fn(int) -> int, n: int, k: int)
    requires
        forall|i: int| 0 <= i < n && i != k ==> #[trigger] f(i) == 0,
    ensures
        sum_to(f, n) == if 0 <= k < n { f(k) } else { 0 },
    decreases n,
{
    if n > 0 {
        lemma_sum_point(f, n - 1, k);
    }
}

/// A sum of non-negative terms is at least each of its terms.
pub proof fn lemma_sum_ge_point(f: spec_fn(int) -> int, n: int, k: int)
    requires
        forall|i: int| 0 <= i < n ==> #[trigger] f(i) >= 0,
        0 <= k < n,
    ensures
        sum_to(f, n) >= f(k),
    decreases n,
{
    if k == n - 1 {
        lemma_sum_nonneg(f, n - 1);
    } else {
        lemma_sum_ge_point(f, n - 1, k);
    }
}

/// A sum whose terms vanish everywhere but at three distinct indices is the
/// sum of the terms at those of them that are in range.
pub proof fn lemma_sum_three_points(f: spec_fn(int) -> int, n: int, k1: int, k2: int, k3: int)
    requires
        k1 != k2,
        k1 != k3,
        k2 != k3,
        forall|i: int| 0 <= i < n && i != k1 && i != k2 && i != k3 ==> #[trigger] f(i) == 0,
    ensures
        sum_to(f, n) == (if 0 <= k1 < n {
            f(k1)
        } else {
            0
        }) + (if 0 <= k2 < n {
            f(k2)
        } else {
            0
        }) + (if 0 <= k3 < n {
            f(k3)
        } else {
            0
        }),
    decreases n,
{
    if n > 0 {
        lemma_sum_three_points(f, n - 1, k1, k2, k3);
    }
}

/// A sum of non-negative terms is at least the sum of two of its terms.
pub proof fn lemma_sum_ge_two_points(f: spec_fn(int) -> int, n: int, k1: int, k2: int)
    requires
        k1 != k2,
        forall|i: int| 0 <= i < n ==> #[trigger] f(i) >= 0,
    ensures
        sum_to(f, n) >= (if 0 <= k1 < n {
            f(k1)
        } else {
            0
        }) + (if 0 <= k2 < n {
            f(k2)
        } else {
            0
        }),
    decreases n,
{
    if n > 0 {
        lemma_sum_ge_two_points(f, n - 1, k1, k2);
    }
}

/// For non-negative terms, the sum along a prefix of a sequence grows with the prefix.
pub proof fn lemma_seq_sum_mono(s: Seq<usize>, f: spec_fn(int) -> int, k: int, n: int)
    requires
        0 <= k <= n <= s.len(),
        forall|j: int| 0 <= j < s.len() ==> f(#[trigger] s[j] as int) >= 0,
    ensures
        0 <= seq_sum(s, f, k) <= seq_sum(s, f, n),
    decreases n,
{
    if k < n {
        lemma_seq_sum_mono(s, f, k, n - 1);
    } else if n > 0 {
        lemma_seq_sum_mono(s, f, k - 1, n - 1);
    }
}

/// Summing `f` along a sequence of distinct indices below `n` is the same as
/// summing, over all indices below `n`, the terms of those that occur in it.
pub proof fn lemma_seq_sum_as_sum(
    s: Seq<usize>,
    f: spec_fn(int) -> int,
    g: spec_fn(int) -> int,
    k: int,
    n: int,
)
    requires
        0 <= k <= s.len(),
        s.no_duplicates(),
        forall|j: int| 0 <= j < s.len() ==> (#[trigger] s[j]) < n,
        forall|c: int|
            0 <= c < n ==> #[trigger] g(c) == if exists|j: int| 0 <= j < k && s[j] == c {
                f(c)
            } else {
                0
            },
    ensures
        seq_sum(s, f, k) == sum_to(g, n),
    decreases k,
{
    if k == 0 {
        lemma_sum_zero(g, n);
    } else {
        let x = s[k - 1] as int;
        let g0 = |c: int|
            if exists|j: int| 0 <= j < k - 1 && s[j] == c {
                f(c)
            } else {
                0
            };
        let d = |c: int|
            if c == x {
                f(x)
            } else {
                0
            };
        lemma_seq_sum_as_sum(s, f, g0, k - 1, n);
        assert forall|c: int| 0 <= c < n implies #[trigger] g(c) == g0(c) + d(c) by {
            if c == x {
                assert(s[k - 1] == c);
            } else if exists|j: int| 0 <= j < k && s[j] == c {
                let j = choose|j: int| 0 <= j < k && s[j] == c;
                assert(0 <= j < k - 1 && s[j] == c);
            }
        }
        lemma_sum_add(g, g0, d, n);
        lemma_sum_point(d, n, x);
    }
}

/// Sums of equal terms over the square are equal.

pub proof fn lemma_square_eq(f: spec_fn(int, int) -> int, g: spec_fn(int, int) -> int, n: int)
    requires
        forall|a: int, b: int| 0 <= a < n && 0 <= b < n ==> #[trigger] f(a, b) == g(a, b),
    ensures
        square_sum(f, n) == square_sum(g, n),
{
    let rf = |a: int| row_sum(f, a, n);
    let rg = |a: int| row_sum(g, a, n);
    assert forall|a: int| 0 <= a < n implies #[trigger] rf(a) == rg(a) by {
        lemma_sum_eq(|b: int| f(a, b), |b: int| g(a, b), n);
    }
    lemma_sum_eq(rf, rg, n);
}

/// A sum of smaller terms over the square is smaller.

pub proof fn lemma_square_le(f: spec_fn(int, int) -> int, g: spec_fn(int, int) -> int, n: int)
    requires
        forall|a: int, b: int| 0 <= a < n && 0 <= b < n ==> #[trigger] f(a, b) <= g(a, b),
    ensures
        square_sum(f, n) <= square_sum(g, n),
{
    let rf = |a: int| row_sum(f, a, n);
    let rg = |a: int| row_sum(g, a, n);
    assert forall|a: int| 0 <= a < n implies #[trigger] rf(a) <= rg(a) by {
        lemma_sum_le(|b: int| f(a, b), |b: int| g(a, b), n);
    }
    lemma_sum_le(rf, rg, n);
}

/// The sum over the square of sums of terms is the sum of the sums.

pub proof fn lemma_square_add(
    h: spec_fn(int, int) -> int,
    f: spec_fn(int, int) -> int,
    g: spec_fn(int, int) -> int,
    n: int,
)
    requires
        forall|a: int, b: int|
            0 <= a < n && 0 <= b < n ==> #[trigger] h(a, b) == f(a, b) + g(a, b),
    ensures
        square_sum(h, n) == square_sum(f, n) + square_sum(g, n),
{
    let rh = |a: int| row_sum(h, a, n);
    let rf = |a: int| row_sum(f, a, n);
    let rg = |a: int| row_sum(g, a, n);
    assert forall|a: int| 0 <= a < n implies #[trigger] rh(a) == rf(a) + rg(a) by {
        lemma_sum_add(|b: int| h(a, b), |b: int| f(a, b), |b: int| g(a, b), n);
    }
    lemma_sum_add(rh, rf, rg, n);
}

/// A sum of zeros over the square is zero.

pub proof fn lemma_square_zero(f: spec_fn(int, int) -> int, n: int)
    requires
        forall|a: int, b: int| 0 <= a < n && 0 <= b < n ==> #[trigger] f(a, b) == 0,
    ensures
        square_sum(f, n) == 0,
{
    let rf = |a: int| row_sum(f, a, n);
    assert forall|a: int| 0 <= a < n implies #[trigger] rf(a) == 0 by {
        lemma_sum_zero(|b: int| f(a, b), n);
    }
    lemma_sum_zero(rf, n);
}

/// A sum of non-negative terms over the square is not negative.

pub proof fn lemma_square_nonneg(f: spec_fn(int, int) -> int, n: int)
    requires
        forall|a: int, b: int| 0 <= a < n && 0 <= b < n ==> #[trigger] f(a, b) >= 0,
    ensures
        square_sum(f, n) >= 0,
{
    let rf = |a: int| row_sum(f, a, n);
    assert forall|a: int| 0 <= a < n implies #[trigger] rf(a) >= 0 by {
        lemma_sum_nonneg(|b: int| f(a, b), n);
    }
    lemma_sum_nonneg(rf, n);
}

/// A sum over the square whose terms vanish everywhere but at `(k, l)`
/// equals the term at `(k, l)`.
pub proof fn lemma_square_point(f: spec_fn(int, int) -> int, n: int, k: int, l: int)
    requires
        0 <= k < n,
        0 <= l < n,
        forall|a: int, b: int|
            0 <= a < n && 0 <= b < n && !(a == k && b == l) ==> #[trigger] f(a, b) == 0,
    ensures
        square_sum(f, n) == f(k, l),
{
    let rf = |a: int| row_sum(f, a, n);
    assert forall|a: int| 0 <= a < n && a != k implies #[trigger] rf(a) == 0 by {
        lemma_sum_zero(|b: int| f(a, b), n);
    }
    lemma_sum_point(rf, n, k);
    lemma_sum_point(|b: int| f(k, b), n, l);
}

/// Changing `f` at the two cells `(k, l)` and `(l, k)` by `delta` each
/// changes the sum over the square by twice `delta`.
pub proof fn lemma_square_update_pair(
    f: spec_fn(int, int) -> int,
    g: spec_fn(int, int) -> int,
    n: int,
    k: int,
    l: int,
    delta: int,
)
    requires
        0 <= k < n,
        0 <= l < n,
        k != l,
        forall|a: int, b: int|
            0 <= a < n && 0 <= b < n && !(a == k && b == l) && !(a == l && b == k)
                ==> #[trigger] g(a, b) == f(a, b),
        g(k, l) == f(k, l) + delta,
        g(l, k) == f(l, k) + delta,
    ensures
        square_sum(g, n) == square_sum(f, n) + 2 * delta,
{
    let d1 = |a: int, b: int| if a == k && b == l { delta } else { 0 };
    let d2 = |a: int, b: int| if a == l && b == k { delta } else { 0 };
    let d = |a: int, b: int| d1(a, b) + d2(a, b);
    lemma_square_point(d1, n, k, l);
    lemma_square_point(d2, n, l, k);
    lemma_square_add(d, d1, d2, n);
    assert forall|a: int, b: int| 0 <= a < n && 0 <= b < n implies #[trigger] g(a, b) == f(a, b)
        + d(a, b) by {}
    lemma_square_add(g, f, d, n);
}

/// A sum whose first `n` terms are `c` and whose other terms vanish is `c * n`.
pub proof fn lemma_sum_prefix_const(f: spec_fn(int) -> int, n: int, m: int, c: int)
    requires
        0 <= n <= m,
        forall|i: int| 0 <= i < m ==> #[trigger] f(i) == if i < n { c } else { 0 },
    ensures
        sum_to(f, m) == c * n,
    decreases m,
{
    if m > n {
        lemma_sum_prefix_const(f, n, m - 1, c);
    } else if m > 0 {
        lemma_sum_prefix_const(f, n - 1, m - 1, c);
        assert(c * (n - 1) + c == c * n) by (nonlinear_arith);
    } else {
        assert(c * 0 == 0);
    }
}

/// The indicator of the block of the first `n` rows and columns sums to `n * n`.
pub proof fn lemma_square_block(f: spec_fn(int, int) -> int, n: int, m: int)
    requires
        0 <= n <= m,
        forall|a: int, b: int|
            0 <= a < m && 0 <= b < m ==> #[trigger] f(a, b) == if a < n && b < n {
                1int
            } else {
                0int
            },
    ensures
        square_sum(f, m) == n * n,
{
    let rows = |a: int| row_sum(f, a, m);
    assert forall|a: int| 0 <= a < m implies #[trigger] rows(a) == if a < n { n } else { 0 } by {
        if a < n {
            lemma_sum_prefix_const(|b: int| f(a, b), n, m, 1);
        } else {
            lemma_sum_zero(|b: int| f(a, b), m);
        }
    }
    lemma_sum_prefix_const(rows, n, m, n);
}

/// For a symmetric `f` that vanishes on the diagonal, the sum over ordered
/// pairs counts every unordered pair twice.
pub proof fn lemma_square_is_twice_pairs(f: spec_fn(int, int) -> int, n: int)
    requires
        forall|a: int, b: int| 0 <= a < n && 0 <= b < n ==> #[trigger] f(a, b) == f(b, a),
        forall|a: int| 0 <= a < n ==> #[trigger] f(a, a) == 0,
    ensures
        square_sum(f, n) == 2 * pair_sum(f, n),
    decreases n,
{
    if n > 0 {
        let m = n - 1;
        lemma_square_is_twice_pairs(f, m);
        let rows_n = |a: int| row_sum(f, a, n);
        let rows_m = |a: int| row_sum(f, a, m);
        let col = |a: int| f(a, m);
        assert forall|a: int| 0 <= a < m implies #[trigger] rows_n(a) == rows_m(a) + col(a) by {
            assert(sum_to(|b: int| f(a, b), n) == sum_to(|b: int| f(a, b), m) + f(a, m));
        }
        lemma_sum_add(rows_n, rows_m, col, m);
        lemma_sum_eq(col, |b: int| f(m, b), m);
        assert(sum_to(|b: int| f(m, b), n) == sum_to(|b: int| f(m, b), m) + f(m, m));
        assert(square_sum(f, n) == sum_to(rows_n, m) + rows_n(m));
        assert(square_sum(f, m) == sum_to(rows_m, m));
        assert(pair_sum(f, n) == pair_sum(f, m) + row_sum(f, m, m));
    }
}

/// Summing along a sequence is summing over its positions.
pub proof fn lemma_seq_sum_positions(
    s: Seq<usize>,
    f: spec_fn(int) -> int,
    fs: spec_fn(int) -> int,
    k: int,
)
    requires
        0 <= k <= s.len(),
        forall|i: int| 0 <= i < k ==> #[trigger] fs(i) == f(s[i] as int),
    ensures
        sum_to(fs, k) == seq_sum(s, f, k),
    decreases k,
{
    if k > 0 {
        lemma_seq_sum_positions(s, f, fs, k - 1);
    }
}

/// For non-negative terms, the sum over a shorter range is the smaller one.
pub proof fn lemma_sum_mono(f: spec_fn(int) -> int, k: int, n: int)
    requires
        0 <= k <= n,
        forall|i: int| 0 <= i < n ==> #[trigger] f(i) >= 0,
    ensures
        0 <= sum_to(f, k) <= sum_to(f, n),
    decreases n,
{
    if k < n {
        lemma_sum_mono(f, k, n - 1);
    } else if n > 0 {
        lemma_sum_mono(f, k - 1, n - 1);
    }
}

/// The part of the sum over pairs that covers the rows below `i` and the
/// first `j` cells of row `i`.
pub open spec fn pair_sum_upto(f: spec_fn(int, int) -> int, i: int, j: int) -> int {
    pair_sum(f, i) + row_sum(f, i, j)
}

/// For non-negative terms, a part of the sum over pairs is at most the whole.
pub proof fn lemma_pair_sum_upto(f: spec_fn(int, int) -> int, i: int, j: int, n: int)
    requires
        0 <= j <= i < n,
        forall|a: int, b: int| 0 <= b < a < n ==> #[trigger] f(a, b) >= 0,
    ensures
        0 <= pair_sum_upto(f, i, j) <= pair_sum(f, n),
        pair_sum_upto(f, i, i) == pair_sum_upto(f, i + 1, 0),
        j < i ==> pair_sum_upto(f, i, j + 1) == pair_sum_upto(f, i, j) + f(i, j),
{
    let rows = |a: int| row_sum(f, a, a);
    assert forall|a: int| 0 <= a < n implies #[trigger] rows(a) >= 0 by {
        lemma_sum_nonneg(|b: int| f(a, b), a);
    }
    lemma_sum_mono(rows, i + 1, n);
    lemma_sum_mono(rows, i, i + 1);
    lemma_sum_mono(|b: int| f(i, b), j, i);
}

/// Summing a symmetric `f` over the pairs of positions of a sequence of
/// distinct indices below `n` is summing it over the pairs of indices below
/// `n`, where `f` vanishes on every pair with an index that does not occur.
pub proof fn lemma_pair_sum_over_seq(
    s: Seq<usize>,
    f: spec_fn(int, int) -> int,
    fs: spec_fn(int, int) -> int,
    n: int,
)
    requires
        s.no_duplicates(),
        forall|j: int| 0 <= j < s.len() ==> (#[trigger] s[j]) < n,
        forall|a: int, b: int| 0 <= a < n && 0 <= b < n ==> #[trigger] f(a, b) == f(b, a),
        forall|a: int| 0 <= a < n ==> #[trigger] f(a, a) == 0,
        forall|a: int, b: int|
            0 <= a < n && 0 <= b < n && !((exists|j: int| 0 <= j < s.len() && s[j] == a)
                && (exists|j: int| 0 <= j < s.len() && s[j] == b)) ==> #[trigger] f(a, b) == 0,
        forall|i: int, j: int|
            0 <= i < s.len() && 0 <= j < s.len() ==> #[trigger] fs(i, j) == f(
                s[i] as int,
                s[j] as int,
            ),
    ensures
        pair_sum(fs, s.len() as int) == pair_sum(f, n),
        square_sum(fs, s.len() as int) == square_sum(f, n),
{
    let len = s.len() as int;
    lemma_square_is_twice_pairs(fs, len);
    lemma_square_is_twice_pairs(f, n);
    let rows = |a: int| row_sum(f, a, n);
    let rows_s = |i: int| row_sum(fs, i, len);
    assert forall|i: int| 0 <= i < len implies #[trigger] rows_s(i) == rows(s[i] as int) by {
        let a = s[i] as int;
        let fa = |b: int| f(a, b);
        let fsi = |j: int| fs(i, j);
        lemma_seq_sum_positions(s, fa, fsi, len);
        assert forall|c: int| 0 <= c < n implies #[trigger] fa(c) == if exists|j: int|
            0 <= j < len && s[j] == c {
            fa(c)
        } else {
            0
        } by {
            if !(exists|j: int| 0 <= j < len && s[j] == c) {
                assert(f(a, c) == 0);
            }
        }
        lemma_seq_sum_as_sum(s, fa, fa, len, n);
    }
    lemma_seq_sum_positions(s, rows, rows_s, len);
    assert forall|c: int| 0 <= c < n implies #[trigger] rows(c) == if exists|j: int|
        0 <= j < len && s[j] == c {
        rows(c)
    } else {
        0
    } by {
        if !(exists|j: int| 0 <= j < len && s[j] == c) {
            assert forall|b: int| 0 <= b < n implies (#[trigger] f(c, b)) == 0 by {}
            lemma_sum_zero(|b: int| f(c, b), n);
        }
    }
    lemma_seq_sum_as_sum(s, rows, rows, len, n);
}

/// How a symmetric sum over ordered pairs changes when rows `v1` and `v2`
/// are folded into a fresh row `vv`: with `f` the terms before and `g` the
/// terms after, `m(b)` what the fold loses against a third index `b`, and
/// `c12` the term of the pair `{v1, v2}` itself.
pub proof fn lemma_square_fold_rows(
    f: spec_fn(int, int) -> int,
    g: spec_fn(int, int) -> int,
    m: spec_fn(int) -> int,
    n: int,
    v1: int,
    v2: int,
    vv: int,
    c12: int,
)
    requires
        0 <= v1 < n,
        0 <= v2 < n,
        0 <= vv < n,
        v1 != v2,
        v1 != vv,
        v2 != vv,
        forall|a: int, b: int| 0 <= a < n && 0 <= b < n ==> #[trigger] f(a, b) == f(b, a),
        forall|a: int, b: int| 0 <= a < n && 0 <= b < n ==> #[trigger] g(a, b) == g(b, a),
        forall|a: int| 0 <= a < n ==> #[trigger] f(a, vv) == 0,
        forall|a: int| 0 <= a < n ==> #[trigger] g(a, v1) == 0,
        forall|a: int| 0 <= a < n ==> #[trigger] g(a, v2) == 0,
        f(v1, v1) == 0,
        f(v2, v2) == 0,
        g(vv, vv) == 0,
        f(v1, v2) == c12,
        forall|a: int, b: int|
            0 <= a < n && 0 <= b < n && a != v1 && a != v2 && a != vv && b != v1 && b != v2 && b
                != vv ==> #[trigger] g(a, b) == f(a, b),
        forall|b: int|
            0 <= b < n && b != v1 && b != v2 && b != vv ==> f(v1, b) + f(v2, b) == g(vv, b)
                + #[trigger] m(b),
        m(v1) == 0,
        m(v2) == 0,
        m(vv) == 0,
    ensures
        square_sum(f, n) == square_sum(g, n) + 2 * sum_to(m, n) + 2 * c12,
{
    let rf = |a: int| row_sum(f, a, n);
    let rg = |a: int| row_sum(g, a, n);
    let total = sum_to(m, n);
    // rows of the vertices that stay
    assert forall|a: int| 0 <= a < n && a != v1 && a != v2 && a != vv implies #[trigger] rf(a)
        == rg(a) + m(a) by {
        let e = |b: int|
            if b == v1 {
                f(a, v1)
            } else if b == v2 {
                f(a, v2)
            } else if b == vv {
                -g(a, vv)
            } else {
                0
            };
        let fa = |b: int| f(a, b);
        let ga = |b: int| g(a, b);
        assert forall|b: int| 0 <= b < n implies #[trigger] fa(b) == ga(b) + e(b) by {
            if b == v1 {
                assert(g(a, v1) == 0);
            } else if b == v2 {
                assert(g(a, v2) == 0);
            } else if b == vv {
                assert(f(a, vv) == 0);
            } else {
                assert(g(a, b) == f(a, b));
            }
        }
        lemma_sum_add(fa, ga, e, n);
        lemma_sum_three_points(e, n, v1, v2, vv);
        assert(f(a, v1) == f(v1, a));
        assert(f(a, v2) == f(v2, a));
        assert(g(a, vv) == g(vv, a));
    }
    // the two rows that are folded, against the fresh row
    let f12 = |b: int| f(v1, b) + f(v2, b);
    let f1 = |b: int| f(v1, b);
    let f2 = |b: int| f(v2, b);
    lemma_sum_add(f12, f1, f2, n);
    let gv = |b: int| g(vv, b);
    let e = |b: int|
        if b == v1 {
            c12
        } else if b == v2 {
            c12
        } else {
            0
        };
    let gm = |b: int| gv(b) + m(b);
    assert forall|b: int| 0 <= b < n implies #[trigger] f12(b) == gm(b) + e(b) by {
        if b == v1 {
            assert(f(v2, v1) == f(v1, v2));
            assert(g(vv, v1) == 0);
        } else if b == v2 {
            assert(g(vv, v2) == 0);
        } else if b == vv {
            assert(f(v1, vv) == 0);
            assert(f(v2, vv) == 0);
        } else {
            assert(f(v1, b) + f(v2, b) == g(vv, b) + m(b));
        }
    }
    lemma_sum_add(f12, gm, e, n);
    lemma_sum_add(gm, gv, m, n);
    lemma_sum_three_points(e, n, v1, v2, vv);
    assert(rf(v1) + rf(v2) == rg(vv) + total + 2 * c12);
    // the rows that vanish
    assert(rf(vv) == 0) by {
        assert forall|b: int| 0 <= b < n implies (#[trigger] f(vv, b)) == 0 by {
            assert(f(b, vv) == 0);
        }
        lemma_sum_zero(|b: int| f(vv, b), n);
    }
    assert(rg(v1) == 0) by {
        assert forall|b: int| 0 <= b < n implies (#[trigger] g(v1, b)) == 0 by {
            assert(g(b, v1) == 0);
        }
        lemma_sum_zero(|b: int| g(v1, b), n);
    }
    assert(rg(v2) == 0) by {
        assert forall|b: int| 0 <= b < n implies (#[trigger] g(v2, b)) == 0 by {
            assert(g(b, v2) == 0);
        }
        lemma_sum_zero(|b: int| g(v2, b), n);
    }
    // all rows together
    let t = |a: int|
        if a == v1 {
            rf(v1)
        } else if a == v2 {
            rf(v2)
        } else if a == vv {
            -rg(vv)
        } else {
            0
        };
    let rgm = |a: int| rg(a) + m(a);
    assert forall|a: int| 0 <= a < n implies #[trigger] rf(a) == rgm(a) + t(a) by {}
    lemma_sum_add(rf, rgm, t, n);
    lemma_sum_add(rgm, rg, m, n);
    lemma_sum_three_points(t, n, v1, v2, vv);
}

} // verus!
