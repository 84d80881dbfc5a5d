//! Finite sums of integer-valued functions over an initial segment of the
//! naturals, and over a square grid of index pairs.

use vstd::prelude::*;

verus! {

/// `f(0) + f(1) + ... + f(n - 1)`; zero where `n` is not positive.
pub open spec fn sum_to(f: spec_fn(int) -> int, n: int) -> int
    decreases n,
{
    if n <= 0 {
        0
    } else {
        sum_to(f, n - 1) + f(n - 1)
    }
}

/// Row `u` of a function of two indices.
pub open spec fn row(h: spec_fn(int, int) -> int, u: int) -> spec_fn(int) -> int {
    |v: int| h(u, v)
}

/// Column `v` of a function of two indices.
pub open spec fn col(h: spec_fn(int, int) -> int, v: int) -> spec_fn(int) -> int {
    |u: int| h(u, v)
}

/// The function that maps a row index to the sum of that row's first `cols` entries.
pub open spec fn row_sums(h: spec_fn(int, int) -> int, cols: int) -> spec_fn(int) -> int {
    |u: int| sum_to(row(h, u), cols)
}

/// The sum of `h(u, v)` over `0 <= u < rows` and `0 <= v < cols`.
pub open spec fn grid_sum(h: spec_fn(int, int) -> int, rows: int, cols: int) -> int {
    sum_to(row_sums(h, cols), rows)
}

/// Functions that agree below `n` have the same sum.
pub proof fn lemma_sum_ext(f: spec_fn(int) -> int, g: spec_fn(int) -> int, n: int)
    requires
        forall|i: int| 0 <= i < n ==> #[trigger] f(i) == g(i),
    ensures
        sum_to(f, n) == sum_to(g, n),
    decreases n,
{
    if n > 0 {
        lemma_sum_ext(f, g, n - 1);
    }
}

/// A function that is pointwise below another has the smaller sum.
pub proof fn lemma_sum_le(f: spec_fn(int) -> int, g: spec_fn(int) -> int, n: int)
    requires
        forall|i: int| 0 <= i < n ==> #[trigger] f(i) <= g(i),
    ensures
        sum_to(f, n) <= sum_to(g, n),
    decreases n,
{
    if n > 0 {
        lemma_sum_le(f, g, n - 1);
    }
}

/// A function that is pointwise below another, and strictly below it at
/// `k`, has the strictly smaller sum.
pub proof fn lemma_sum_less(f: spec_fn(int) -> int, g: spec_fn(int) -> int, n: int, k: int)
    requires
        0 <= k < n,
        forall|i: int| 0 <= i < n ==> #[trigger] f(i) <= g(i),
        f(k) < g(k),
    ensures
        sum_to(f, n) < sum_to(g, n),
    decreases n,
{
    if n - 1 == k {
        lemma_sum_le(f, g, n - 1);
    } else {
        lemma_sum_less(f, g, n - 1, k);
    }
}

/// The sum of a function that is the pointwise sum of two others.
pub proof fn lemma_sum_add(
    f: spec_fn(int) -> int,
    g: spec_fn(int) -> int,
    fg: spec_fn(int) -> int,
    n: int,
)
    requires
        forall|i: int| 0 <= i < n ==> #[trigger] fg(i) == f(i) + g(i),
    ensures
        sum_to(fg, n) == sum_to(f, n) + sum_to(g, n),
    decreases n,
{
    if n > 0 {
        lemma_sum_add(f, g, fg, n - 1);
    }
}

/// A function that vanishes below `n` sums to zero.
pub proof fn lemma_sum_zero(f: spec_fn(int) -> int, n: int)
    requires
        forall|i: int| 0 <= i < n ==> #[trigger] f(i) == 0,
    ensures
        sum_to(f, n) == 0,
    decreases n,
{
    if n > 0 {
        lemma_sum_zero(f, n - 1);
    }
}

/// Two functions that differ at `k` alone have sums that differ by as much.
pub proof fn lemma_sum_differs_at(
    f: spec_fn(int) -> int,
    g: spec_fn(int) -> int,
    n: int,
    k: int,
)
    requires
        0 <= k < n,
        forall|i: int| 0 <= i < n && i != k ==> #[trigger] f(i) == g(i),
    ensures
        sum_to(g, n) - g(k) == sum_to(f, n) - f(k),
    decreases n,
{
    if n - 1 == k {
        lemma_sum_ext(f, g, n - 1);
    } else {
        lemma_sum_differs_at(f, g, n - 1, k);
    }
}

/// A function that vanishes everywhere but at `k` sums to its value at `k`.
pub proof fn lemma_sum_single(f: spec_fn(int) -> int, n: int, k: int)
    requires
        0 <= k < n,
        forall|i: int| 0 <= i < n && i != k ==> #[trigger] f(i) == 0,
    ensures
        sum_to(f, n) == f(k),
{
    let zero = |i: int| 0int;
    lemma_sum_zero(zero, n);
    lemma_sum_differs_at(zero, f, n, k);
}

/// Grids that agree on the rectangle have the same sum.
pub proof fn lemma_grid_ext(
    h: spec_fn(int, int) -> int,
    k: spec_fn(int, int) -> int,
    rows: int,
    cols: int,
)
    requires
        forall|u: int, v: int| 0 <= u < rows && 0 <= v < cols ==> #[trigger] h(u, v) == k(u, v),
    ensures
        grid_sum(h, rows, cols) == grid_sum(k, rows, cols),
{
    assert forall|u: int| 0 <= u < rows implies #[trigger] row_sums(h, cols)(u) == row_sums(
        k,
        cols,
    )(u) by {
        assert forall|v: int| 0 <= v < cols implies #[trigger] row(h, u)(v) == row(k, u)(v) by {
            assert(h(u, v) == k(u, v));
        }
        lemma_sum_ext(row(h, u), row(k, u), cols);
    }
    lemma_sum_ext(row_sums(h, cols), row_sums(k, cols), rows);
}

/// A grid that is pointwise below another has the smaller sum.
pub proof fn lemma_grid_le(
    h: spec_fn(int, int) -> int,
    k: spec_fn(int, int) -> int,
    rows: int,
    cols: int,
)
    requires
        forall|u: int, v: int| 0 <= u < rows && 0 <= v < cols ==> #[trigger] h(u, v) <= k(u, v),
    ensures
        grid_sum(h, rows, cols) <= grid_sum(k, rows, cols),
{
    assert forall|u: int| 0 <= u < rows implies #[trigger] row_sums(h, cols)(u) <= row_sums(
        k,
        cols,
    )(u) by {
        assert forall|v: int| 0 <= v < cols implies #[trigger] row(h, u)(v) <= row(k, u)(v) by {
            assert(h(u, v) <= k(u, v));
        }
        lemma_sum_le(row(h, u), row(k, u), cols);
    }
    lemma_sum_le(row_sums(h, cols), row_sums(k, cols), rows);
}

/// A grid that is pointwise below another, and strictly below it at
/// `(a, b)`, has the strictly smaller sum.
pub proof fn lemma_grid_less(
    h: spec_fn(int, int) -> int,
    k: spec_fn(int, int) -> int,
    n: int,
    a: int,
    b: int,
)
    requires
        0 <= a < n,
        0 <= b < n,
        forall|u: int, v: int| 0 <= u < n && 0 <= v < n ==> #[trigger] h(u, v) <= k(u, v),
        h(a, b) < k(a, b),
    ensures
        grid_sum(h, n, n) < grid_sum(k, n, n),
{
    assert forall|u: int| 0 <= u < n implies #[trigger] row_sums(h, n)(u) <= row_sums(k, n)(u) by {
        assert forall|v: int| 0 <= v < n implies #[trigger] row(h, u)(v) <= row(k, u)(v) by {
            assert(h(u, v) <= k(u, v));
        }
        lemma_sum_le(row(h, u), row(k, u), n);
    }
    assert forall|v: int| 0 <= v < n implies #[trigger] row(h, a)(v) <= row(k, a)(v) by {
        assert(h(a, v) <= k(a, v));
    }
    lemma_sum_less(row(h, a), row(k, a), n, b);
    lemma_sum_less(row_sums(h, n), row_sums(k, n), n, a);
}

/// The sum of a grid that is the pointwise sum of two others.
pub proof fn lemma_grid_add(
    h: spec_fn(int, int) -> int,
    k: spec_fn(int, int) -> int,
    hk: spec_fn(int, int) -> int,
    rows: int,
    cols: int,
)
    requires
        forall|u: int, v: int|
            0 <= u < rows && 0 <= v < cols ==> #[trigger] hk(u, v) == h(u, v) + k(u, v),
    ensures
        grid_sum(hk, rows, cols) == grid_sum(h, rows, cols) + grid_sum(k, rows, cols),
{
    assert forall|u: int| 0 <= u < rows implies #[trigger] row_sums(hk, cols)(u) == row_sums(
        h,
        cols,
    )(u) + row_sums(k, cols)(u) by {
        assert forall|v: int| 0 <= v < cols implies #[trigger] row(hk, u)(v) == row(h, u)(v) + row(
            k,
            u,
        )(v) by {
            assert(hk(u, v) == h(u, v) + k(u, v));
        }
        lemma_sum_add(row(h, u), row(k, u), row(hk, u), cols);
    }
    lemma_sum_add(row_sums(h, cols), row_sums(k, cols), row_sums(hk, cols), rows);
}

/// Taking the last column off a grid: what is left, plus that column's sum.
pub proof fn lemma_grid_last_column(h: spec_fn(int, int) -> int, rows: int, cols: int)
    requires
        cols >= 1,
    ensures
        grid_sum(h, rows, cols) == grid_sum(h, rows, cols - 1) + sum_to(col(h, cols - 1), rows),
{
    assert forall|u: int| 0 <= u < rows implies #[trigger] row_sums(h, cols)(u) == row_sums(
        h,
        cols - 1,
    )(u) + col(h, cols - 1)(u) by {
        assert(sum_to(row(h, u), cols) == sum_to(row(h, u), cols - 1) + row(h, u)(cols - 1));
    }
    lemma_sum_add(row_sums(h, cols - 1), col(h, cols - 1), row_sums(h, cols), rows);
}

/// A grid whose entries at mirrored positions cancel sums to zero over a square.
pub proof fn lemma_grid_antisymmetric(h: spec_fn(int, int) -> int, n: int)
    requires
        forall|u: int, v: int| 0 <= u < n && 0 <= v < n ==> #[trigger] h(u, v) + h(v, u) == 0,
    ensures
        grid_sum(h, n, n) == 0,
    decreases n,
{
    if n > 0 {
        let m = n - 1;
        lemma_grid_antisymmetric(h, m);
        lemma_grid_last_column(h, m, n);
        // the last row and the last column cancel
        let both = |i: int| row(h, m)(i) + col(h, m)(i);
        assert forall|i: int| 0 <= i < m implies #[trigger] both(i) == 0 by {
            assert(h(m, i) + h(i, m) == 0);
        }
        lemma_sum_zero(both, m);
        lemma_sum_add(row(h, m), col(h, m), both, m);
        assert(h(m, m) + h(m, m) == 0);
        assert(sum_to(row(h, m), n) == sum_to(row(h, m), m) + row(h, m)(m));
        assert(grid_sum(h, n, n) == grid_sum(h, m, n) + row_sums(h, n)(m));
    }
}

} // verus!
