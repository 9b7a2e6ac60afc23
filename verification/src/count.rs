//! Counting points of a grid that satisfy a predicate, with the lemmas the
//! generator's bookkeeping needs: counts are stable under agreement, grow by
//! one under a single flip, and reach the full area when the predicate is
//! everywhere true.

use vstd::prelude::*;

verus! {

/// Number of `x` in `[0, n)` with `f(x, y)`.
pub open spec fn count_row(f: spec_fn(int, int) -> bool, y: int, n: int) -> int
    decreases n,
{
    if n <= 0 {
        0
    } else {
        count_row(f, y, n - 1) + if f(n - 1, y) {
            1int
        } else {
            0int
        }
    }
}

/// Number of `(x, y)` with `0 <= y < rows`, `0 <= x < cols` and `f(x, y)`.
pub open spec fn count_grid(f: spec_fn(int, int) -> bool, rows: int, cols: int) -> int
    decreases rows,
{
    if rows <= 0 {
        0
    } else {
        count_grid(f, rows - 1, cols) + count_row(f, rows - 1, cols)
    }
}

pub proof fn lemma_count_row_agree(f: spec_fn(int, int) -> bool, g: spec_fn(int, int) -> bool, y: int, n: int)
    requires
        forall|x: int| 0 <= x < n ==> #[trigger] f(x, y) == g(x, y),
    ensures
        count_row(f, y, n) == count_row(g, y, n),
    decreases n,
{
    if n > 0 {
        lemma_count_row_agree(f, g, y, n - 1);
    }
}

pub proof fn lemma_count_grid_agree(f: spec_fn(int, int) -> bool, g: spec_fn(int, int) -> bool, rows: int, cols: int)
    requires
        forall|x: int, y: int| 0 <= x < cols && 0 <= y < rows ==> #[trigger] f(x, y) == g(x, y),
    ensures
        count_grid(f, rows, cols) == count_grid(g, rows, cols),
    decreases rows,
{
    if rows > 0 {
        lemma_count_grid_agree(f, g, rows - 1, cols);
        lemma_count_row_agree(f, g, rows - 1, cols);
    }
}

pub proof fn lemma_count_row_update(f: spec_fn(int, int) -> bool, g: spec_fn(int, int) -> bool, y: int, n: int, a: int)
    requires
        0 <= a < n,
        forall|x: int| 0 <= x < n && x != a ==> #[trigger] f(x, y) == g(x, y),
        !f(a, y),
        g(a, y),
    ensures
        count_row(g, y, n) == count_row(f, y, n) + 1,
    decreases n,
{
    if a == n - 1 {
        lemma_count_row_agree(f, g, y, n - 1);
    } else {
        lemma_count_row_update(f, g, y, n - 1, a);
    }
}

pub proof fn lemma_count_grid_update(f: spec_fn(int, int) -> bool, g: spec_fn(int, int) -> bool, rows: int, cols: int, a: int, b: int)
    requires
        0 <= a < cols,
        0 <= b < rows,
        forall|x: int, y: int| 0 <= x < cols && 0 <= y < rows && !(x == a && y == b) ==> #[trigger] f(
            x,
            y,
        ) == g(x, y),
        !f(a, b),
        g(a, b),
    ensures
        count_grid(g, rows, cols) == count_grid(f, rows, cols) + 1,
    decreases rows,
{
    if b == rows - 1 {
        lemma_count_grid_agree(f, g, rows - 1, cols);
        lemma_count_row_update(f, g, rows - 1, cols, a);
    } else {
        lemma_count_grid_update(f, g, rows - 1, cols, a, b);
        lemma_count_row_agree(f, g, rows - 1, cols);
    }
}

pub proof fn lemma_count_row_zero(f: spec_fn(int, int) -> bool, y: int, n: int)
    requires
        forall|x: int| 0 <= x < n ==> !#[trigger] f(x, y),
    ensures
        count_row(f, y, n) == 0,
    decreases n,
{
    if n > 0 {
        lemma_count_row_zero(f, y, n - 1);
    }
}

pub proof fn lemma_count_grid_zero(f: spec_fn(int, int) -> bool, rows: int, cols: int)
    requires
        forall|x: int, y: int| 0 <= x < cols && 0 <= y < rows ==> !#[trigger] f(x, y),
    ensures
        count_grid(f, rows, cols) == 0,
    decreases rows,
{
    if rows > 0 {
        lemma_count_grid_zero(f, rows - 1, cols);
        lemma_count_row_zero(f, rows - 1, cols);
    }
}

pub proof fn lemma_count_row_all(f: spec_fn(int, int) -> bool, y: int, n: int)
    requires
        0 <= n,
        forall|x: int| 0 <= x < n ==> #[trigger] f(x, y),
    ensures
        count_row(f, y, n) == n,
    decreases n,
{
    if n > 0 {
        lemma_count_row_all(f, y, n - 1);
    }
}

pub proof fn lemma_count_grid_all(f: spec_fn(int, int) -> bool, rows: int, cols: int)
    requires
        0 <= rows,
        0 <= cols,
        forall|x: int, y: int| 0 <= x < cols && 0 <= y < rows ==> #[trigger] f(x, y),
    ensures
        count_grid(f, rows, cols) == rows * cols,
    decreases rows,
{
    if rows > 0 {
        lemma_count_grid_all(f, rows - 1, cols);
        lemma_count_row_all(f, rows - 1, cols);
        assert(rows * cols == (rows - 1) * cols + cols) by (nonlinear_arith);
    } else {
        assert(rows * cols == 0) by (nonlinear_arith)
            requires
                rows == 0,
        ;
    }
}

pub proof fn lemma_count_row_le(f: spec_fn(int, int) -> bool, y: int, n: int)
    requires
        0 <= n,
    ensures
        0 <= count_row(f, y, n) <= n,
    decreases n,
{
    if n > 0 {
        lemma_count_row_le(f, y, n - 1);
    }
}

pub proof fn lemma_count_grid_le(f: spec_fn(int, int) -> bool, rows: int, cols: int)
    requires
        0 <= rows,
        0 <= cols,
    ensures
        0 <= count_grid(f, rows, cols) <= rows * cols,
    decreases rows,
{
    if rows > 0 {
        lemma_count_grid_le(f, rows - 1, cols);
        lemma_count_row_le(f, rows - 1, cols);
        assert(rows * cols == (rows - 1) * cols + cols) by (nonlinear_arith);
        assert((rows - 1) * cols >= 0) by (nonlinear_arith)
            requires
                rows >= 1 && cols >= 0,
        ;
    } else {
        assert(rows * cols == 0) by (nonlinear_arith)
            requires
                rows == 0,
        ;
    }
}

} // verus!
