//! Finite sums of integer-valued functions over index ranges.

use vstd::prelude::*;

verus! {

/// The sum of `f(i)` for `0 <= i < k`.
pub open spec fn sum_to(f: spec_fn(int) -> int, k: int) -> int
    decreases k,
{
    if k <= 0 {
        0
    } else {
        sum_to(f, k - 1) + f(k - 1)
    }
}

/// A sum of terms that lie between 0 and the terms of another lies between 0 and that sum.
pub proof fn lemma_sum_bounded(f: spec_fn(int) -> int, g: spec_fn(int) -> int, k: int)
    requires
        forall|i: int| 0 <= i < k ==> 0 <= #[trigger] f(i) <= g(i),
    ensures
        0 <= sum_to(f, k) <= sum_to(g, k),
    decreases k,
{
    if k > 0 {
        lemma_sum_bounded(f, g, k - 1);
    }
}

/// With terms at least 0, a longer sum is no smaller.
pub proof fn lemma_sum_monotone(f: spec_fn(int) -> int, j: int, k: int)
    requires
        forall|i: int| 0 <= i < k ==> 0 <= #[trigger] f(i),
        j <= k,
    ensures
        sum_to(f, j) <= sum_to(f, k),
    decreases k - j,
{
    if j < k {
        lemma_sum_monotone(f, j, k - 1);
    }
}

/// Sums of terms that agree are equal.
pub proof fn lemma_sum_congruent(f: spec_fn(int) -> int, g: spec_fn(int) -> int, k: int)
    requires
        forall|i: int| 0 <= i < k ==> #[trigger] f(i) == g(i),
    ensures
        sum_to(f, k) == sum_to(g, k),
    decreases k,
{
    if k > 0 {
        lemma_sum_congruent(f, g, k - 1);
    }
}

/// The sum of term-wise sums is the sum of the sums.
pub proof fn lemma_sum_add(f: spec_fn(int) -> int, g: spec_fn(int) -> int, h: spec_fn(int) -> int, k: int)
    requires
        forall|i: int| 0 <= i < k ==> #[trigger] h(i) == f(i) + g(i),
    ensures
        sum_to(h, k) == sum_to(f, k) + sum_to(g, k),
    decreases k,
{
    if k > 0 {
        lemma_sum_add(f, g, h, k - 1);
    }
}

/// A sum whose terms vanish but at `t` is its term at `t`.
pub proof fn lemma_sum_single(f: spec_fn(int) -> int, t: int, k: int)
    requires
        forall|i: int| 0 <= i < k && i != t ==> #[trigger] f(i) == 0,
    ensures
        sum_to(f, k) == if 0 <= t < k {
            f(t)
        } else {
            0
        },
    decreases k,
{
    if k > 0 {
        lemma_sum_single(f, t, k - 1);
    }
}

/// Sums of the columns `y` of the table `g(t, y)` over its first `n` rows.
pub open spec fn col_sums(g: spec_fn(int, int) -> int, n: int) -> spec_fn(int) -> int {
    |y: int| sum_to(|t: int| g(t, y), n)
}

/// Sums of the rows `t` of the table `g(t, y)` over its first `m` columns.
pub open spec fn row_sums(g: spec_fn(int, int) -> int, m: int) -> spec_fn(int) -> int {
    |t: int| sum_to(|y: int| g(t, y), m)
}

/// Summing a table by rows or by columns gives the same.
pub proof fn lemma_sum_swap(g: spec_fn(int, int) -> int, n: int, m: int)
    ensures
        sum_to(row_sums(g, m), n) == sum_to(col_sums(g, n), m),
    decreases n,
{
    if n <= 0 {
        lemma_sum_single(col_sums(g, n), -1, m);
    } else {
        lemma_sum_swap(g, n - 1, m);
        lemma_sum_add(col_sums(g, n - 1), |y: int| g(n - 1, y), col_sums(g, n), m);
    }
}

} // verus!
