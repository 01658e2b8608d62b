//! Finite sums of integer-valued functions over an index prefix.

use vstd::prelude::*;

verus! {

/// `f(0) + f(1) + ... + f(n - 1)`.
pub open spec fn sum_to(f: spec_fn(int) -> int, n: int) -> int
    decreases n,
{
    if n <= 0 {
        0
    } else {
        sum_to(f, n - 1) + f(n - 1)
    }
}

/// The sum of differences is the difference of sums.
pub proof fn lemma_sum_sub(f: spec_fn(int) -> int, g: spec_fn(int) -> int, n: int)
    ensures
        sum_to(g, n) - sum_to(f, n) == sum_to(|j: int| g(j) - f(j), n),
    decreases n,
{
    if n > 0 {
        lemma_sum_sub(f, g, n - 1);
    }
}

/// Terms that vanish on `[a, b)` leave the sum unchanged.
pub proof fn lemma_sum_zero_range(f: spec_fn(int) -> int, a: int, b: int)
    requires
        0 <= a <= b,
        forall|j: int| a <= j < b ==> #[trigger] f(j) == 0,
    ensures
        sum_to(f, b) == sum_to(f, a),
    decreases b - a,
{
    if b > a {
        lemma_sum_zero_range(f, a, b - 1);
    }
}

/// Functions that agree on `[0, n)` have the same sum.
pub proof fn lemma_sum_ext(f: spec_fn(int) -> int, g: spec_fn(int) -> int, n: int)
    requires
        forall|j: int| 0 <= j < n ==> #[trigger] f(j) == g(j),
    ensures
        sum_to(f, n) == sum_to(g, n),
    decreases n,
{
    if n > 0 {
        lemma_sum_ext(f, g, n - 1);
    }
}

/// A sum of non-negative terms grows with its range.
pub proof fn lemma_sum_mono(f: spec_fn(int) -> int, a: int, b: int)
    requires
        0 <= a <= b,
        forall|j: int| 0 <= j < b ==> #[trigger] f(j) >= 0,
    ensures
        0 <= sum_to(f, a) <= sum_to(f, b),
    decreases b,
{
    if b > a {
        lemma_sum_mono(f, a, b - 1);
    } else if a > 0 {
        lemma_sum_mono(f, a - 1, a - 1);
    }
}

/// Eight consecutive terms.
pub proof fn lemma_sum_block8(f: spec_fn(int) -> int, c: int)
    requires
        0 <= c,
    ensures
        sum_to(f, c + 8) - sum_to(f, c) == f(c) + f(c + 1) + f(c + 2) + f(c + 3) + f(c + 4) + f(
            c + 5,
        ) + f(c + 6) + f(c + 7),
{
    reveal_with_fuel(sum_to, 9);
}

/// Changing one term changes the sum by the same amount.
pub proof fn lemma_sum_point(f: spec_fn(int) -> int, g: spec_fn(int) -> int, n: int, i: int)
    requires
        0 <= i < n,
        forall|j: int| 0 <= j < n && j != i ==> #[trigger] f(j) == g(j),
    ensures
        sum_to(g, n) - sum_to(f, n) == g(i) - f(i),
{
    let d = |j: int| g(j) - f(j);
    lemma_sum_sub(f, g, n);
    lemma_sum_zero_range(d, i + 1, n);
    lemma_sum_zero_range(d, 0, i);
}

/// A non-negative term is at most the sum.
pub proof fn lemma_sum_term(f: spec_fn(int) -> int, n: int, i: int)
    requires
        0 <= i < n,
        forall|j: int| 0 <= j < n ==> #[trigger] f(j) >= 0,
    ensures
        f(i) <= sum_to(f, n),
{
    lemma_sum_mono(f, i, i);
    lemma_sum_mono(f, i + 1, n);
}

} // verus!
