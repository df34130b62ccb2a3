//! Mathematical vocabulary shared by the vector, matrix and GSW modules:
//! finite sums, inner products and the facts about them that the proofs use.
use vstd::arithmetic::div_mod::*;
use vstd::arithmetic::mul::*;
use vstd::prelude::*;

verus! {

/// `f(0) + f(1) + ... + f(n - 1)` (zero for `n <= 0`).
pub open spec fn sum(n: int, f: spec_fn(int) -> int) -> int
    decreases n,
{
    if n <= 0 {
        0
    } else {
        sum(n - 1, f) + f(n - 1)
    }
}

/// Inner product of the first `n` entries of `a` and `b`, over the integers.
pub open spec fn dot(a: Seq<u64>, b: Seq<u64>, n: int) -> int {
    sum(n, |j: int| a[j] as int * b[j] as int)
}

/// Two sums agree when their terms agree on `[0, n)`.
pub proof fn lemma_sum_ext(n: int, f: spec_fn(int) -> int, g: spec_fn(int) -> int)
    requires
        forall|j: int| 0 <= j < n ==> #[trigger] f(j) == g(j),
    ensures
        sum(n, f) == sum(n, g),
    decreases n,
{
    if n > 0 {
        lemma_sum_ext(n - 1, f, g);
    }
}

/// A sum of non-negative terms grows with the number of terms.
pub proof fn lemma_sum_monotone(n1: int, n2: int, f: spec_fn(int) -> int)
    requires
        0 <= n1 <= n2,
        forall|j: int| 0 <= j < n2 ==> #[trigger] f(j) >= 0,
    ensures
        0 <= sum(n1, f) <= sum(n2, f),
    decreases n2,
{
    if n2 > n1 {
        lemma_sum_monotone(n1, n2 - 1, f);
    } else if n1 > 0 {
        lemma_sum_monotone(n1 - 1, n1 - 1, f);
    }
}

/// Each term of a sum of bounded terms adds at most the bound.
pub proof fn lemma_sum_bounded(n: int, f: spec_fn(int) -> int, b: int)
    requires
        0 <= n,
        forall|j: int| 0 <= j < n ==> 0 <= #[trigger] f(j) <= b,
    ensures
        0 <= sum(n, f) <= n * b,
    decreases n,
{
    if n > 0 {
        lemma_sum_bounded(n - 1, f, b);
        assert((n - 1) * b + b == n * b) by (nonlinear_arith);
    } else {
        assert(n * b == 0) by (nonlinear_arith)
            requires
                n == 0,
        ;
    }
}

/// An inner product over more entries is at least as large.
pub proof fn lemma_dot_monotone(a: Seq<u64>, b: Seq<u64>, n1: int, n2: int)
    requires
        0 <= n1 <= n2,
    ensures
        0 <= dot(a, b, n1) <= dot(a, b, n2),
{
    let f = |j: int| a[j] as int * b[j] as int;
    assert forall|j: int| 0 <= j < n2 implies #[trigger] f(j) >= 0 by {
        lemma_mul_nonnegative(a[j] as int, b[j] as int);
    }
    lemma_sum_monotone(n1, n2, f);
}

/// Reducing every term modulo `q` does not change the sum modulo `q`.
pub proof fn lemma_sum_mod(n: int, f: spec_fn(int) -> int, g: spec_fn(int) -> int, q: int)
    requires
        q > 0,
        forall|j: int| 0 <= j < n ==> #[trigger] f(j) % q == g(j) % q,
    ensures
        sum(n, f) % q == sum(n, g) % q,
    decreases n,
{
    if n > 0 {
        lemma_sum_mod(n - 1, f, g, q);
        lemma_add_mod_noop(sum(n - 1, f), f(n - 1), q);
        lemma_add_mod_noop(sum(n - 1, g), g(n - 1), q);
    }
}

/// A constant factor can be taken out of a sum.
pub proof fn lemma_sum_scale(n: int, f: spec_fn(int) -> int, c: int)
    ensures
        sum(n, |j: int| c * f(j)) == c * sum(n, f),
    decreases n,
{
    if n > 0 {
        lemma_sum_scale(n - 1, f, c);
        assert(sum(n, |j: int| c * f(j)) == sum(n - 1, |j: int| c * f(j)) + c * f(n - 1));
        lemma_mul_is_distributive_add(c, sum(n - 1, f), f(n - 1));
    }
}

/// The sum of a pointwise sum is the sum of the sums.
pub proof fn lemma_sum_add(n: int, f: spec_fn(int) -> int, g: spec_fn(int) -> int)
    ensures
        sum(n, |j: int| f(j) + g(j)) == sum(n, f) + sum(n, g),
    decreases n,
{
    if n > 0 {
        lemma_sum_add(n - 1, f, g);
    }
}

/// A sum of zeros is zero.
pub proof fn lemma_sum_zero(n: int, f: spec_fn(int) -> int)
    requires
        forall|j: int| 0 <= j < n ==> #[trigger] f(j) == 0,
    ensures
        sum(n, f) == 0,
    decreases n,
{
    if n > 0 {
        lemma_sum_zero(n - 1, f);
    }
}

/// Order of summation may be exchanged in a double sum.
pub proof fn lemma_sum_swap(n: int, m: int, f: spec_fn(int, int) -> int)
    ensures
        sum(n, |i: int| sum(m, |j: int| f(i, j))) == sum(m, |j: int| sum(n, |i: int| f(i, j))),
    decreases n,
{
    let outer = |i: int| sum(m, |j: int| f(i, j));
    let cols = |j: int| sum(n, |i: int| f(i, j));
    if n <= 0 {
        lemma_sum_zero(m, cols);
    } else {
        lemma_sum_swap(n - 1, m, f);
        let prev = |j: int| sum(n - 1, |i: int| f(i, j));
        let last = |j: int| f(n - 1, j);
        lemma_sum_add(m, prev, last);
        assert forall|j: int| 0 <= j < m implies #[trigger] cols(j) == prev(j) + last(j) by {
            assert(sum(n, |i: int| f(i, j)) == sum(n - 1, |i: int| f(i, j)) + f(n - 1, j));
        }
        lemma_sum_ext(m, |j: int| prev(j) + last(j), cols);
        assert(outer(n - 1) == sum(m, last));
        assert(sum(n, outer) == sum(n - 1, outer) + outer(n - 1));
    }
}

/// A sum is bounded by a sum of termwise larger terms.
pub proof fn lemma_sum_le(n: int, f: spec_fn(int) -> int, g: spec_fn(int) -> int)
    requires
        forall|j: int| 0 <= j < n ==> #[trigger] f(j) <= g(j),
    ensures
        sum(n, f) <= sum(n, g),
    decreases n,
{
    if n > 0 {
        lemma_sum_le(n - 1, f, g);
    }
}

/// Splitting a sum after its first `a` terms.
pub proof fn lemma_sum_shift(a: int, b: int, f: spec_fn(int) -> int)
    requires
        0 <= a,
        0 <= b,
    ensures
        sum(a + b, f) == sum(a, f) + sum(b, |j: int| f(a + j)),
    decreases b,
{
    if b > 0 {
        lemma_sum_shift(a, b - 1, f);
    }
}

/// A sum over `w` blocks of `l` consecutive indices, block by block.
pub proof fn lemma_sum_blocks(w: int, l: int, f: spec_fn(int) -> int)
    requires
        0 <= w,
        0 <= l,
    ensures
        sum(w * l, f) == sum(w, |k: int| sum(l, |j: int| f(k * l + j))),
    decreases w,
{
    let blocks = |k: int| sum(l, |j: int| f(k * l + j));
    if w == 0 {
        assert(0 * l == 0) by (nonlinear_arith);
    } else {
        lemma_sum_blocks(w - 1, l, f);
        assert(w * l == (w - 1) * l + l) by (nonlinear_arith);
        assert((w - 1) * l >= 0) by (nonlinear_arith)
            requires
                w >= 1,
                l >= 0,
        ;
        lemma_sum_shift((w - 1) * l, l, f);
        lemma_sum_ext(l, |j: int| f((w - 1) * l + j), |j: int| f((w - 1) * l + j));
        assert(sum(w, blocks) == sum(w - 1, blocks) + blocks(w - 1));
    }
}

/// A sum whose terms vanish outside index `h` is its `h`-th term.
pub proof fn lemma_sum_single(n: int, f: spec_fn(int) -> int, h: int)
    requires
        0 <= h < n,
        forall|j: int| 0 <= j < n && j != h ==> #[trigger] f(j) == 0,
    ensures
        sum(n, f) == f(h),
    decreases n,
{
    if n - 1 == h {
        lemma_sum_zero(n - 1, f);
    } else {
        lemma_sum_single(n - 1, f, h);
    }
}

/// A sum of `n` terms in `[lo, hi]` lies in `[n * lo, n * hi]`.
pub proof fn lemma_sum_between(n: int, f: spec_fn(int) -> int, lo: int, hi: int)
    requires
        0 <= n,
        forall|j: int| 0 <= j < n ==> lo <= #[trigger] f(j) <= hi,
    ensures
        n * lo <= sum(n, f) <= n * hi,
    decreases n,
{
    if n > 0 {
        lemma_sum_between(n - 1, f, lo, hi);
        assert((n - 1) * lo + lo == n * lo) by (nonlinear_arith);
        assert((n - 1) * hi + hi == n * hi) by (nonlinear_arith);
    } else {
        assert(n * lo == 0 && n * hi == 0) by (nonlinear_arith)
            requires
                n == 0,
        ;
    }
}

} // verus!
