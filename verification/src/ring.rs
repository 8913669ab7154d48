//! The laws of the ring `Z_q[X]/(X^N + 1)` that the proofs of the ciphertext
//! operations need: the negacyclic product is commutative and associative.
//!
//! Coefficient `k` of a product is written as the double sum
//! `sum_i sum_j mono(n, i, j, k) * a[i] * b[j]`, where `mono` is the
//! coefficient of `X^k` in `X^i * X^j`.
use vstd::arithmetic::div_mod::*;
use vstd::arithmetic::mul::*;
use vstd::prelude::*;

use crate::poly::{eval_partial, eval_term, eval_x_k_spec, nega_partial, nega_term, negacyclic, seq_sub, wrap, word_modulus};

verus! {

/// `f(0) + ... + f(m - 1)`.
pub open spec fn sum(f: spec_fn(int) -> int, m: int) -> int
    decreases m,
{
    if m <= 0 {
        0
    } else {
        sum(f, m - 1) + f(m - 1)
    }
}

/// Sums of functions that agree on `[0, m)` are equal.
pub proof fn lemma_sum_ext(f: spec_fn(int) -> int, g: spec_fn(int) -> int, m: int)
    requires
        forall|i: int| 0 <= i < m ==> #[trigger] f(i) == g(i),
    ensures
        sum(f, m) == sum(g, m),
    decreases m,
{
    if m > 0 {
        lemma_sum_ext(f, g, m - 1);
    }
}

/// A constant factor comes out of a sum.
pub proof fn lemma_sum_scale(c: int, f: spec_fn(int) -> int, g: spec_fn(int) -> int, m: int)
    requires
        forall|i: int| 0 <= i < m ==> #[trigger] g(i) == c * f(i),
    ensures
        sum(g, m) == c * sum(f, m),
    decreases m,
{
    if m > 0 {
        lemma_sum_scale(c, f, g, m - 1);
        lemma_mul_is_distributive_add(c, sum(f, m - 1), f(m - 1));
    }
}

/// A sum whose terms vanish but at `i0` is its term at `i0`.
pub proof fn lemma_sum_single(f: spec_fn(int) -> int, m: int, i0: int)
    requires
        forall|i: int| 0 <= i < m && i != i0 ==> #[trigger] f(i) == 0,
    ensures
        sum(f, m) == if 0 <= i0 < m {
            f(i0)
        } else {
            0
        },
    decreases m,
{
    if m > 0 {
        lemma_sum_single(f, m - 1, i0);
    }
}

/// `f(i, 0) + ... + f(i, m - 1)`.
pub open spec fn inner(f: spec_fn(int, int) -> int, i: int, m: int) -> int {
    sum(|j: int| f(i, j), m)
}

/// `sum_{i < m1} sum_{j < m2} f(i, j)`.
pub open spec fn dsum(f: spec_fn(int, int) -> int, m1: int, m2: int) -> int {
    sum(|i: int| inner(f, i, m2), m1)
}

/// `f` with its arguments exchanged.
pub open spec fn transpose(f: spec_fn(int, int) -> int) -> spec_fn(int, int) -> int {
    |i: int, j: int| f(j, i)
}

/// Double sums of functions that agree on the range are equal.
pub proof fn lemma_dsum_ext(f: spec_fn(int, int) -> int, g: spec_fn(int, int) -> int, m1: int, m2: int)
    requires
        forall|i: int, j: int| 0 <= i < m1 && 0 <= j < m2 ==> #[trigger] f(i, j) == g(i, j),
    ensures
        dsum(f, m1, m2) == dsum(g, m1, m2),
{
    assert forall|i: int| 0 <= i < m1 implies #[trigger] inner(f, i, m2) == inner(g, i, m2) by {
        lemma_sum_ext(|j: int| f(i, j), |j: int| g(i, j), m2);
    }
    lemma_sum_ext(|i: int| inner(f, i, m2), |i: int| inner(g, i, m2), m1);
}

/// Two finite sums can be exchanged.
pub proof fn lemma_dsum_swap(f: spec_fn(int, int) -> int, m1: int, m2: int)
    ensures
        dsum(f, m1, m2) == dsum(transpose(f), m2, m1),
    decreases m1,
{
    let t = transpose(f);
    if m1 > 0 {
        lemma_dsum_swap(f, m1 - 1, m2);
        // each inner sum of the transpose gains the term of row m1 - 1
        let prev = |j: int| inner(t, j, m1 - 1);
        let row = |j: int| f(m1 - 1, j);
        assert forall|j: int| 0 <= j < m2 implies #[trigger] inner(t, j, m1) == prev(j) + row(j) by {}
        lemma_sum_ext(|j: int| inner(t, j, m1), |j: int| prev(j) + row(j), m2);
        lemma_sum_add(prev, row, m2);
        lemma_sum_ext(|j: int| f(m1 - 1, j), row, m2);
    } else {
        lemma_sum_single(|j: int| inner(t, j, m1), m2, -1);
    }
}

/// The sum of a sum of two functions.
pub proof fn lemma_sum_add(f: spec_fn(int) -> int, g: spec_fn(int) -> int, m: int)
    ensures
        sum(|i: int| f(i) + g(i), m) == sum(f, m) + sum(g, m),
    decreases m,
{
    if m > 0 {
        lemma_sum_add(f, g, m - 1);
    }
}

/// Sums of terms congruent modulo `2^64` are congruent.
pub proof fn lemma_sum_congruent(f: spec_fn(int) -> int, g: spec_fn(int) -> int, m: int)
    requires
        forall|i: int| 0 <= i < m ==> #[trigger] f(i) % word_modulus() == g(i) % word_modulus(),
    ensures
        sum(f, m) % word_modulus() == sum(g, m) % word_modulus(),
    decreases m,
{
    if m > 0 {
        lemma_sum_congruent(f, g, m - 1);
        lemma_add_mod_noop(sum(f, m - 1), f(m - 1), word_modulus());
        lemma_add_mod_noop(sum(g, m - 1), g(m - 1), word_modulus());
    }
}

/// The coefficient of `X^k` in `X^i * X^j` in `Z[X]/(X^n + 1)`, for
/// indices in `[0, n)`: `X^(i + j) = -X^(i + j - n)` when `i + j >= n`.
pub open spec fn mono(n: int, i: int, j: int, k: int) -> int {
    if i + j == k {
        1
    } else if i + j == k + n {
        -1
    } else {
        0
    }
}

/// The terms `mono(n, i, j, k) * a[i] * b[j]` of coefficient `k` of `a * b`.
pub open spec fn prod_terms(a: Seq<u64>, b: Seq<u64>, n: int, k: int) -> spec_fn(int, int) -> int {
    |i: int, j: int| mono(n, i, j, k) * (a[i] * b[j])
}

/// Coefficient `k` of the product of `a` and `b` in `Z[X]/(X^n + 1)`.
pub open spec fn pc(a: Seq<u64>, b: Seq<u64>, n: int, k: int) -> int {
    dsum(prod_terms(a, b, n, k), n, n)
}

proof fn lemma_row_collapse(a: Seq<u64>, b: Seq<u64>, n: int, i: int, k: int)
    requires
        0 <= i < n,
        0 <= k < n,
    ensures
        inner(prod_terms(a, b, n, k), i, n) == nega_term(a, b, n, i, k),
{
    let t = prod_terms(a, b, n, k);
    let f = |j: int| t(i, j);
    let j0 = if i <= k {
        k - i
    } else {
        k + n - i
    };
    assert forall|j: int| 0 <= j < n && j != j0 implies #[trigger] f(j) == 0 by {
        assert(mono(n, i, j, k) == 0);
    }
    lemma_sum_single(f, n, j0);
    assert(f =~= (|j: int| t(i, j)));
    if i <= k {
        assert(mono(n, i, j0, k) == 1);
        assert(f(j0) == a[i] * b[k - i]);
    } else {
        assert(mono(n, i, j0, k) == -1);
        assert(f(j0) == -(a[i] * b[k + n - i]));
    }
}

/// The term of `b[j]` in coefficient `k` of `a * b`: `a[k - j] * b[j]`, or
/// `-(a[k + n - j] * b[j])` when the product wraps around `X^n = -1`.
pub open spec fn col_term(a: Seq<u64>, b: Seq<u64>, n: int, j: int, k: int) -> int {
    if j <= k {
        a[k - j] * b[j]
    } else {
        -(a[k + n - j] * b[j])
    }
}

proof fn lemma_col_collapse(a: Seq<u64>, b: Seq<u64>, n: int, j: int, k: int)
    requires
        0 <= j < n,
        0 <= k < n,
    ensures
        inner(transpose(prod_terms(a, b, n, k)), j, n) == col_term(a, b, n, j, k),
{
    let t = prod_terms(a, b, n, k);
    let tt = transpose(t);
    let f = |i: int| tt(j, i);
    let i0 = if j <= k {
        k - j
    } else {
        k + n - j
    };
    assert forall|i: int| 0 <= i < n && i != i0 implies #[trigger] f(i) == 0 by {
        assert(mono(n, i, j, k) == 0);
    }
    lemma_sum_single(f, n, i0);
    assert(f =~= (|i: int| tt(j, i)));
    if j <= k {
        assert(mono(n, i0, j, k) == 1);
    } else {
        assert(mono(n, i0, j, k) == -1);
    }
}

/// Coefficient `k` of `a * b` gathered by the coefficients of `b`: the sum
/// of `col_term(a, b, n, j, k)` over `j`, modulo `2^64`.
pub proof fn lemma_negacyclic_by_columns(a: Seq<u64>, b: Seq<u64>, k: int)
    requires
        0 <= k < a.len(),
    ensures
        negacyclic(a, b)[k] == wrap(sum(|j: int| col_term(a, b, a.len() as int, j, k), a.len() as int)),
{
    let n = a.len() as int;
    let t = prod_terms(a, b, n, k);
    lemma_nega_is_pc(a, b, n, k);
    lemma_dsum_swap(t, n, n);
    assert forall|j: int| 0 <= j < n implies #[trigger] inner(transpose(t), j, n) == col_term(a, b, n, j, k) by {
        lemma_col_collapse(a, b, n, j, k);
    }
    lemma_sum_ext(|j: int| inner(transpose(t), j, n), |j: int| col_term(a, b, n, j, k), n);
}

proof fn lemma_nega_partial_sum(a: Seq<u64>, b: Seq<u64>, n: int, k: int, m: int)
    ensures
        nega_partial(a, b, n, k, m) == sum(|i: int| nega_term(a, b, n, i, k), m),
    decreases m,
{
    if m > 0 {
        lemma_nega_partial_sum(a, b, n, k, m - 1);
    }
}

/// The coefficients of `negacyclic` are the double sums `pc`.
pub proof fn lemma_nega_is_pc(a: Seq<u64>, b: Seq<u64>, n: int, k: int)
    requires
        0 <= k < n,
    ensures
        nega_partial(a, b, n, k, n) == pc(a, b, n, k),
{
    let t = prod_terms(a, b, n, k);
    lemma_nega_partial_sum(a, b, n, k, n);
    assert forall|i: int| 0 <= i < n implies #[trigger] inner(t, i, n) == nega_term(a, b, n, i, k) by {
        lemma_row_collapse(a, b, n, i, k);
    }
    lemma_sum_ext(|i: int| nega_term(a, b, n, i, k), |i: int| inner(t, i, n), n);
}

/// The product coefficient is symmetric in its two factors.
proof fn lemma_pc_comm(a: Seq<u64>, b: Seq<u64>, n: int, k: int)
    ensures
        pc(a, b, n, k) == pc(b, a, n, k),
{
    let t = prod_terms(a, b, n, k);
    lemma_dsum_swap(t, n, n);
    assert forall|i: int, j: int| 0 <= i < n && 0 <= j < n implies #[trigger] transpose(t)(i, j)
        == prod_terms(b, a, n, k)(i, j) by {
        lemma_mul_is_commutative(a[j] as int, b[i] as int);
    }
    lemma_dsum_ext(transpose(t), prod_terms(b, a, n, k), n, n);
}

/// The negacyclic product is commutative.
pub proof fn lemma_negacyclic_comm(a: Seq<u64>, b: Seq<u64>)
    requires
        a.len() == b.len(),
    ensures
        negacyclic(a, b) == negacyclic(b, a),
{
    let n = a.len() as int;
    assert forall|k: int| 0 <= k < n implies #[trigger] negacyclic(a, b)[k] == negacyclic(b, a)[k] by {
        lemma_nega_is_pc(a, b, n, k);
        lemma_nega_is_pc(b, a, n, k);
        lemma_pc_comm(a, b, n, k);
    }
    assert(negacyclic(a, b) =~= negacyclic(b, a));
}

/// The innermost sum of a fourfold sum.
pub open spec fn q4(g: spec_fn(int, int, int, int) -> int, x1: int, x2: int, x3: int, n: int) -> int {
    sum(|x4: int| g(x1, x2, x3, x4), n)
}

/// The two innermost sums of a fourfold sum.
pub open spec fn q3(g: spec_fn(int, int, int, int) -> int, x1: int, x2: int, n: int) -> int {
    sum(|x3: int| q4(g, x1, x2, x3, n), n)
}

/// The three innermost sums of a fourfold sum.
pub open spec fn q2(g: spec_fn(int, int, int, int) -> int, x1: int, n: int) -> int {
    sum(|x2: int| q3(g, x1, x2, n), n)
}

/// `sum_{x1, x2, x3, x4 < n} g(x1, x2, x3, x4)`.
pub open spec fn qsum(g: spec_fn(int, int, int, int) -> int, n: int) -> int {
    sum(|x1: int| q2(g, x1, n), n)
}

/// Fourfold sums whose innermost sums agree are equal.
proof fn lemma_qsum_ext4(g: spec_fn(int, int, int, int) -> int, h: spec_fn(int, int, int, int) -> int, n: int)
    requires
        forall|x1: int, x2: int, x3: int|
            0 <= x1 < n && 0 <= x2 < n && 0 <= x3 < n ==> #[trigger] q4(g, x1, x2, x3, n) == q4(h, x1, x2, x3, n),
    ensures
        qsum(g, n) == qsum(h, n),
{
    assert forall|x1: int, x2: int| 0 <= x1 < n && 0 <= x2 < n implies #[trigger] q3(g, x1, x2, n) == q3(h, x1, x2, n) by {
        lemma_sum_ext(|x3: int| q4(g, x1, x2, x3, n), |x3: int| q4(h, x1, x2, x3, n), n);
    }
    assert forall|x1: int| 0 <= x1 < n implies #[trigger] q2(g, x1, n) == q2(h, x1, n) by {
        lemma_sum_ext(|x2: int| q3(g, x1, x2, n), |x2: int| q3(h, x1, x2, n), n);
    }
    lemma_sum_ext(|x1: int| q2(g, x1, n), |x1: int| q2(h, x1, n), n);
}

/// Fourfold sums of functions that agree on the range are equal.
proof fn lemma_qsum_ext(g: spec_fn(int, int, int, int) -> int, h: spec_fn(int, int, int, int) -> int, n: int)
    requires
        forall|x1: int, x2: int, x3: int, x4: int|
            0 <= x1 < n && 0 <= x2 < n && 0 <= x3 < n && 0 <= x4 < n ==> #[trigger] g(x1, x2, x3, x4) == h(
                x1,
                x2,
                x3,
                x4,
            ),
    ensures
        qsum(g, n) == qsum(h, n),
{
    assert forall|x1: int, x2: int, x3: int| 0 <= x1 < n && 0 <= x2 < n && 0 <= x3 < n implies #[trigger] q4(
        g,
        x1,
        x2,
        x3,
        n,
    ) == q4(h, x1, x2, x3, n) by {
        lemma_sum_ext(|x4: int| g(x1, x2, x3, x4), |x4: int| h(x1, x2, x3, x4), n);
    }
    lemma_qsum_ext4(g, h, n);
}

/// Exchanging the two innermost sums.
proof fn lemma_qsum_swap34(g: spec_fn(int, int, int, int) -> int, n: int)
    ensures
        qsum(g, n) == qsum(|a: int, b: int, c: int, d: int| g(a, b, d, c), n),
{
    let h = |a: int, b: int, c: int, d: int| g(a, b, d, c);
    assert forall|x1: int, x2: int| 0 <= x1 < n && 0 <= x2 < n implies #[trigger] q3(g, x1, x2, n) == q3(h, x1, x2, n) by {
        let f = |c: int, d: int| g(x1, x2, c, d);
        lemma_dsum_swap(f, n, n);
        assert forall|c: int| 0 <= c < n implies #[trigger] inner(f, c, n) == q4(g, x1, x2, c, n) by {
            lemma_sum_ext(|d: int| f(c, d), |x4: int| g(x1, x2, c, x4), n);
        }
        lemma_sum_ext(|c: int| inner(f, c, n), |x3: int| q4(g, x1, x2, x3, n), n);
        assert forall|d: int| 0 <= d < n implies #[trigger] inner(transpose(f), d, n) == q4(h, x1, x2, d, n) by {
            lemma_sum_ext(|c: int| transpose(f)(d, c), |x4: int| h(x1, x2, d, x4), n);
        }
        lemma_sum_ext(|d: int| inner(transpose(f), d, n), |x3: int| q4(h, x1, x2, x3, n), n);
    }
    assert forall|x1: int| 0 <= x1 < n implies #[trigger] q2(g, x1, n) == q2(h, x1, n) by {
        lemma_sum_ext(|x2: int| q3(g, x1, x2, n), |x2: int| q3(h, x1, x2, n), n);
    }
    lemma_sum_ext(|x1: int| q2(g, x1, n), |x1: int| q2(h, x1, n), n);
}

/// Exchanging the second and third sums.
proof fn lemma_qsum_swap23(g: spec_fn(int, int, int, int) -> int, n: int)
    ensures
        qsum(g, n) == qsum(|a: int, b: int, c: int, d: int| g(a, c, b, d), n),
{
    let h = |a: int, b: int, c: int, d: int| g(a, c, b, d);
    assert forall|x1: int| 0 <= x1 < n implies #[trigger] q2(g, x1, n) == q2(h, x1, n) by {
        let f = |b: int, c: int| q4(g, x1, b, c, n);
        lemma_dsum_swap(f, n, n);
        assert forall|b: int| 0 <= b < n implies #[trigger] inner(f, b, n) == q3(g, x1, b, n) by {
            lemma_sum_ext(|c: int| f(b, c), |x3: int| q4(g, x1, b, x3, n), n);
        }
        lemma_sum_ext(|b: int| inner(f, b, n), |x2: int| q3(g, x1, x2, n), n);
        assert forall|c: int| 0 <= c < n implies #[trigger] inner(transpose(f), c, n) == q3(h, x1, c, n) by {
            assert forall|b: int| 0 <= b < n implies #[trigger] transpose(f)(c, b) == q4(h, x1, c, b, n) by {
                lemma_sum_ext(|x4: int| g(x1, b, c, x4), |x4: int| h(x1, c, b, x4), n);
            }
            lemma_sum_ext(|b: int| transpose(f)(c, b), |x3: int| q4(h, x1, c, x3, n), n);
        }
        lemma_sum_ext(|c: int| inner(transpose(f), c, n), |x2: int| q3(h, x1, x2, n), n);
    }
    lemma_sum_ext(|x1: int| q2(g, x1, n), |x1: int| q2(h, x1, n), n);
}

/// Exchanging the two outermost sums.
proof fn lemma_qsum_swap12(g: spec_fn(int, int, int, int) -> int, n: int)
    ensures
        qsum(g, n) == qsum(|a: int, b: int, c: int, d: int| g(b, a, c, d), n),
{
    let h = |a: int, b: int, c: int, d: int| g(b, a, c, d);
    let f = |a: int, b: int| q3(g, a, b, n);
    lemma_dsum_swap(f, n, n);
    assert forall|a: int| 0 <= a < n implies #[trigger] inner(f, a, n) == q2(g, a, n) by {
        lemma_sum_ext(|b: int| f(a, b), |x2: int| q3(g, a, x2, n), n);
    }
    lemma_sum_ext(|a: int| inner(f, a, n), |x1: int| q2(g, x1, n), n);
    assert forall|b: int| 0 <= b < n implies #[trigger] inner(transpose(f), b, n) == q2(h, b, n) by {
        assert forall|a: int| 0 <= a < n implies #[trigger] transpose(f)(b, a) == q3(h, b, a, n) by {
            assert forall|c: int| 0 <= c < n implies #[trigger] q4(g, a, b, c, n) == q4(h, b, a, c, n) by {
                lemma_sum_ext(|x4: int| g(a, b, c, x4), |x4: int| h(b, a, c, x4), n);
            }
            lemma_sum_ext(|c: int| q4(g, a, b, c, n), |x3: int| q4(h, b, a, x3, n), n);
        }
        lemma_sum_ext(|a: int| transpose(f)(b, a), |x2: int| q3(h, b, x2, n), n);
    }
    lemma_sum_ext(|b: int| inner(transpose(f), b, n), |x1: int| q2(h, x1, n), n);
}

/// A constant factor comes out of a double sum.
proof fn lemma_dsum_scale(c: int, f: spec_fn(int, int) -> int, g: spec_fn(int, int) -> int, m1: int, m2: int)
    requires
        forall|i: int, j: int| 0 <= i < m1 && 0 <= j < m2 ==> #[trigger] g(i, j) == c * f(i, j),
    ensures
        dsum(g, m1, m2) == c * dsum(f, m1, m2),
{
    assert forall|i: int| 0 <= i < m1 implies #[trigger] inner(g, i, m2) == c * inner(f, i, m2) by {
        lemma_sum_scale(c, |j: int| f(i, j), |j: int| g(i, j), m2);
    }
    lemma_sum_scale(c, |i: int| inner(f, i, m2), |i: int| inner(g, i, m2), m1);
}

/// Double sums of terms congruent modulo `2^64` are congruent.
proof fn lemma_dsum_congruent(f: spec_fn(int, int) -> int, g: spec_fn(int, int) -> int, m1: int, m2: int)
    requires
        forall|i: int, j: int|
            0 <= i < m1 && 0 <= j < m2 ==> #[trigger] f(i, j) % word_modulus() == g(i, j) % word_modulus(),
    ensures
        dsum(f, m1, m2) % word_modulus() == dsum(g, m1, m2) % word_modulus(),
{
    assert forall|i: int| 0 <= i < m1 implies #[trigger] inner(f, i, m2) % word_modulus() == inner(g, i, m2)
        % word_modulus() by {
        lemma_sum_congruent(|j: int| f(i, j), |j: int| g(i, j), m2);
    }
    lemma_sum_congruent(|i: int| inner(f, i, m2), |i: int| inner(g, i, m2), m1);
}

/// A double sum is the two inner sums of a fourfold sum at `(x1, x2)`.
proof fn lemma_dsum_is_q3(g: spec_fn(int, int, int, int) -> int, x1: int, x2: int, n: int)
    ensures
        dsum(|i: int, j: int| g(x1, x2, i, j), n, n) == q3(g, x1, x2, n),
{
    let f = |i: int, j: int| g(x1, x2, i, j);
    assert forall|i: int| 0 <= i < n implies #[trigger] inner(f, i, n) == q4(g, x1, x2, i, n) by {
        lemma_sum_ext(|j: int| f(i, j), |x4: int| g(x1, x2, i, x4), n);
    }
    lemma_sum_ext(|i: int| inner(f, i, n), |x3: int| q4(g, x1, x2, x3, n), n);
}

/// A double sum whose terms are double sums is a fourfold sum.
proof fn lemma_dsum_of_q3(f: spec_fn(int, int) -> int, g: spec_fn(int, int, int, int) -> int, n: int)
    requires
        forall|x1: int, x2: int| 0 <= x1 < n && 0 <= x2 < n ==> #[trigger] f(x1, x2) == q3(g, x1, x2, n),
    ensures
        dsum(f, n, n) == qsum(g, n),
{
    assert forall|x1: int| 0 <= x1 < n implies #[trigger] inner(f, x1, n) == q2(g, x1, n) by {
        lemma_sum_ext(|x2: int| f(x1, x2), |x2: int| q3(g, x1, x2, n), n);
    }
    lemma_sum_ext(|x1: int| inner(f, x1, n), |x1: int| q2(g, x1, n), n);
}

/// The sign of `X^(i + j + m)` reduced to `X^k` in `Z[X]/(X^n + 1)`.
pub open spec fn tri(n: int, i: int, j: int, m: int, k: int) -> int {
    let s = i + j + m;
    if s == k {
        1
    } else if s == k + n {
        -1
    } else if s == k + 2 * n {
        1
    } else {
        0
    }
}

proof fn lemma_mul3(x: int, y: int, z: int)
    ensures
        x * (y * z) == (x * z) * y,
{
    assert(x * (y * z) == (x * z) * y) by (nonlinear_arith);
}

proof fn lemma_mul3b(x: int, y: int, z: int)
    ensures
        x * (y * z) == (x * y) * z,
{
    assert(x * (y * z) == (x * y) * z) by (nonlinear_arith);
}

proof fn lemma_small_mul(u: int, v: int)
    requires
        -1 <= u <= 1,
        -1 <= v <= 1,
    ensures
        u * v == if u == 0 || v == 0 {
            0
        } else if u == v {
            1
        } else {
            -1
        },
{
    assert(u * v == if u == 0 || v == 0 {
        0
    } else if u == v {
        1
    } else {
        -1
    }) by (nonlinear_arith)
        requires
            -1 <= u <= 1,
            -1 <= v <= 1,
    ;
}

proof fn lemma_sign_product(u: int, v: int, x: int, y: int, z: int)
    requires
        -1 <= u <= 1,
        -1 <= v <= 1,
    ensures
        (u * z) * (v * (x * y)) == (u * v) * (x * (y * z)),
        (u * x) * (v * (y * z)) == (u * v) * (x * (y * z)),
{
    assert((u * z) * (v * (x * y)) == (u * v) * (x * (y * z))) by (nonlinear_arith);
    assert((u * x) * (v * (y * z)) == (u * v) * (x * (y * z))) by (nonlinear_arith);
}

/// The product coefficient is associative over the integers.
proof fn lemma_pc_assoc_int(a: Seq<u64>, b: Seq<u64>, c: Seq<u64>, n: int, k: int)
    requires
        0 <= k < n,
    ensures
        dsum(|l: int, m: int| mono(n, l, m, k) * (pc(a, b, n, l) * c[m]), n, n) == dsum(
            |i: int, l: int| mono(n, i, l, k) * (a[i] * pc(b, c, n, l)),
            n,
            n,
        ),
{
    let gl = |l: int, m: int, i: int, j: int| (mono(n, l, m, k) * c[m]) * (mono(n, i, j, l) * (a[i] * b[j]));
    let gr = |i: int, l: int, j: int, m: int| (mono(n, i, l, k) * a[i]) * (mono(n, j, m, l) * (b[j] * c[m]));
    let fl = |l: int, m: int| mono(n, l, m, k) * (pc(a, b, n, l) * c[m]);
    let fr = |i: int, l: int| mono(n, i, l, k) * (a[i] * pc(b, c, n, l));
    // the left side as a fourfold sum over (l, m, i, j)
    assert forall|l: int, m: int| 0 <= l < n && 0 <= m < n implies #[trigger] fl(l, m) == q3(gl, l, m, n) by {
        let kk = mono(n, l, m, k) * c[m];
        lemma_mul3(mono(n, l, m, k), pc(a, b, n, l), c[m] as int);
        lemma_dsum_scale(kk, prod_terms(a, b, n, l), |i: int, j: int| gl(l, m, i, j), n, n);
        lemma_dsum_is_q3(gl, l, m, n);
    }
    lemma_dsum_of_q3(fl, gl, n);
    // the right side as a fourfold sum over (i, l, j, m)
    assert forall|i: int, l: int| 0 <= i < n && 0 <= l < n implies #[trigger] fr(i, l) == q3(gr, i, l, n) by {
        let kk = mono(n, i, l, k) * a[i];
        lemma_mul3b(mono(n, i, l, k), a[i] as int, pc(b, c, n, l));
        lemma_dsum_scale(kk, prod_terms(b, c, n, l), |j: int, m: int| gr(i, l, j, m), n, n);
        lemma_dsum_is_q3(gr, i, l, n);
    }
    lemma_dsum_of_q3(fr, gr, n);
    // reorder both to (i, j, m, l)
    let glp = |i: int, j: int, m: int, l: int| gl(l, m, i, j);
    let grp = |i: int, j: int, m: int, l: int| gr(i, l, j, m);
    let g1 = |x1: int, x2: int, x3: int, x4: int| gl(x1, x3, x2, x4);
    lemma_qsum_swap23(gl, n);
    lemma_qsum_ext(|x1: int, x2: int, x3: int, x4: int| gl(x1, x3, x2, x4), g1, n);
    let g2 = |x1: int, x2: int, x3: int, x4: int| gl(x2, x3, x1, x4);
    lemma_qsum_swap12(g1, n);
    lemma_qsum_ext(|x1: int, x2: int, x3: int, x4: int| g1(x2, x1, x3, x4), g2, n);
    let g3 = |x1: int, x2: int, x3: int, x4: int| gl(x2, x4, x1, x3);
    lemma_qsum_swap34(g2, n);
    lemma_qsum_ext(|x1: int, x2: int, x3: int, x4: int| g2(x1, x2, x4, x3), g3, n);
    let g4 = |x1: int, x2: int, x3: int, x4: int| gl(x3, x4, x1, x2);
    lemma_qsum_swap23(g3, n);
    lemma_qsum_ext(|x1: int, x2: int, x3: int, x4: int| g3(x1, x3, x2, x4), g4, n);
    lemma_qsum_swap34(g4, n);
    lemma_qsum_ext(|x1: int, x2: int, x3: int, x4: int| g4(x1, x2, x4, x3), glp, n);
    let h1 = |x1: int, x2: int, x3: int, x4: int| gr(x1, x3, x2, x4);
    lemma_qsum_swap23(gr, n);
    lemma_qsum_ext(|x1: int, x2: int, x3: int, x4: int| gr(x1, x3, x2, x4), h1, n);
    lemma_qsum_swap34(h1, n);
    lemma_qsum_ext(|x1: int, x2: int, x3: int, x4: int| h1(x1, x2, x4, x3), grp, n);
    // the innermost sums over l collapse to the same term
    assert forall|i: int, j: int, m: int| 0 <= i < n && 0 <= j < n && 0 <= m < n implies #[trigger] q4(
        glp,
        i,
        j,
        m,
        n,
    ) == q4(grp, i, j, m, n) by {
        let v = a[i] * (b[j] * c[m]);
        let l0 = if i + j < n {
            i + j
        } else {
            i + j - n
        };
        let l1 = if j + m < n {
            j + m
        } else {
            j + m - n
        };
        let fl4 = |l: int| glp(i, j, m, l);
        let fr4 = |l: int| grp(i, j, m, l);
        assert forall|l: int| 0 <= l < n && l != l0 implies #[trigger] fl4(l) == 0 by {
            assert(mono(n, i, j, l) == 0);
        }
        lemma_sum_single(fl4, n, l0);
        assert forall|l: int| 0 <= l < n && l != l1 implies #[trigger] fr4(l) == 0 by {
            assert(mono(n, j, m, l) == 0);
        }
        lemma_sum_single(fr4, n, l1);
        lemma_sign_product(mono(n, l0, m, k), mono(n, i, j, l0), a[i] as int, b[j] as int, c[m] as int);
        lemma_sign_product(mono(n, i, l1, k), mono(n, j, m, l1), a[i] as int, b[j] as int, c[m] as int);
        lemma_small_mul(mono(n, l0, m, k), mono(n, i, j, l0));
        lemma_small_mul(mono(n, i, l1, k), mono(n, j, m, l1));
        assert(mono(n, l0, m, k) * mono(n, i, j, l0) == tri(n, i, j, m, k));
        assert(mono(n, i, l1, k) * mono(n, j, m, l1) == tri(n, i, j, m, k));
    }
    lemma_qsum_ext4(glp, grp, n);
}

proof fn lemma_cong_mul(u: int, x: int, y: int, v: int)
    requires
        x % word_modulus() == y % word_modulus(),
    ensures
        (u * (x * v)) % word_modulus() == (u * (y * v)) % word_modulus(),
{
    let m = word_modulus();
    lemma_mul_mod_noop_left(x, v, m);
    lemma_mul_mod_noop_left(y, v, m);
    lemma_mul_mod_noop_right(u, x * v, m);
    lemma_mul_mod_noop_right(u, y * v, m);
}

proof fn lemma_cong_mul_right(u: int, w: int, x: int, y: int)
    requires
        x % word_modulus() == y % word_modulus(),
    ensures
        (u * (w * x)) % word_modulus() == (u * (w * y)) % word_modulus(),
{
    let m = word_modulus();
    lemma_mul_mod_noop_right(w, x, m);
    lemma_mul_mod_noop_right(w, y, m);
    lemma_mul_mod_noop_right(u, w * x, m);
    lemma_mul_mod_noop_right(u, w * y, m);
}

/// The negacyclic product is associative.
pub proof fn lemma_negacyclic_assoc(a: Seq<u64>, b: Seq<u64>, c: Seq<u64>)
    requires
        a.len() == b.len(),
        b.len() == c.len(),
    ensures
        negacyclic(negacyclic(a, b), c) == negacyclic(a, negacyclic(b, c)),
{
    let n = a.len() as int;
    let ab = negacyclic(a, b);
    let bc = negacyclic(b, c);
    let m = word_modulus();
    assert forall|k: int| 0 <= k < n implies #[trigger] negacyclic(ab, c)[k] == negacyclic(a, bc)[k] by {
        let fl = |l: int, j: int| mono(n, l, j, k) * (pc(a, b, n, l) * c[j]);
        let fr = |i: int, l: int| mono(n, i, l, k) * (a[i] * pc(b, c, n, l));
        lemma_nega_is_pc(ab, c, n, k);
        lemma_nega_is_pc(a, bc, n, k);
        assert forall|l: int, j: int| 0 <= l < n && 0 <= j < n implies #[trigger] prod_terms(ab, c, n, k)(l, j) % m
            == fl(l, j) % m by {
            lemma_nega_is_pc(a, b, n, l);
            lemma_mod_twice(pc(a, b, n, l), m);
            lemma_cong_mul(mono(n, l, j, k), ab[l] as int, pc(a, b, n, l), c[j] as int);
        }
        lemma_dsum_congruent(prod_terms(ab, c, n, k), fl, n, n);
        assert forall|i: int, l: int| 0 <= i < n && 0 <= l < n implies #[trigger] prod_terms(a, bc, n, k)(i, l) % m
            == fr(i, l) % m by {
            lemma_nega_is_pc(b, c, n, l);
            lemma_mod_twice(pc(b, c, n, l), m);
            lemma_cong_mul_right(mono(n, i, l, k), a[i] as int, bc[l] as int, pc(b, c, n, l));
        }
        lemma_dsum_congruent(prod_terms(a, bc, n, k), fr, n, n);
        lemma_pc_assoc_int(a, b, c, n, k);
    }
    assert(negacyclic(ab, c) =~= negacyclic(a, bc));
}

/// The sum of a sum of two functions, given pointwise.
proof fn lemma_sum_add_rel(f: spec_fn(int) -> int, g: spec_fn(int) -> int, h: spec_fn(int) -> int, m: int)
    requires
        forall|i: int| 0 <= i < m ==> #[trigger] h(i) == f(i) + g(i),
    ensures
        sum(h, m) == sum(f, m) + sum(g, m),
    decreases m,
{
    if m > 0 {
        lemma_sum_add_rel(f, g, h, m - 1);
    }
}

proof fn lemma_dsum_add(f: spec_fn(int, int) -> int, g: spec_fn(int, int) -> int, h: spec_fn(int, int) -> int, n: int)
    requires
        forall|i: int, j: int| 0 <= i < n && 0 <= j < n ==> #[trigger] h(i, j) == f(i, j) + g(i, j),
    ensures
        dsum(h, n, n) == dsum(f, n, n) + dsum(g, n, n),
{
    assert forall|i: int| 0 <= i < n implies #[trigger] inner(h, i, n) == inner(f, i, n) + inner(g, i, n) by {
        lemma_sum_add_rel(|j: int| f(i, j), |j: int| g(i, j), |j: int| h(i, j), n);
    }
    lemma_sum_add_rel(|i: int| inner(f, i, n), |i: int| inner(g, i, n), |i: int| inner(h, i, n), n);
}

proof fn lemma_lin_term(mo: int, x: int, y: int, z: int, sj: int, alpha: int, beta: int)
    ensures
        mo * ((alpha * y + beta * z) * sj) == alpha * (mo * (y * sj)) + beta * (mo * (z * sj)),
{
    lemma_mul_is_distributive_add_other_way(sj, alpha * y, beta * z);
    lemma_mul_is_distributive_add(mo, (alpha * y) * sj, (beta * z) * sj);
    assert(mo * ((alpha * y) * sj) == alpha * (mo * (y * sj))) by (nonlinear_arith);
    assert(mo * ((beta * z) * sj) == beta * (mo * (z * sj))) by (nonlinear_arith);
}

/// The negacyclic product is linear in its first factor, modulo `2^64`:
/// when `x = alpha * y + beta * z` coefficient by coefficient, so is `x * s`.
pub proof fn lemma_negacyclic_lin(x: Seq<u64>, y: Seq<u64>, z: Seq<u64>, s: Seq<u64>, alpha: int, beta: int)
    requires
        x.len() == s.len(),
        y.len() == s.len(),
        z.len() == s.len(),
        forall|i: int| 0 <= i < s.len() ==> #[trigger] (x[i] as int) % word_modulus() == (alpha * y[i] + beta * z[i])
            % word_modulus(),
    ensures
        forall|k: int| 0 <= k < s.len() ==> #[trigger] (negacyclic(x, s)[k] as int) % word_modulus() == (alpha
            * negacyclic(y, s)[k] + beta * negacyclic(z, s)[k]) % word_modulus(),
{
    let n = s.len() as int;
    let m = word_modulus();
    assert forall|k: int| 0 <= k < n implies #[trigger] (negacyclic(x, s)[k] as int) % m == (alpha * negacyclic(
        y,
        s,
    )[k] + beta * negacyclic(z, s)[k]) % m by {
        let tx = prod_terms(x, s, n, k);
        let ty = prod_terms(y, s, n, k);
        let tz = prod_terms(z, s, n, k);
        let tl = |i: int, j: int| mono(n, i, j, k) * ((alpha * y[i] + beta * z[i]) * s[j]);
        let ay = |i: int, j: int| alpha * ty(i, j);
        let bz = |i: int, j: int| beta * tz(i, j);
        lemma_nega_is_pc(x, s, n, k);
        lemma_nega_is_pc(y, s, n, k);
        lemma_nega_is_pc(z, s, n, k);
        assert forall|i: int, j: int| 0 <= i < n && 0 <= j < n implies #[trigger] tx(i, j) % m == tl(i, j) % m by {
            lemma_cong_mul(mono(n, i, j, k), x[i] as int, alpha * y[i] + beta * z[i], s[j] as int);
        }
        lemma_dsum_congruent(tx, tl, n, n);
        assert forall|i: int, j: int| 0 <= i < n && 0 <= j < n implies #[trigger] tl(i, j) == ay(i, j) + bz(i, j) by {
            lemma_lin_term(mono(n, i, j, k), x[i] as int, y[i] as int, z[i] as int, s[j] as int, alpha, beta);
        }
        lemma_dsum_add(ay, bz, tl, n);
        lemma_dsum_scale(alpha, ty, ay, n, n);
        lemma_dsum_scale(beta, tz, bz, n, n);
        // reduce the wrapped coefficients of y * s and z * s
        let py = pc(y, s, n, k);
        let pz = pc(z, s, n, k);
        lemma_mod_twice(py, m);
        lemma_mod_twice(pz, m);
        lemma_mod_twice(pc(x, s, n, k), m);
        lemma_add_mod_noop(alpha * py, beta * pz, m);
        lemma_mul_mod_noop_right(alpha, py, m);
        lemma_mul_mod_noop_right(beta, pz, m);
        lemma_add_mod_noop(alpha * (py % m), beta * (pz % m), m);
        lemma_mul_mod_noop_right(alpha, py % m, m);
        lemma_mul_mod_noop_right(beta, pz % m, m);
    }
}


/// `x * D` for `x = alpha * y + beta * z` coefficient by coefficient.
pub proof fn lemma_lin_right(dd: Seq<u64>, x: Seq<u64>, y: Seq<u64>, z: Seq<u64>, alpha: int, beta: int)
    requires
        x.len() == dd.len(),
        y.len() == dd.len(),
        z.len() == dd.len(),
        forall|i: int| 0 <= i < dd.len() ==> #[trigger] (x[i] as int) % word_modulus() == (alpha * y[i] + beta * z[i])
            % word_modulus(),
    ensures
        forall|k: int| 0 <= k < dd.len() ==> #[trigger] (negacyclic(dd, x)[k] as int) % word_modulus() == (alpha
            * negacyclic(dd, y)[k] + beta * negacyclic(dd, z)[k]) % word_modulus(),
{
    lemma_negacyclic_lin(x, y, z, dd, alpha, beta);
    lemma_negacyclic_comm(dd, x);
    lemma_negacyclic_comm(dd, y);
    lemma_negacyclic_comm(dd, z);
}

/// Wrapping keeps the class modulo `2^64`.
pub proof fn lemma_mod_sub(x: int, y: int)
    ensures
        (wrap(x - y) as int) % word_modulus() == (x - y) % word_modulus(),
        (wrap(x) as int) % word_modulus() == x % word_modulus(),
{
    vstd::arithmetic::div_mod::lemma_mod_twice(x - y, word_modulus());
    vstd::arithmetic::div_mod::lemma_mod_twice(x, word_modulus());
}

/// Differences of congruent values are congruent.
pub proof fn lemma_cong_sub(a: int, b: int, c: int, d: int)
    requires
        a % word_modulus() == b % word_modulus(),
        c % word_modulus() == d % word_modulus(),
    ensures
        (a - c) % word_modulus() == (b - d) % word_modulus(),
{
    vstd::arithmetic::div_mod::lemma_sub_mod_noop(a, c, word_modulus());
    vstd::arithmetic::div_mod::lemma_sub_mod_noop(b, d, word_modulus());
}

/// Sums of congruent values are congruent.
pub proof fn lemma_cong_add(a: int, b: int, c: int, d: int)
    requires
        a % word_modulus() == b % word_modulus(),
        c % word_modulus() == d % word_modulus(),
    ensures
        (a + c) % word_modulus() == (b + d) % word_modulus(),
{
    vstd::arithmetic::div_mod::lemma_add_mod_noop(a, c, word_modulus());
    vstd::arithmetic::div_mod::lemma_add_mod_noop(b, d, word_modulus());
}


/// The coefficient of `X^t` in `X^e` reduced in `Z[X]/(X^n + 1)`, for
/// `0 <= t < n`: `X^e = X^r` with `r = e mod 2n`, and `X^r = -X^(r - n)`
/// when `r >= n`.
pub open spec fn chi(n: int, e: int, t: int) -> int {
    let r = e % (2 * n);
    if r == t {
        1
    } else if r == t + n {
        -1
    } else {
        0
    }
}

/// `X^(e + n) = -X^e`.
proof fn lemma_chi_shift(n: int, e: int, t: int)
    requires
        n > 0,
        0 <= t < n,
    ensures
        chi(n, e + n, t) == -chi(n, e, t),
{
    let r = e % (2 * n);
    lemma_mod_bound(e, 2 * n);
    lemma_fundamental_div_mod(e, 2 * n);
    if r < n {
        lemma_fundamental_div_mod_converse(e + n, 2 * n, e / (2 * n), r + n);
    } else {
        let q = e / (2 * n);
        assert((q + 1) * (2 * n) == q * (2 * n) + 2 * n) by (nonlinear_arith);
        lemma_fundamental_div_mod_converse(e + n, 2 * n, q + 1, r - n);
    }
}

/// `X^(e + 2 n q) = X^e`.
proof fn lemma_chi_periodic(n: int, e: int, q: int, t: int)
    requires
        n > 0,
    ensures
        chi(n, e + 2 * n * q, t) == chi(n, e, t),
{
    lemma_mod_multiples_vanish(q, e, 2 * n);
    assert(2 * n * q == (2 * n) * q);
    assert((2 * n) * q + e == e + 2 * n * q);
}

/// For an odd `k`, `X^((l + n) k) = -X^(l k)`.
proof fn lemma_chi_odd(n: int, l: int, k: int, t: int)
    requires
        n > 0,
        0 <= t < n,
        k % 2 == 1,
    ensures
        chi(n, (l + n) * k, t) == -chi(n, l * k, t),
{
    let q = k / 2;
    lemma_fundamental_div_mod(k, 2);
    assert((l + n) * k == l * k + n + 2 * n * q) by (nonlinear_arith)
        requires
            k == 2 * q + 1,
    ;
    lemma_chi_periodic(n, l * k + n, q, t);
    lemma_chi_shift(n, l * k, t);
}

/// The coefficients of `mono` are those of `X^(i + j)`.
proof fn lemma_mono_chi(n: int, i: int, j: int, l: int)
    requires
        0 <= i < n,
        0 <= j < n,
        0 <= l < n,
    ensures
        mono(n, i, j, l) == chi(n, i + j, l),
{
    lemma_small_mod((i + j) as nat, (2 * n) as nat);
}

/// Coefficient `t` of `p(X^k)` is the sum of `chi(n, i k, t) * p[i]`.
proof fn lemma_eval_partial_sum(p: Seq<u64>, n: int, k: int, t: int, m: int)
    requires
        n > 0,
        0 <= t < n,
    ensures
        eval_partial(p, n, k, t, m) == sum(|i: int| chi(n, i * k, t) * p[i], m),
    decreases m,
{
    if m > 0 {
        lemma_eval_partial_sum(p, n, k, t, m - 1);
        let i = m - 1;
        lemma_mod_bound(i * k, 2 * n);
        let c = chi(n, i * k, t);
        assert(eval_term(p, n, k, i, t) == c * p[i]) by {
            if c == 1 {
                assert(1 * p[i] == p[i] as int);
            } else if c == -1 {
                assert(-1 * p[i] == -p[i]);
            } else {
                assert(0 * p[i] == 0);
            }
        }
    }
}


/// `sum_l chi(n, l k, t) * mono(n, i, j, l)`: the coefficient of `X^t` in
/// `(X^i X^j)(X^k)`, that of `X^((i + j) k)`.
proof fn lemma_eval_mono(n: int, k: int, i: int, j: int, t: int)
    requires
        n > 0,
        0 <= i < n,
        0 <= j < n,
        0 <= t < n,
        k % 2 == 1,
    ensures
        sum(|l: int| chi(n, l * k, t) * mono(n, i, j, l), n) == chi(n, (i + j) * k, t),
{
    let f = |l: int| chi(n, l * k, t) * mono(n, i, j, l);
    let l0 = if i + j < n {
        i + j
    } else {
        i + j - n
    };
    assert forall|l: int| 0 <= l < n && l != l0 implies #[trigger] f(l) == 0 by {
        assert(mono(n, i, j, l) == 0);
    }
    lemma_sum_single(f, n, l0);
    if i + j < n {
        assert(mono(n, i, j, l0) == 1);
    } else {
        assert(mono(n, i, j, l0) == -1);
        lemma_chi_odd(n, l0, k, t);
        assert(l0 + n == i + j);
    }
}

/// The position `u0` and the sign of the single monomial `X^u0` or `-X^u0`
/// that `X^(i k)` reduces to.
spec fn red_pos(n: int, e: int) -> int {
    let r = e % (2 * n);
    if r < n {
        r
    } else {
        r - n
    }
}

spec fn red_sign(n: int, e: int) -> int {
    if e % (2 * n) < n {
        1
    } else {
        -1
    }
}

proof fn lemma_chi_single(n: int, e: int, u: int)
    requires
        n > 0,
        0 <= u < n,
    ensures
        chi(n, e, u) == if u == red_pos(n, e) {
            red_sign(n, e)
        } else {
            0
        },
        0 <= red_pos(n, e) < n,
{
    lemma_mod_bound(e, 2 * n);
}

/// The reduction of `X^(e1 + e2)` is the product of the reductions of
/// `X^e1` and `X^e2`.
proof fn lemma_chi_add(n: int, e1: int, e2: int, t: int)
    requires
        n > 0,
        0 <= t < n,
    ensures
        chi(n, e1 + e2, t) == red_sign(n, e1) * red_sign(n, e2) * chi(n, red_pos(n, e1) + red_pos(n, e2), t),
{
    let r1 = e1 % (2 * n);
    let r2 = e2 % (2 * n);
    let q1 = e1 / (2 * n);
    let q2 = e2 / (2 * n);
    lemma_fundamental_div_mod(e1, 2 * n);
    lemma_fundamental_div_mod(e2, 2 * n);
    lemma_mod_bound(e1, 2 * n);
    lemma_mod_bound(e2, 2 * n);
    let u0 = red_pos(n, e1);
    let v0 = red_pos(n, e2);
    let base = u0 + v0;
    let c1: int = if r1 < n {
        0
    } else {
        1
    };
    let c2: int = if r2 < n {
        0
    } else {
        1
    };
    assert(e1 + e2 == base + n * c1 + n * c2 + 2 * n * (q1 + q2)) by (nonlinear_arith)
        requires
            e1 == (2 * n) * q1 + r1,
            e2 == (2 * n) * q2 + r2,
            r1 == u0 + n * c1,
            r2 == v0 + n * c2,
            base == u0 + v0,
    ;
    lemma_chi_periodic(n, base + n * c1 + n * c2, q1 + q2, t);
    let cb = chi(n, base, t);
    let s1 = red_sign(n, e1);
    let s2 = red_sign(n, e2);
    if c1 == 1 && c2 == 1 {
        assert(n * c1 == n && n * c2 == n);
        lemma_chi_shift(n, base + n, t);
        lemma_chi_shift(n, base, t);
        assert(chi(n, e1 + e2, t) == cb);
        assert(s1 * s2 * cb == cb) by (nonlinear_arith)
            requires
                s1 == -1,
                s2 == -1,
        ;
    } else if c1 == 1 {
        assert(n * c1 == n && n * c2 == 0);
        lemma_chi_shift(n, base, t);
        assert(chi(n, e1 + e2, t) == -cb);
        assert(s1 * s2 * cb == -cb) by (nonlinear_arith)
            requires
                s1 == -1,
                s2 == 1,
        ;
    } else if c2 == 1 {
        assert(n * c1 == 0 && n * c2 == n);
        lemma_chi_shift(n, base, t);
        assert(chi(n, e1 + e2, t) == -cb);
        assert(s1 * s2 * cb == -cb) by (nonlinear_arith)
            requires
                s1 == 1,
                s2 == -1,
        ;
    } else {
        assert(n * c1 == 0 && n * c2 == 0);
        assert(chi(n, e1 + e2, t) == cb);
        assert(s1 * s2 * cb == cb) by (nonlinear_arith)
            requires
                s1 == 1,
                s2 == 1,
        ;
    }
}

/// `sum_{u, v} mono(n, u, v, t) * chi(n, i k, u) * chi(n, j k, v)`: the
/// coefficient of `X^t` in `X^(i k) X^(j k)`, that of `X^((i + j) k)`.
proof fn lemma_mono_eval(n: int, k: int, i: int, j: int, t: int)
    requires
        n > 0,
        0 <= t < n,
    ensures
        dsum(|u: int, v: int| mono(n, u, v, t) * (chi(n, i * k, u) * chi(n, j * k, v)), n, n) == chi(
            n,
            (i + j) * k,
            t,
        ),
{
    let f = |u: int, v: int| mono(n, u, v, t) * (chi(n, i * k, u) * chi(n, j * k, v));
    let u0 = red_pos(n, i * k);
    let v0 = red_pos(n, j * k);
    let si = red_sign(n, i * k);
    let sj = red_sign(n, j * k);
    lemma_chi_single(n, i * k, 0);
    lemma_chi_single(n, j * k, 0);
    assert forall|u: int| 0 <= u < n && u != u0 implies #[trigger] inner(f, u, n) == 0 by {
        lemma_chi_single(n, i * k, u);
        let g = |v: int| f(u, v);
        assert forall|v: int| 0 <= v < n implies #[trigger] g(v) == 0 by {
            assert(chi(n, i * k, u) * chi(n, j * k, v) == 0);
        }
        lemma_sum_single(g, n, -1);
        assert(inner(f, u, n) == sum(g, n));
    }
    lemma_sum_single(|u: int| inner(f, u, n), n, u0);
    lemma_chi_single(n, i * k, u0);
    let g0 = |v: int| f(u0, v);
    assert forall|v: int| 0 <= v < n && v != v0 implies #[trigger] g0(v) == 0 by {
        lemma_chi_single(n, j * k, v);
        assert(chi(n, i * k, u0) * chi(n, j * k, v) == 0);
    }
    lemma_sum_single(g0, n, v0);
    assert(inner(f, u0, n) == sum(g0, n));
    lemma_chi_single(n, j * k, v0);
    lemma_mono_chi(n, u0, v0, t);
    assert((i + j) * k == i * k + j * k) by (nonlinear_arith);
    lemma_chi_add(n, i * k, j * k, t);
    let c = chi(n, u0 + v0, t);
    assert(mono(n, u0, v0, t) * (si * sj) == si * sj * c) by (nonlinear_arith)
        requires
            mono(n, u0, v0, t) == c,
    ;
}


/// Scaling keeps congruence modulo `2^64`.
pub proof fn lemma_cong_scale(c: int, x: int, y: int)
    requires
        x % word_modulus() == y % word_modulus(),
    ensures
        (c * x) % word_modulus() == (c * y) % word_modulus(),
{
    lemma_mul_mod_noop_right(c, x, word_modulus());
    lemma_mul_mod_noop_right(c, y, word_modulus());
}

/// The product of two sums is the double sum of the products.
proof fn lemma_sum_mul(f: spec_fn(int) -> int, g: spec_fn(int) -> int, m1: int, m2: int)
    ensures
        sum(f, m1) * sum(g, m2) == dsum(|i: int, j: int| f(i) * g(j), m1, m2),
{
    let h = |i: int, j: int| f(i) * g(j);
    assert forall|i: int| 0 <= i < m1 implies #[trigger] inner(h, i, m2) == sum(g, m2) * f(i) by {
        lemma_sum_scale(f(i), g, |j: int| h(i, j), m2);
        lemma_mul_is_commutative(f(i), sum(g, m2));
    }
    lemma_sum_scale(sum(g, m2), f, |i: int| inner(h, i, m2), m1);
    lemma_mul_is_commutative(sum(f, m1), sum(g, m2));
}

/// The substitution `X -> X^k`, `k` odd, of a product: coefficient `t` of
/// `(a b)(X^k)` over the integers, before reduction modulo `2^64`.
proof fn lemma_eval_of_product(a: Seq<u64>, b: Seq<u64>, n: int, k: int, t: int)
    requires
        n > 0,
        a.len() == n,
        b.len() == n,
        0 <= t < n,
        k % 2 == 1,
    ensures
        sum(|l: int| chi(n, l * k, t) * pc(a, b, n, l), n) == dsum(
            |i: int, j: int| (a[i] * b[j]) * chi(n, (i + j) * k, t),
            n,
            n,
        ),
{
    let hh = |l: int, i: int, j: int| chi(n, l * k, t) * (mono(n, i, j, l) * (a[i] * b[j]));
    let phi = |l: int, i: int| sum(|j: int| hh(l, i, j), n);
    let psi = |i: int, j: int| (a[i] * b[j]) * chi(n, (i + j) * k, t);
    // each term of the sum over l is a double sum over (i, j)
    let f2 = |l: int| chi(n, l * k, t) * pc(a, b, n, l);
    assert forall|l: int| 0 <= l < n implies #[trigger] f2(l) == inner(phi, l, n) by {
        let gl = |i: int, j: int| hh(l, i, j);
        lemma_dsum_scale(chi(n, l * k, t), prod_terms(a, b, n, l), gl, n, n);
        assert forall|i: int| 0 <= i < n implies #[trigger] inner(gl, i, n) == phi(l, i) by {
            lemma_sum_ext(|j: int| gl(i, j), |j: int| hh(l, i, j), n);
        }
        lemma_sum_ext(|i: int| inner(gl, i, n), |i: int| phi(l, i), n);
    }
    lemma_sum_ext(f2, |l: int| inner(phi, l, n), n);
    lemma_dsum_swap(phi, n, n);
    // for each i, exchange the sums over l and j, and collapse the sum over l
    assert forall|i: int| 0 <= i < n implies #[trigger] inner(transpose(phi), i, n) == inner(psi, i, n) by {
        let gi = |l: int, j: int| hh(l, i, j);
        assert forall|l: int| 0 <= l < n implies #[trigger] inner(gi, l, n) == transpose(phi)(i, l) by {
            lemma_sum_ext(|j: int| gi(l, j), |j: int| hh(l, i, j), n);
        }
        lemma_sum_ext(|l: int| inner(gi, l, n), |l: int| transpose(phi)(i, l), n);
        lemma_dsum_swap(gi, n, n);
        assert forall|j: int| 0 <= j < n implies #[trigger] inner(transpose(gi), j, n) == psi(i, j) by {
            let x = a[i] * b[j];
            let kern = |l: int| chi(n, l * k, t) * mono(n, i, j, l);
            assert forall|l: int| 0 <= l < n implies #[trigger] transpose(gi)(j, l) == x * kern(l) by {
                assert(chi(n, l * k, t) * (mono(n, i, j, l) * x) == x * (chi(n, l * k, t) * mono(n, i, j, l)))
                    by (nonlinear_arith);
            }
            lemma_sum_scale(x, kern, |l: int| transpose(gi)(j, l), n);
            lemma_eval_mono(n, k, i, j, t);
        }
        lemma_sum_ext(|j: int| inner(transpose(gi), j, n), |j: int| psi(i, j), n);
    }
    lemma_sum_ext(|i: int| inner(transpose(phi), i, n), |i: int| inner(psi, i, n), n);
}


/// Coefficient `t` of the product `a(X^k) b(X^k)` over the integers, before
/// reduction modulo `2^64`.
proof fn lemma_product_of_evals(a: Seq<u64>, b: Seq<u64>, n: int, k: int, t: int)
    requires
        n > 0,
        a.len() == n,
        b.len() == n,
        0 <= t < n,
        k % 2 == 1,
    ensures
        dsum(
            |u: int, v: int|
                mono(n, u, v, t) * (sum(|i: int| chi(n, i * k, u) * a[i], n) * sum(
                    |j: int| chi(n, j * k, v) * b[j],
                    n,
                )),
            n,
            n,
        ) == dsum(|i: int, j: int| (a[i] * b[j]) * chi(n, (i + j) * k, t), n, n),
{
    let g = |u: int, v: int, i: int, j: int| mono(n, u, v, t) * ((chi(n, i * k, u) * a[i]) * (chi(n, j * k, v) * b[j]));
    let ff = |u: int, v: int|
        mono(n, u, v, t) * (sum(|i: int| chi(n, i * k, u) * a[i], n) * sum(|j: int| chi(n, j * k, v) * b[j], n));
    let psi = |i: int, j: int| (a[i] * b[j]) * chi(n, (i + j) * k, t);
    assert forall|u: int, v: int| 0 <= u < n && 0 <= v < n implies #[trigger] ff(u, v) == q3(g, u, v, n) by {
        let fa = |i: int| chi(n, i * k, u) * a[i];
        let fb = |j: int| chi(n, j * k, v) * b[j];
        lemma_sum_mul(fa, fb, n, n);
        lemma_dsum_scale(mono(n, u, v, t), |i: int, j: int| fa(i) * fb(j), |i: int, j: int| g(u, v, i, j), n, n);
        lemma_dsum_is_q3(g, u, v, n);
    }
    lemma_dsum_of_q3(ff, g, n);
    // reorder (u, v, i, j) to (i, j, u, v)
    let g1 = |x1: int, x2: int, x3: int, x4: int| g(x1, x3, x2, x4);
    lemma_qsum_swap23(g, n);
    lemma_qsum_ext(|x1: int, x2: int, x3: int, x4: int| g(x1, x3, x2, x4), g1, n);
    let g2 = |x1: int, x2: int, x3: int, x4: int| g(x2, x3, x1, x4);
    lemma_qsum_swap12(g1, n);
    lemma_qsum_ext(|x1: int, x2: int, x3: int, x4: int| g1(x2, x1, x3, x4), g2, n);
    let g3 = |x1: int, x2: int, x3: int, x4: int| g(x2, x4, x1, x3);
    lemma_qsum_swap34(g2, n);
    lemma_qsum_ext(|x1: int, x2: int, x3: int, x4: int| g2(x1, x2, x4, x3), g3, n);
    let gp = |x1: int, x2: int, x3: int, x4: int| g(x3, x4, x1, x2);
    lemma_qsum_swap23(g3, n);
    lemma_qsum_ext(|x1: int, x2: int, x3: int, x4: int| g3(x1, x3, x2, x4), gp, n);
    // the two inner sums over (u, v) collapse
    assert forall|i: int, j: int| 0 <= i < n && 0 <= j < n implies #[trigger] psi(i, j) == q3(gp, i, j, n) by {
        let x = a[i] * b[j];
        let kern = |u: int, v: int| mono(n, u, v, t) * (chi(n, i * k, u) * chi(n, j * k, v));
        lemma_dsum_is_q3(gp, i, j, n);
        assert forall|u: int, v: int| 0 <= u < n && 0 <= v < n implies #[trigger] gp(i, j, u, v) == x * kern(u, v) by {
            let m = mono(n, u, v, t);
            let cu = chi(n, i * k, u);
            let cv = chi(n, j * k, v);
            assert(m * ((cu * a[i]) * (cv * b[j])) == (a[i] * b[j]) * (m * (cu * cv))) by (nonlinear_arith);
        }
        lemma_dsum_scale(x, kern, |u: int, v: int| gp(i, j, u, v), n, n);
        lemma_mono_eval(n, k, i, j, t);
    }
    lemma_dsum_of_q3(psi, gp, n);
}


/// The substitution `X -> X^k` with `k` odd is multiplicative in
/// `Z_q[X]/(X^N + 1)`: `(a b)(X^k) = a(X^k) b(X^k)`.
pub proof fn lemma_eval_x_k_mul(a: Seq<u64>, b: Seq<u64>, k: int)
    requires
        a.len() == b.len(),
        a.len() > 0,
        k % 2 == 1,
    ensures
        eval_x_k_spec(negacyclic(a, b), k) == negacyclic(eval_x_k_spec(a, k), eval_x_k_spec(b, k)),
{
    let n = a.len() as int;
    let w = word_modulus();
    let ab = negacyclic(a, b);
    let ea = eval_x_k_spec(a, k);
    let eb = eval_x_k_spec(b, k);
    let lhs = eval_x_k_spec(ab, k);
    let rhs = negacyclic(ea, eb);
    assert forall|t: int| 0 <= t < n implies #[trigger] lhs[t] == rhs[t] by {
        let psi = |i: int, j: int| (a[i] * b[j]) * chi(n, (i + j) * k, t);
        // the left side
        lemma_eval_partial_sum(ab, n, k, t, n);
        let f1 = |l: int| chi(n, l * k, t) * ab[l];
        let f2 = |l: int| chi(n, l * k, t) * pc(a, b, n, l);
        assert forall|l: int| 0 <= l < n implies #[trigger] f1(l) % w == f2(l) % w by {
            lemma_nega_is_pc(a, b, n, l);
            lemma_mod_twice(pc(a, b, n, l), w);
            lemma_cong_scale(chi(n, l * k, t), ab[l] as int, pc(a, b, n, l));
        }
        lemma_sum_congruent(f1, f2, n);
        lemma_eval_of_product(a, b, n, k, t);
        // the right side
        lemma_nega_is_pc(ea, eb, n, t);
        let aa = |u: int| sum(|i: int| chi(n, i * k, u) * a[i], n);
        let bb = |v: int| sum(|j: int| chi(n, j * k, v) * b[j], n);
        let ff = |u: int, v: int| mono(n, u, v, t) * (aa(u) * bb(v));
        assert forall|u: int, v: int| 0 <= u < n && 0 <= v < n implies #[trigger] prod_terms(ea, eb, n, t)(u, v) % w
            == ff(u, v) % w by {
            lemma_eval_partial_sum(a, n, k, u, n);
            lemma_eval_partial_sum(b, n, k, v, n);
            lemma_mod_twice(aa(u), w);
            lemma_mod_twice(bb(v), w);
            lemma_cong_mul(mono(n, u, v, t), ea[u] as int, aa(u), eb[v] as int);
            lemma_cong_mul_right(mono(n, u, v, t), aa(u), eb[v] as int, bb(v));
        }
        lemma_dsum_congruent(prod_terms(ea, eb, n, t), ff, n, n);
        lemma_product_of_evals(a, b, n, k, t);
        assert(ff == (|u: int, v: int|
            mono(n, u, v, t) * (sum(|i: int| chi(n, i * k, u) * a[i], n) * sum(|j: int| chi(n, j * k, v) * b[j], n))));
        lemma_mod_twice(pc(ea, eb, n, t), w);
    }
    assert(lhs =~= rhs);
}


/// The substitution `X -> X^k` is additive: `(x - y)(X^k) = x(X^k) - y(X^k)`.
pub proof fn lemma_eval_x_k_sub(x: Seq<u64>, y: Seq<u64>, k: int)
    requires
        x.len() == y.len(),
        x.len() > 0,
    ensures
        eval_x_k_spec(seq_sub(x, y), k) == seq_sub(eval_x_k_spec(x, k), eval_x_k_spec(y, k)),
{
    let n = x.len() as int;
    let w = word_modulus();
    let d = seq_sub(x, y);
    let lhs = eval_x_k_spec(d, k);
    let rhs = seq_sub(eval_x_k_spec(x, k), eval_x_k_spec(y, k));
    assert forall|t: int| 0 <= t < n implies #[trigger] lhs[t] == rhs[t] by {
        lemma_eval_partial_sum(d, n, k, t, n);
        lemma_eval_partial_sum(x, n, k, t, n);
        lemma_eval_partial_sum(y, n, k, t, n);
        let fd = |i: int| chi(n, i * k, t) * d[i];
        let fx = |i: int| chi(n, i * k, t) * x[i];
        let fy = |i: int| chi(n, i * k, t) * y[i];
        let fny = |i: int| -1 * fy(i);
        let fxy = |i: int| fx(i) + fny(i);
        assert forall|i: int| 0 <= i < n implies #[trigger] fd(i) % w == fxy(i) % w by {
            lemma_mod_sub(x[i] as int, y[i] as int);
            lemma_mod_twice(x[i] - y[i], w);
            lemma_cong_scale(chi(n, i * k, t), d[i] as int, x[i] - y[i]);
            let c = chi(n, i * k, t);
            let xi = x[i] as int;
            let yi = y[i] as int;
            assert(c * (xi - yi) == c * xi + -1 * (c * yi)) by (nonlinear_arith);
            assert(fx(i) + fny(i) == c * xi + -1 * (c * yi));
        }
        lemma_sum_congruent(fd, fxy, n);
        lemma_sum_add_rel(fx, fny, fxy, n);
        lemma_sum_scale(-1, fy, fny, n);
        let sx = sum(fx, n);
        let sy = sum(fy, n);
        lemma_mod_twice(sx, w);
        lemma_mod_twice(sy, w);
        lemma_mod_sub(sx % w, sy % w);
        lemma_cong_sub(sx % w, sx, sy % w, sy);
        lemma_mod_twice(sum(fd, n), w);
    }
    assert(lhs =~= rhs);
}

/// The substitution `X -> X^k`, `k` odd, commutes with the phase: the phase
/// of `(a(X^k), b(X^k))` under `s(X^k)` is the substitution of the phase of
/// `(a, b)` under `s`.
pub proof fn lemma_eval_x_k_phase(s: Seq<u64>, a: Seq<u64>, b: Seq<u64>, k: int)
    requires
        s.len() > 0,
        a.len() == s.len(),
        b.len() == s.len(),
        k % 2 == 1,
    ensures
        seq_sub(eval_x_k_spec(b, k), negacyclic(eval_x_k_spec(a, k), eval_x_k_spec(s, k))) == eval_x_k_spec(
            seq_sub(b, negacyclic(a, s)),
            k,
        ),
{
    lemma_eval_x_k_mul(a, s, k);
    lemma_eval_x_k_sub(b, negacyclic(a, s), k);
}


/// A power of two that divides `x k` with `k` odd divides `x`.
proof fn lemma_pow2_divides_odd_multiple(x: int, k: int, e: nat)
    requires
        k % 2 == 1,
        (x * k) % vstd::arithmetic::power2::pow2(e) as int == 0,
    ensures
        x % vstd::arithmetic::power2::pow2(e) as int == 0,
    decreases e,
{
    if e > 0 {
        let p = vstd::arithmetic::power2::pow2(e) as int;
        let ph = vstd::arithmetic::power2::pow2((e - 1) as nat) as int;
        vstd::arithmetic::power2::lemma_pow2_unfold(e);
        vstd::arithmetic::power2::lemma_pow2_pos((e - 1) as nat);
        assert(p == 2 * ph);
        // x k is even, so x is even
        lemma_fundamental_div_mod(x * k, p);
        let c = (x * k) / p;
        assert(x * k == 2 * (ph * c)) by (nonlinear_arith)
            requires
                x * k == p * c,
                p == 2 * ph,
        ;
        lemma_mul_mod_noop(x, k, 2);
        lemma_fundamental_div_mod_converse(x * k, 2, ph * c, 0);
        lemma_mod_bound(x, 2);
        assert(x % 2 == 0) by {
            if x % 2 == 1 {
                assert((x % 2) * (k % 2) % 2 == 1);
            }
        }
        let y = x / 2;
        lemma_fundamental_div_mod(x, 2);
        assert(x == 2 * y);
        assert(y * k == ph * c) by (nonlinear_arith)
            requires
                x == 2 * y,
                x * k == 2 * (ph * c),
        ;
        lemma_fundamental_div_mod_converse(y * k, ph, c, 0);
        lemma_pow2_divides_odd_multiple(y, k, (e - 1) as nat);
        lemma_fundamental_div_mod(y, ph);
        let d = y / ph;
        assert(x == p * d) by (nonlinear_arith)
            requires
                x == 2 * y,
                y == ph * d + 0,
                p == 2 * ph,
        ;
        lemma_fundamental_div_mod_converse(x, p, d, 0);
    } else {
        vstd::arithmetic::power2::lemma2_to64();
        lemma_fundamental_div_mod_converse(x, 1, x, 0);
    }
}

/// For an odd `k` in a ring of size `n = 2^log_n`, at most one coefficient
/// of `p` lands at coefficient `t` of `p(X^k)`.
pub proof fn lemma_eval_term_unique(p: Seq<u64>, n: int, log_n: nat, k: int, t: int, i1: int, i2: int)
    requires
        n == vstd::arithmetic::power2::pow2(log_n),
        k % 2 == 1,
        0 <= t < n,
        0 <= i1 < n,
        0 <= i2 < n,
        eval_term(p, n, k, i1, t) != 0,
        eval_term(p, n, k, i2, t) != 0,
    ensures
        i1 == i2,
{
    vstd::arithmetic::power2::lemma_pow2_pos(log_n);
    lemma_mod_mod(i1 * k, n, 2);
    lemma_mod_mod(i2 * k, n, 2);
    assert(n * 2 == 2 * n);
    let e1 = (i1 * k) % (2 * n);
    let e2 = (i2 * k) % (2 * n);
    lemma_mod_bound(i1 * k, 2 * n);
    lemma_mod_bound(i2 * k, 2 * n);
    assert(e1 % n == t) by {
        if e1 >= n {
            lemma_mod_add_multiples_vanish(e1 - n, n);
            lemma_small_mod((e1 - n) as nat, n as nat);
        } else {
            lemma_small_mod(e1 as nat, n as nat);
        }
    }
    assert(e2 % n == t) by {
        if e2 >= n {
            lemma_mod_add_multiples_vanish(e2 - n, n);
            lemma_small_mod((e2 - n) as nat, n as nat);
        } else {
            lemma_small_mod(e2 as nat, n as nat);
        }
    }
    assert((i1 * k) % (n * 2) == e1);
    assert((i1 * k) % n == t);
    assert((i2 * k) % n == t);
    lemma_sub_mod_noop(i1 * k, i2 * k, n);
    assert((i1 - i2) * k == i1 * k - i2 * k) by (nonlinear_arith);
    lemma_mod_self_0(n);
    assert(((i1 - i2) * k) % n == 0) by {
        lemma_small_mod(0, n as nat);
    }
    lemma_pow2_divides_odd_multiple(i1 - i2, k, log_n);
    assert((i1 - i2) % n == 0);
    lemma_fundamental_div_mod(i1 - i2, n);
    let d = (i1 - i2) / n;
    assert(i1 - i2 == n * d);
    assert(i1 - i2 == 0) by (nonlinear_arith)
        requires
            i1 - i2 == n * d,
            -n < i1 - i2 < n,
            n > 0,
    ;
}

/// The partial sums of the contributions to coefficient `t` of `p(X^k)`, for
/// a binary `p` and an odd `k`, are `0`, `1` or `-1`, and `0` while no
/// coefficient has landed at `t`.
proof fn lemma_eval_partial_ternary(p: Seq<u64>, n: int, log_n: nat, k: int, t: int, m: int)
    requires
        n == vstd::arithmetic::power2::pow2(log_n),
        p.len() == n,
        forall|i: int| 0 <= i < p.len() ==> #[trigger] p[i] <= 1,
        k % 2 == 1,
        0 <= t < n,
        0 <= m <= n,
    ensures
        -1 <= eval_partial(p, n, k, t, m) <= 1,
        (forall|i: int| 0 <= i < m ==> #[trigger] eval_term(p, n, k, i, t) == 0) ==> eval_partial(p, n, k, t, m) == 0,
    decreases m,
{
    if m > 0 {
        lemma_eval_partial_ternary(p, n, log_n, k, t, m - 1);
        if eval_term(p, n, k, m - 1, t) != 0 {
            assert forall|i: int| 0 <= i < m - 1 implies #[trigger] eval_term(p, n, k, i, t) == 0 by {
                if eval_term(p, n, k, i, t) != 0 {
                    lemma_eval_term_unique(p, n, log_n, k, t, i, m - 1);
                }
            }
        } else {
            if forall|i: int| 0 <= i < m ==> #[trigger] eval_term(p, n, k, i, t) == 0 {
                assert forall|i: int| 0 <= i < m - 1 implies #[trigger] eval_term(p, n, k, i, t) == 0 by {
                    assert(eval_term(p, n, k, i, t) == 0);
                }
            }
        }
    }
}

/// Substituting `X -> X^k` with an odd `k` in a binary polynomial of size
/// `2^log_n` gives coefficients in `{0, 1, -1}`: `X^k` moves each
/// coefficient to its own place, possibly negated.
pub proof fn lemma_eval_x_k_binary_ternary(p: Seq<u64>, log_n: nat, k: int)
    requires
        p.len() == vstd::arithmetic::power2::pow2(log_n),
        forall|i: int| 0 <= i < p.len() ==> #[trigger] p[i] <= 1,
        k % 2 == 1,
    ensures
        forall|t: int|
            0 <= t < p.len() ==> {
                let c = #[trigger] eval_x_k_spec(p, k)[t];
                c == 0 || c == 1 || c == u64::MAX
            },
{
    let n = p.len() as int;
    assert forall|t: int| 0 <= t < n implies {
        let c = #[trigger] eval_x_k_spec(p, k)[t];
        c == 0 || c == 1 || c == u64::MAX
    } by {
        lemma_eval_partial_ternary(p, n, log_n, k, t, n);
        let v = eval_partial(p, n, k, t, n);
        if v == -1 {
            lemma_mod_add_multiples_vanish(-1, word_modulus());
            lemma_small_mod((word_modulus() - 1) as nat, word_modulus() as nat);
        } else {
            lemma_small_mod(v as nat, word_modulus() as nat);
        }
    }
}

/// The substitution `X -> X^(2^ell + 1)`, `1 <= ell <= log_n`, in a ring of
/// size `n = 2^log_n` keeps the coefficients at the multiples `q s` of
/// `s = n / 2^ell`, negated when `q` is odd.
pub proof fn lemma_eval_at_multiple(f: Seq<u64>, log_n: nat, ell: nat, q: int)
    requires
        f.len() == vstd::arithmetic::power2::pow2(log_n),
        1 <= ell <= log_n,
        0 <= q < vstd::arithmetic::power2::pow2(ell),
    ensures
        0 <= q * vstd::arithmetic::power2::pow2((log_n - ell) as nat) < f.len(),
        eval_x_k_spec(f, (vstd::arithmetic::power2::pow2(ell) + 1) as int)[q * vstd::arithmetic::power2::pow2(
            (log_n - ell) as nat,
        )] == if q % 2 == 0 {
            f[q * vstd::arithmetic::power2::pow2((log_n - ell) as nat)]
        } else {
            wrap(-f[q * vstd::arithmetic::power2::pow2((log_n - ell) as nat)])
        },
{
    let n = f.len() as int;
    let sp = vstd::arithmetic::power2::pow2((log_n - ell) as nat) as int;
    let pe = vstd::arithmetic::power2::pow2(ell) as int;
    let k = pe + 1;
    let t = q * sp;
    vstd::arithmetic::power2::lemma_pow2_adds((log_n - ell) as nat, ell);
    assert(((log_n - ell) as nat + ell) as nat == log_n);
    assert(sp * pe == n);
    vstd::arithmetic::power2::lemma_pow2_pos((log_n - ell) as nat);
    vstd::arithmetic::power2::lemma_pow2_pos(ell);
    assert(0 <= t < n) by (nonlinear_arith)
        requires
            0 <= q < pe,
            sp > 0,
            sp * pe == n,
            t == q * sp,
    ;
    // k is odd
    vstd::arithmetic::power2::lemma_pow2_unfold(ell);
    assert(pe % 2 == 0) by {
        lemma_mod_multiples_basic(vstd::arithmetic::power2::pow2((ell - 1) as nat) as int, 2);
    }
    assert(k % 2 == 1) by {
        lemma_fundamental_div_mod(pe, 2);
        lemma_fundamental_div_mod_converse(k, 2, pe / 2, 1);
    }
    assert(t * k == t + q * n) by (nonlinear_arith)
        requires
            t == q * sp,
            k == pe + 1,
            sp * pe == n,
    ;
    lemma_eval_partial_sum(f, n, k, t, n);
    let g = |u: int| chi(n, u * k, t) * f[u];
    assert forall|u: int| 0 <= u < n && u != t implies #[trigger] g(u) == 0 by {
        if chi(n, u * k, t) != 0 {
            let r = (u * k) % (2 * n);
            lemma_fundamental_div_mod(u * k, 2 * n);
            let c: int = if r == t {
                0
            } else {
                1
            };
            assert(r == t + c * n) by {
                if r == t {
                    assert(c * n == 0);
                } else {
                    assert(r == t + n);
                    assert(c * n == n);
                }
            }
            assert(u * k == (2 * n) * ((u * k) / (2 * n)) + r);
            // (u - t) k = 2 n (u k / 2n) + (c - q) n
            assert((u - t) * k == n * (2 * ((u * k) / (2 * n)) + c - q)) by (nonlinear_arith)
                requires
                    u * k == (2 * n) * ((u * k) / (2 * n)) + r,
                    r == t + c * n,
                    t * k == t + q * n,
            ;
            lemma_fundamental_div_mod_converse((u - t) * k, n, 2 * ((u * k) / (2 * n)) + c - q, 0);
            lemma_pow2_divides_odd_multiple(u - t, k, log_n);
            lemma_fundamental_div_mod(u - t, n);
            let dd = (u - t) / n;
            assert(u - t == n * dd);
            assert(u - t == 0) by (nonlinear_arith)
                requires
                    u - t == n * dd,
                    -n < u - t < n,
                    n > 0,
            ;
            assert(false);
        }
        assert(chi(n, u * k, t) == 0);
        assert(g(u) == 0 * f[u]);
    }
    lemma_sum_single(g, n, t);
    // X^(t k) = X^(t + q n) = (-1)^q X^t
    lemma_fundamental_div_mod(q, 2);
    let h = q / 2;
    if q % 2 == 0 {
        assert(t * k == t + (2 * n) * h) by (nonlinear_arith)
            requires
                t * k == t + q * n,
                q == 2 * h,
        ;
        lemma_fundamental_div_mod_converse(t * k, 2 * n, h, t);
        assert(chi(n, t * k, t) == 1);
        assert(g(t) == f[t] as int);
        vstd::arithmetic::div_mod::lemma_small_mod(f[t] as nat, word_modulus() as nat);
    } else {
        assert(t * k == (t + n) + (2 * n) * h) by (nonlinear_arith)
            requires
                t * k == t + q * n,
                q == 2 * h + 1,
        ;
        lemma_fundamental_div_mod_converse(t * k, 2 * n, h, t + n);
        assert(chi(n, t * k, t) == -1);
        assert(g(t) == -f[t]);
    }
}

} // verus!
