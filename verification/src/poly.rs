//! Polynomials over `Z_q[X]/(X^N + 1)` with the native word modulus `q = 2^64`.
//!
//! A polynomial of size `N` is a `Seq<u64>` of its `N` coefficients, the
//! constant coefficient first. Every operation wraps around the word modulus.
use vstd::arithmetic::div_mod::*;
use vstd::prelude::*;

verus! {

/// The native ciphertext modulus, `2^64`.
pub open spec fn word_modulus() -> int {
    0x1_0000_0000_0000_0000
}

/// The representative in `[0, 2^64)` of an integer modulo `2^64`.
pub open spec fn wrap(x: int) -> u64 {
    (x % word_modulus()) as u64
}

/// Coefficient-wise sum of two polynomials.
pub open spec fn seq_add(a: Seq<u64>, b: Seq<u64>) -> Seq<u64> {
    Seq::new(a.len(), |i: int| wrap(a[i] + b[i]))
}

/// Coefficient-wise difference of two polynomials.
pub open spec fn seq_sub(a: Seq<u64>, b: Seq<u64>) -> Seq<u64> {
    Seq::new(a.len(), |i: int| wrap(a[i] - b[i]))
}

/// Coefficient-wise opposite of a polynomial.
pub open spec fn seq_neg(a: Seq<u64>) -> Seq<u64> {
    Seq::new(a.len(), |i: int| wrap(-a[i]))
}

/// A polynomial multiplied by a constant.
pub open spec fn seq_scale(a: Seq<u64>, c: u64) -> Seq<u64> {
    Seq::new(a.len(), |i: int| wrap(a[i] * c))
}

/// The zero polynomial of size `n`.
pub open spec fn zero_poly(n: nat) -> Seq<u64> {
    Seq::new(n, |i: int| 0u64)
}

/// The contribution of `a[i]` to the coefficient `k` of the negacyclic product
/// `a * b` (with `X^n = -1`): `a[i] * b[k - i]` when `i <= k`, and
/// `-a[i] * b[k + n - i]` otherwise.
pub open spec fn nega_term(a: Seq<u64>, b: Seq<u64>, n: int, i: int, k: int) -> int {
    if i <= k {
        a[i] * b[k - i]
    } else {
        -(a[i] * b[k + n - i])
    }
}

/// The sum of the contributions of `a[0..m]` to coefficient `k` of `a * b`.
pub open spec fn nega_partial(a: Seq<u64>, b: Seq<u64>, n: int, k: int, m: int) -> int
    decreases m,
{
    if m <= 0 {
        0
    } else {
        nega_partial(a, b, n, k, m - 1) + nega_term(a, b, n, m - 1, k)
    }
}

/// The product of two polynomials of size `a.len()` in `Z_q[X]/(X^N + 1)`.
pub open spec fn negacyclic(a: Seq<u64>, b: Seq<u64>) -> Seq<u64> {
    Seq::new(a.len(), |k: int| wrap(nega_partial(a, b, a.len() as int, k, a.len() as int)))
}

/// The index `j` such that `a[i] * b[j]` contributes to coefficient `k`.
pub open spec fn nega_partner(n: int, i: int, k: int) -> int {
    if i <= k {
        k - i
    } else {
        k + n - i
    }
}

pub proof fn lemma_wrap_add(x: int, y: int)
    ensures
        wrap(wrap(x) + y) == wrap(x + y),
        wrap(y + wrap(x)) == wrap(x + y),
{
    lemma_add_mod_noop(x, y, word_modulus());
    lemma_add_mod_noop(wrap(x) as int, y, word_modulus());
    lemma_mod_twice(x, word_modulus());
    lemma_mod_bound(x, word_modulus());
}

pub proof fn lemma_wrap_sub(x: int, y: int)
    ensures
        wrap(wrap(x) - y) == wrap(x - y),
        wrap(y - wrap(x)) == wrap(y - x),
{
    lemma_sub_mod_noop(x, y, word_modulus());
    lemma_sub_mod_noop(wrap(x) as int, y, word_modulus());
    lemma_sub_mod_noop(y, x, word_modulus());
    lemma_sub_mod_noop(y, wrap(x) as int, word_modulus());
    lemma_mod_twice(x, word_modulus());
    lemma_mod_bound(x, word_modulus());
}

pub proof fn lemma_wrap_small(x: int)
    requires
        0 <= x < word_modulus(),
    ensures
        wrap(x) == x,
{
    lemma_small_mod(x as nat, word_modulus() as nat);
}

pub proof fn lemma_wrap_neg(x: int)
    ensures
        wrap(-wrap(x)) == wrap(-x),
{
    lemma_wrap_sub(x, 0);
}

pub proof fn lemma_wrapping_add(x: u64, y: u64)
    ensures
        x.wrapping_add(y) == wrap(x + y),
{
    if x + y >= word_modulus() {
        lemma_fundamental_div_mod_converse(x + y, word_modulus(), 1, x + y - word_modulus());
    } else {
        lemma_wrap_small(x + y);
    }
}

pub proof fn lemma_wrapping_sub(x: u64, y: u64)
    ensures
        x.wrapping_sub(y) == wrap(x - y),
{
    if x - y < 0 {
        lemma_fundamental_div_mod_converse(x - y, word_modulus(), -1, x - y + word_modulus());
    } else {
        lemma_wrap_small(x - y);
    }
}

pub proof fn lemma_wrapping_mul(x: u64, y: u64)
    ensures
        x.wrapping_mul(y) == wrap(x * y),
{
    vstd::arithmetic::mul::lemma_mul_nonnegative(x as int, y as int);
}

/// `a + b` in each coefficient, in place.
pub fn slice_add_assign(out: &mut Vec<u64>, other: &[u64])
    requires
        old(out).len() == other.len(),
    ensures
        final(out)@ == seq_add(old(out)@, other@),
{
    let n = out.len();
    let mut i: usize = 0;
    while i < n
        invariant
            n == out.len(),
            n == other.len(),
            i <= n,
            old(out).len() == n,
            forall|j: int| 0 <= j < i ==> out@[j] == wrap(old(out)@[j] + other@[j]),
            forall|j: int| i <= j < n ==> out@[j] == old(out)@[j],
        decreases n - i,
    {
        let v = out[i].wrapping_add(other[i]);
        proof {
            lemma_wrapping_add(out@[i as int], other@[i as int]);
        }
        out.set(i, v);
        i += 1;
    }
    assert(out@ =~= seq_add(old(out)@, other@));
}

/// `a - b` in each coefficient, in place.
pub fn slice_sub_assign(out: &mut Vec<u64>, other: &[u64])
    requires
        old(out).len() == other.len(),
    ensures
        final(out)@ == seq_sub(old(out)@, other@),
{
    let n = out.len();
    let mut i: usize = 0;
    while i < n
        invariant
            n == out.len(),
            n == other.len(),
            i <= n,
            old(out).len() == n,
            forall|j: int| 0 <= j < i ==> out@[j] == wrap(old(out)@[j] - other@[j]),
            forall|j: int| i <= j < n ==> out@[j] == old(out)@[j],
        decreases n - i,
    {
        let v = out[i].wrapping_sub(other[i]);
        proof {
            lemma_wrapping_sub(out@[i as int], other@[i as int]);
        }
        out.set(i, v);
        i += 1;
    }
    assert(out@ =~= seq_sub(old(out)@, other@));
}

/// Multiply every coefficient by `c`, in place.
pub fn mul_const(out: &mut Vec<u64>, c: u64)
    ensures
        final(out)@ == seq_scale(old(out)@, c),
{
    let n = out.len();
    let mut i: usize = 0;
    while i < n
        invariant
            n == out.len(),
            i <= n,
            old(out).len() == n,
            forall|j: int| 0 <= j < i ==> out@[j] == wrap(old(out)@[j] * c),
            forall|j: int| i <= j < n ==> out@[j] == old(out)@[j],
        decreases n - i,
    {
        let v = out[i].wrapping_mul(c);
        proof {
            lemma_wrapping_mul(out@[i as int], c);
        }
        out.set(i, v);
        i += 1;
    }
    assert(out@ =~= seq_scale(old(out)@, c));
}


/// The coefficient of `src` that lands in coefficient `j` after a rotation
/// by `shift` positions in a ring of size `n`.
pub open spec fn rotate_source(n: int, shift: int, j: int) -> int {
    (j + n - shift % n) % n
}

/// Whether the coefficient `i` changes sign when multiplied by `± X^shift`:
/// it does when it wraps around `X^n = -1` an odd number of times, unless
/// the monomial is negated.
pub open spec fn rotate_flips(n: int, shift: int, i: int, negate: bool) -> bool {
    (((i + shift) / n) % 2 == 1) != negate
}

/// `src` multiplied by `X^shift` (or by `-X^shift` when `negate`) in
/// `Z_q[X]/(X^n + 1)`, `n = src.len()`.
pub open spec fn rotate(src: Seq<u64>, shift: int, negate: bool) -> Seq<u64> {
    Seq::new(
        src.len(),
        |j: int|
            {
                let i = rotate_source(src.len() as int, shift, j);
                if rotate_flips(src.len() as int, shift, i, negate) {
                    wrap(-src[i])
                } else {
                    src[i]
                }
            },
    )
}

/// The value that coefficient `i` of `s` takes once multiplied by `± X^shift`.
pub open spec fn rotated_coeff(s: Seq<u64>, n: int, shift: int, i: int, negate: bool) -> u64 {
    if rotate_flips(n, shift, i, negate) {
        wrap(-s[i])
    } else {
        s[i]
    }
}

/// The monomial `X^d` (or `-X^d` when `negate`) of size `n`.
pub open spec fn monomial(n: nat, d: int, negate: bool) -> Seq<u64> {
    Seq::new(
        n,
        |k: int|
            if k == d {
                if negate {
                    u64::MAX
                } else {
                    1u64
                }
            } else {
                0u64
            },
    )
}

proof fn lemma_rotate_index(n: int, shift: int, i: int)
    requires
        n > 0,
        shift >= 0,
        0 <= i < n,
    ensures
        0 <= (i + shift) % n < n,
        rotate_source(n, shift, (i + shift) % n) == i,
{
    let j = (i + shift) % n;
    lemma_mod_bound(i + shift, n);
    lemma_mod_bound(shift, n);
    lemma_fundamental_div_mod(i + shift, n);
    lemma_fundamental_div_mod(shift, n);
    let q = (i + shift) / n - shift / n;
    assert(j + n - shift % n == i + n - n * q) by {
        assert(j == i + shift - n * ((i + shift) / n));
        assert(shift % n == shift - n * (shift / n));
        vstd::arithmetic::mul::lemma_mul_is_distributive_sub(n, (i + shift) / n, shift / n);
    }
    assert(i + n - n * q == i + n * (1 - q)) by {
        vstd::arithmetic::mul::lemma_mul_is_distributive_sub(n, 1, q);
    }
    lemma_mod_multiples_vanish(1 - q, i, n);
    lemma_small_mod(i as nat, n as nat);
    vstd::arithmetic::mul::lemma_mul_is_commutative(n, 1 - q);
}

proof fn lemma_rotate_injective(n: int, shift: int, i1: int, i2: int)
    requires
        n > 0,
        shift >= 0,
        0 <= i1 < n,
        0 <= i2 < n,
        (i1 + shift) % n == (i2 + shift) % n,
    ensures
        i1 == i2,
{
    lemma_rotate_index(n, shift, i1);
    lemma_rotate_index(n, shift, i2);
}

/// Write into `dst[0..n]` the polynomial `src[0..n]` multiplied by
/// `X^shift`, or by `-X^shift` when `negate`, in `Z_q[X]/(X^n + 1)`.
pub fn rotate_poly(dst: &mut Vec<u64>, src: &[u64], shift: usize, negate: bool, n: usize)
    requires
        old(dst).len() >= n,
        src.len() >= n,
        n > 0,
        shift <= usize::MAX - n,
    ensures
        final(dst).len() == old(dst).len(),
        final(dst)@.take(n as int) == rotate(src@.take(n as int), shift as int, negate),
        final(dst)@.skip(n as int) == old(dst)@.skip(n as int),
{
    let ghost s = src@.take(n as int);
    let mut i: usize = 0;
    while i < n
        invariant
            i <= n,
            n > 0,
            shift <= usize::MAX - n,
            src.len() >= n,
            s == src@.take(n as int),
            dst.len() == old(dst).len(),
            dst.len() >= n,
            forall|i2: int|
                0 <= i2 < i ==> dst@[(i2 + shift) % (n as int)] == #[trigger] rotated_coeff(
                    s,
                    n as int,
                    shift as int,
                    i2,
                    negate,
                ),
            forall|k: int| n <= k < dst.len() ==> dst@[k] == old(dst)@[k],
        decreases n - i,
    {
        let j = (i + shift) % n;
        let crossed = ((i + shift) / n) % 2 == 1;
        let mut v = src[i];
        if crossed ^ negate {
            v = 0u64.wrapping_sub(v);
            proof {
                lemma_wrapping_sub(0, src@[i as int]);
            }
        }
        let ghost before = dst@;
        dst.set(j, v);
        proof {
            assert forall|i2: int| 0 <= i2 < i + 1 implies dst@[(i2 + shift) % (n as int)]
                == #[trigger] rotated_coeff(s, n as int, shift as int, i2, negate) by {
                lemma_mod_bound(i2 + shift, n as int);
                if i2 < i {
                    if (i2 + shift) % (n as int) == j as int {
                        lemma_rotate_injective(n as int, shift as int, i2, i as int);
                    }
                }
            }
        }
        i += 1;
    }
    proof {
        assert forall|j: int| 0 <= j < n implies dst@.take(n as int)[j] == rotate(
            s,
            shift as int,
            negate,
        )[j] by {
            let i2 = rotate_source(n as int, shift as int, j);
            lemma_mod_bound(j + n - (shift as int) % (n as int), n as int);
            lemma_mod_bound(shift as int, n as int);
            lemma_rotate_index(n as int, shift as int, i2);
            let j2 = (i2 + shift) % (n as int);
            // j2 and j share the same source, so they are equal
            assert(rotate_source(n as int, shift as int, j2) == i2);
            lemma_rotate_source_injective(n as int, shift as int, j, j2);
            assert(dst@[j2] == rotated_coeff(s, n as int, shift as int, i2, negate));
        }
        assert(dst@.take(n as int) =~= rotate(s, shift as int, negate));
        assert(dst@.skip(n as int) =~= old(dst)@.skip(n as int));
    }
}

proof fn lemma_rotate_source_injective(n: int, shift: int, j1: int, j2: int)
    requires
        n > 0,
        shift >= 0,
        0 <= j1 < n,
        0 <= j2 < n,
        rotate_source(n, shift, j1) == rotate_source(n, shift, j2),
    ensures
        j1 == j2,
{
    let c = n - shift % n;
    lemma_mod_bound(shift, n);
    assert(c > 0);
    // (j1 + c) % n == (j2 + c) % n with j1, j2 in [0, n) forces j1 == j2
    lemma_rotate_injective(n, c, j1, j2);
}


pub proof fn lemma_nega_partial_single(a: Seq<u64>, b: Seq<u64>, n: int, k: int, i0: int, m: int)
    requires
        0 <= m <= n,
        forall|i: int| 0 <= i < n && i != i0 ==> #[trigger] nega_term(a, b, n, i, k) == 0,
    ensures
        nega_partial(a, b, n, k, m) == if 0 <= i0 < m {
            nega_term(a, b, n, i0, k)
        } else {
            0
        },
    decreases m,
{
    if m > 0 {
        lemma_nega_partial_single(a, b, n, k, i0, m - 1);
    }
}

pub proof fn lemma_wrap_mul_max(x: int)
    ensures
        wrap(x * (u64::MAX as int)) == wrap(-x),
        wrap(-(x * (u64::MAX as int))) == wrap(x),
{
    assert(x * (u64::MAX as int) == word_modulus() * x + (-x)) by {
        vstd::arithmetic::mul::lemma_mul_is_distributive_sub(x, word_modulus(), 1);
        vstd::arithmetic::mul::lemma_mul_is_commutative(x, word_modulus());
    }
    lemma_mod_multiples_vanish(x, -x, word_modulus());
    assert(-(x * (u64::MAX as int)) == word_modulus() * (-x) + x) by {
        vstd::arithmetic::mul::lemma_mul_unary_negation(word_modulus(), x);
    }
    lemma_mod_multiples_vanish(-x, x, word_modulus());
}

/// Multiplying by a monomial `± X^s` is a rotation of the coefficients, with a
/// change of sign for those that wrap around `X^N = -1`.
pub proof fn lemma_rotate_is_monomial_product(a: Seq<u64>, s: int, negate: bool)
    requires
        0 <= s < a.len(),
    ensures
        rotate(a, s, negate) == negacyclic(a, monomial(a.len(), s, negate)),
{
    let n = a.len() as int;
    let m = monomial(a.len(), s, negate);
    assert forall|k: int| 0 <= k < n implies #[trigger] rotate(a, s, negate)[k] == negacyclic(
        a,
        m,
    )[k] by {
        let i0 = if k >= s {
            k - s
        } else {
            k + n - s
        };
        assert forall|i: int| 0 <= i < n && i != i0 implies #[trigger] nega_term(
            a,
            m,
            n,
            i,
            k,
        ) == 0 by {
            assert(m[nega_partner(n, i, k)] == 0);
        }
        lemma_nega_partial_single(a, m, n, k, i0, n);
        lemma_small_mod(s as nat, n as nat);
        if k >= s {
            lemma_fundamental_div_mod_converse(k + n - s, n, 1, k - s);
            lemma_fundamental_div_mod_converse(k, n, 0, k);
        } else {
            lemma_fundamental_div_mod_converse(k + n - s, n, 0, k + n - s);
            lemma_fundamental_div_mod_converse(k + n, n, 1, k);
        }
        assert(rotate_source(n, s, k) == i0);
        lemma_wrap_mul_max(a[i0] as int);
        lemma_wrap_small(a[i0] as int);
        if k >= s {
            assert(nega_term(a, m, n, i0, k) == a[i0] * m[s]);
        } else {
            assert(nega_term(a, m, n, i0, k) == -(a[i0] * m[s]));
        }
    }
    assert(rotate(a, s, negate) =~= negacyclic(a, m));
}


/// The contribution of `p[i]` to coefficient `t` of `p(X^k)` in
/// `Z_q[X]/(X^n + 1)`: `X^(i k) = X^e` with `e = i k mod 2n`, and `X^e = -X^(e - n)`
/// when `e >= n`.
pub open spec fn eval_term(p: Seq<u64>, n: int, k: int, i: int, t: int) -> int {
    let e = (i * k) % (2 * n);
    if e < n {
        if e == t {
            p[i] as int
        } else {
            0
        }
    } else {
        if e - n == t {
            -p[i]
        } else {
            0
        }
    }
}

/// The sum of the contributions of `p[0..m]` to coefficient `t` of `p(X^k)`.
pub open spec fn eval_partial(p: Seq<u64>, n: int, k: int, t: int, m: int) -> int
    decreases m,
{
    if m <= 0 {
        0
    } else {
        eval_partial(p, n, k, t, m - 1) + eval_term(p, n, k, m - 1, t)
    }
}

/// The polynomial `p(X^k)` in `Z_q[X]/(X^n + 1)`, `n = p.len()`.
pub open spec fn eval_x_k_spec(p: Seq<u64>, k: int) -> Seq<u64> {
    Seq::new(p.len(), |t: int| wrap(eval_partial(p, p.len() as int, k, t, p.len() as int)))
}

/// Compute `p(X^k)` in `Z_q[X]/(X^N + 1)` where `N = p.len()`.
pub fn eval_x_k(p: &[u64], k: usize) -> (out: Vec<u64>)
    requires
        p.len() <= usize::MAX / 2,
    ensures
        out@ == eval_x_k_spec(p@, k as int),
{
    let n = p.len();
    let mut out: Vec<u64> = Vec::new();
    let mut z: usize = 0;
    while z < n
        invariant
            z <= n,
            out.len() == z,
            forall|t: int| 0 <= t < z ==> out@[t] == 0,
        decreases n - z,
    {
        out.push(0);
        z += 1;
    }
    let mut i: usize = 0;
    while i < n
        invariant
            i <= n,
            n == p.len(),
            n <= usize::MAX / 2,
            out.len() == n,
            forall|t: int|
                0 <= t < n ==> out@[t] == wrap(eval_partial(p@, n as int, k as int, t, i as int)),
        decreases n - i,
    {
        let two_n = 2 * n;
        proof {
            let ii = i as int;
            let kk = k as int;
            assert(ii * kk <= u128::MAX) by (nonlinear_arith)
                requires
                    0 <= ii <= u64::MAX,
                    0 <= kk <= u64::MAX,
            ;
        }
        let e = ((i as u128) * (k as u128) % (two_n as u128)) as usize;
        proof {
            lemma_mod_bound(i * k, 2 * n as int);
        }
        let ghost before = out@;
        if e < n {
            let v = out[e].wrapping_add(p[i]);
            proof {
                lemma_wrapping_add(out@[e as int], p@[i as int]);
                lemma_wrap_add(eval_partial(p@, n as int, k as int, e as int, i as int), p@[i as int] as int);
            }
            out.set(e, v);
        } else {
            let v = out[e - n].wrapping_sub(p[i]);
            proof {
                lemma_wrapping_sub(out@[e - n], p@[i as int]);
                lemma_wrap_sub(eval_partial(p@, n as int, k as int, e - n, i as int), p@[i as int] as int);
            }
            out.set(e - n, v);
        }
        assert forall|t: int| 0 <= t < n implies out@[t] == wrap(
            eval_partial(p@, n as int, k as int, t, i + 1),
        ) by {
            assert(eval_partial(p@, n as int, k as int, t, i + 1) == eval_partial(
                p@,
                n as int,
                k as int,
                t,
                i as int,
            ) + eval_term(p@, n as int, k as int, i as int, t));
        }
        i += 1;
    }
    assert(out@ =~= eval_x_k_spec(p@, k as int));
    out
}

/// `floor(log2(n))`, and `0` for `n <= 1`.
pub open spec fn floor_log2(n: nat) -> nat
    decreases n,
{
    if n <= 1 {
        0
    } else {
        1 + floor_log2(n / 2)
    }
}

/// The base-2 logarithm of `n`, rounded down (`0` when `n <= 1`).
pub fn log2(n: usize) -> (r: usize)
    ensures
        r == floor_log2(n as nat),
        r < 64,
{
    proof {
        vstd::arithmetic::power2::lemma2_to64();
        lemma_floor_log2_small(n as nat, 64);
    }
    let mut r: usize = 0;
    let mut v = n;
    while v > 1
        invariant
            floor_log2(n as nat) == r + floor_log2(v as nat),
            floor_log2(n as nat) < 64,
        decreases v,
    {
        v = v / 2;
        r = r + 1;
    }
    r
}

pub proof fn lemma_floor_log2_small(n: nat, e: nat)
    requires
        n < vstd::arithmetic::power2::pow2(e),
    ensures
        floor_log2(n) < e || e == 0,
    decreases n,
{
    vstd::arithmetic::power2::lemma2_to64();
    if n > 1 && e > 0 {
        vstd::arithmetic::power2::lemma_pow2_unfold(e);
        lemma_floor_log2_small(n / 2, (e - 1) as nat);
    }
}

/// The logarithm of a power of two is its exponent.
pub proof fn lemma_floor_log2_pow2(e: nat)
    ensures
        floor_log2(vstd::arithmetic::power2::pow2(e)) == e,
    decreases e,
{
    vstd::arithmetic::power2::lemma_pow2_pos(e);
    if e > 0 {
        vstd::arithmetic::power2::lemma_pow2_unfold(e);
        lemma_floor_log2_pow2((e - 1) as nat);
        vstd::arithmetic::power2::lemma_pow2_pos((e - 1) as nat);
        assert(vstd::arithmetic::power2::pow2(e) / 2 == vstd::arithmetic::power2::pow2(
            (e - 1) as nat,
        ));
    } else {
        vstd::arithmetic::power2::lemma2_to64();
    }
}


/// `2^floor_log2(n)` is at most `n`.
pub proof fn lemma_pow2_floor_log2_le(n: nat)
    requires
        n >= 1,
    ensures
        vstd::arithmetic::power2::pow2(floor_log2(n)) <= n,
    decreases n,
{
    vstd::arithmetic::power2::lemma2_to64();
    if n > 1 {
        lemma_pow2_floor_log2_le(n / 2);
        vstd::arithmetic::power2::lemma_pow2_unfold(floor_log2(n));
    }
}

/// The power of two `2^e`, when it is at most `bound`.
pub fn pow2_usize(e: usize, bound: usize) -> (r: usize)
    requires
        vstd::arithmetic::power2::pow2(e as nat) <= bound,
    ensures
        r == vstd::arithmetic::power2::pow2(e as nat),
{
    let mut r: usize = 1;
    let mut i: usize = 0;
    proof {
        vstd::arithmetic::power2::lemma2_to64();
    }
    while i < e
        invariant
            i <= e,
            r == vstd::arithmetic::power2::pow2(i as nat),
            vstd::arithmetic::power2::pow2(e as nat) <= bound,
        decreases e - i,
    {
        proof {
            vstd::arithmetic::power2::lemma_pow2_unfold((i + 1) as nat);
            if i + 1 < e {
                vstd::arithmetic::power2::lemma_pow2_strictly_increases((i + 1) as nat, e as nat);
            }
        }
        r = r * 2;
        i += 1;
    }
    r
}

/// Adding a polynomial to zero gives it back.
pub proof fn lemma_seq_add_zero(p: Seq<u64>)
    ensures
        seq_add(zero_poly(p.len()), p) == p,
{
    assert forall|i: int| 0 <= i < p.len() implies seq_add(zero_poly(p.len()), p)[i] == p[i] by {
        lemma_wrap_small(p[i] as int);
    }
    assert(seq_add(zero_poly(p.len()), p) =~= p);
}


proof fn lemma_wrap_eq_mul(x: int, y: int, c: int)
    requires
        wrap(x) == wrap(y),
    ensures
        wrap(x * c) == wrap(y * c),
        wrap(-(x * c)) == wrap(-(y * c)),
{
    lemma_mul_mod_noop_left(x, c, word_modulus());
    lemma_mul_mod_noop_left(y, c, word_modulus());
    lemma_sub_mod_noop(0, x * c, word_modulus());
    lemma_sub_mod_noop(0, y * c, word_modulus());
}

proof fn lemma_wrap_add3(x: int, y: int, u: int, v: int)
    requires
        wrap(x) == wrap(y),
        wrap(u) == wrap(v),
    ensures
        wrap(x + u) == wrap(y + v),
{
    lemma_add_mod_noop(x, u, word_modulus());
    lemma_add_mod_noop(y, v, word_modulus());
}

proof fn lemma_nega_partial_add_left(
    a1: Seq<u64>,
    a2: Seq<u64>,
    b: Seq<u64>,
    n: int,
    k: int,
    m: int,
)
    requires
        a1.len() == n,
        a2.len() == n,
        b.len() == n,
        0 <= k < n,
        0 <= m <= n,
    ensures
        wrap(nega_partial(seq_add(a1, a2), b, n, k, m)) == wrap(
            nega_partial(a1, b, n, k, m) + nega_partial(a2, b, n, k, m),
        ),
    decreases m,
{
    if m > 0 {
        let i = m - 1;
        lemma_nega_partial_add_left(a1, a2, b, n, k, m - 1);
        let a = seq_add(a1, a2);
        let j = nega_partner(n, i, k);
        let bj = b[j] as int;
        assert(wrap(a[i] as int) == wrap(a1[i] + a2[i])) by {
            lemma_wrap_small(a[i] as int);
            lemma_mod_twice(a1[i] + a2[i], word_modulus());
        }
        lemma_wrap_eq_mul(a[i] as int, a1[i] + a2[i], bj);
        assert((a1[i] + a2[i]) * bj == a1[i] * bj + a2[i] * bj) by {
            vstd::arithmetic::mul::lemma_mul_is_distributive_add_other_way(bj, a1[i] as int, a2[i] as int);
        }
        let ta = nega_term(a, b, n, i, k);
        let t1 = nega_term(a1, b, n, i, k);
        let t2 = nega_term(a2, b, n, i, k);
        assert(wrap(ta) == wrap(t1 + t2));
        lemma_wrap_add3(
            nega_partial(a, b, n, k, m - 1),
            nega_partial(a1, b, n, k, m - 1) + nega_partial(a2, b, n, k, m - 1),
            ta,
            t1 + t2,
        );
    }
}

/// The negacyclic product distributes over the sum on its left.
pub proof fn lemma_negacyclic_add_left(a1: Seq<u64>, a2: Seq<u64>, b: Seq<u64>)
    requires
        a1.len() == a2.len(),
        a1.len() == b.len(),
    ensures
        negacyclic(seq_add(a1, a2), b) == seq_add(negacyclic(a1, b), negacyclic(a2, b)),
{
    let n = a1.len() as int;
    assert forall|k: int| 0 <= k < n implies #[trigger] negacyclic(seq_add(a1, a2), b)[k]
        == seq_add(negacyclic(a1, b), negacyclic(a2, b))[k] by {
        lemma_nega_partial_add_left(a1, a2, b, n, k, n);
        lemma_mod_twice(nega_partial(a1, b, n, k, n), word_modulus());
        lemma_mod_twice(nega_partial(a2, b, n, k, n), word_modulus());
        lemma_wrap_add3(
            nega_partial(a1, b, n, k, n),
            wrap(nega_partial(a1, b, n, k, n)) as int,
            nega_partial(a2, b, n, k, n),
            wrap(nega_partial(a2, b, n, k, n)) as int,
        );
    }
    assert(negacyclic(seq_add(a1, a2), b) =~= seq_add(negacyclic(a1, b), negacyclic(a2, b)));
}

} // verus!
