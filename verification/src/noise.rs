//! Bounds on the noise that key switching adds, and the decryption of a key
//! switched ciphertext.
//!
//! A word is read as a signed integer in `[-2^63, 2^63)`; the products of
//! small signed polynomials with polynomials of coefficients in `{0, 1, -1}`
//! stay small, and the rounding of the decryption removes a noise below half
//! the plaintext scaling factor.
use vstd::arithmetic::power2::pow2;
use vstd::prelude::*;

use crate::backend::{
    binary_noise, closest_representable_spec, digit_in_range, signed_decomposition, ternary_noise,
    valid_decomposition,
};
use crate::codec::{decode_spec, delta_of, encode_spec, poly_decode_spec, poly_encode_spec};
use crate::keyswitch::{ks_noise_acc, ks_phase, ksk_encrypts, ksk_error, lemma_ksk_errors_binary};
use crate::lwe::{conv_digit, conv_dot, conv_noise, conv_noise_one, conv_phase, conv_row_error, dot, lwe_phase};
use crate::rgsw::{ext_noise_acc, ext_prod_phase, lemma_row_in_bounds, paired_row, row_error, RGSWCiphertext};
use crate::poly::{
    eval_x_k_spec, monomial, nega_partial, negacyclic, rotate, rotate_flips, rotate_source, seq_sub, word_modulus,
    wrap,
};
use crate::rgsw::{digit_poly, rounded_poly};
use crate::ring::{
    lemma_cong_add, lemma_cong_sub, lemma_eval_x_k_phase, lemma_lin_right, lemma_mod_sub, lemma_negacyclic_lin,
};
use crate::rlwe::{phase, signed_abs, RLWECiphertext};

verus! {

/// A word read as a signed integer in `[-2^63, 2^63)`.
pub open spec fn signed(x: u64) -> int {
    if x < 0x8000_0000_0000_0000 {
        x as int
    } else {
        x - word_modulus()
    }
}

/// The first `m` terms of coefficient `k` of `a * b` in `Z[X]/(X^n + 1)`,
/// the coefficients read as signed words.
pub open spec fn signed_nega_partial(a: Seq<u64>, b: Seq<u64>, n: int, k: int, m: int) -> int
    decreases m,
{
    if m <= 0 {
        0
    } else {
        let i = m - 1;
        signed_nega_partial(a, b, n, k, m - 1) + (if i <= k {
            signed(a[i]) * signed(b[k - i])
        } else {
            -(signed(a[i]) * signed(b[k + n - i]))
        })
    }
}

/// The noise `sum_{t < m} D_t * E_t` of key switching, coefficient `k`,
/// with the digits read as signed words.
pub open spec fn ks_noise_signed(
    ksks: Seq<RLWECiphertext>,
    base_log: usize,
    level_count: usize,
    d: Seq<u64>,
    sa: Seq<u64>,
    sb: Seq<u64>,
    m: int,
    k: int,
) -> int
    decreases m,
{
    if m <= 0 {
        0
    } else {
        ks_noise_signed(ksks, base_log, level_count, d, sa, sb, m - 1, k) + signed_nega_partial(
            digit_poly(base_log, level_count, d, m - 1),
            ksk_error(ksks, base_log, level_count - m, sa, sb),
            d.len() as int,
            k,
            d.len() as int,
        )
    }
}

/// A word is congruent to its signed reading.
pub proof fn lemma_signed_mod(x: u64)
    ensures
        (x as int) % word_modulus() == signed(x) % word_modulus(),
        -0x8000_0000_0000_0000 <= signed(x) < 0x8000_0000_0000_0000,
{
    if x >= 0x8000_0000_0000_0000 {
        vstd::arithmetic::div_mod::lemma_mod_sub_multiples_vanish(x as int, word_modulus());
    }
}

/// Wrapping an integer of the signed range and reading it back as a signed
/// word gives the integer.
pub proof fn lemma_signed_wrap(v: int)
    requires
        -0x8000_0000_0000_0000 <= v < 0x8000_0000_0000_0000,
    ensures
        signed(wrap(v)) == v,
{
    let w = word_modulus();
    if v >= 0 {
        vstd::arithmetic::div_mod::lemma_small_mod(v as nat, w as nat);
    } else {
        vstd::arithmetic::div_mod::lemma_fundamental_div_mod_converse(v, w, -1, v + w);
    }
}

/// The signed magnitude of a word bounds its signed reading.
pub proof fn lemma_signed_abs(x: u64)
    ensures
        -(signed_abs(x) as int) <= signed(x) <= signed_abs(x),
{
    if x >= 0x8000_0000_0000_0000 {
        vstd::arithmetic::div_mod::lemma_fundamental_div_mod_converse(-x, word_modulus(), -1, word_modulus() - x);
    }
}

/// Congruent factors give congruent products.
proof fn lemma_cong_mul2(x: int, xs: int, y: int, ys: int)
    requires
        x % word_modulus() == xs % word_modulus(),
        y % word_modulus() == ys % word_modulus(),
    ensures
        (x * y) % word_modulus() == (xs * ys) % word_modulus(),
{
    let w = word_modulus();
    vstd::arithmetic::div_mod::lemma_mul_mod_noop_left(x, y, w);
    vstd::arithmetic::div_mod::lemma_mul_mod_noop_left(xs, y, w);
    vstd::arithmetic::div_mod::lemma_mul_mod_noop_right(xs, y, w);
    vstd::arithmetic::div_mod::lemma_mul_mod_noop_right(xs, ys, w);
}

/// A signed polynomial bounded by `bound` times a ternary one: coefficient
/// `k` is congruent to the signed sum, of magnitude at most `m * bound`.
proof fn lemma_signed_nega_partial(a: Seq<u64>, b: Seq<u64>, n: int, k: int, m: int, bound: int)
    requires
        a.len() == n,
        b.len() == n,
        0 <= k < n,
        0 <= m <= n,
        bound >= 0,
        forall|i: int| 0 <= i < n ==> -bound <= #[trigger] signed(a[i]) <= bound,
        forall|j: int| 0 <= j < n ==> -1 <= #[trigger] signed(b[j]) <= 1,
    ensures
        nega_partial(a, b, n, k, m) % word_modulus() == signed_nega_partial(a, b, n, k, m) % word_modulus(),
        -(m * bound) <= signed_nega_partial(a, b, n, k, m) <= m * bound,
    decreases m,
{
    if m > 0 {
        lemma_signed_nega_partial(a, b, n, k, m - 1, bound);
        let i = m - 1;
        let j = if i <= k {
            k - i
        } else {
            k + n - i
        };
        assert(-1 <= signed(b[j]) <= 1);
        lemma_signed_mod(a[i]);
        lemma_signed_mod(b[j]);
        let ai = a[i] as int;
        let bj = b[j] as int;
        let sa = signed(a[i]);
        let sb = signed(b[j]);
        lemma_cong_mul2(ai, sa, bj, sb);
        let u = if i <= k {
            a[i] * b[k - i]
        } else {
            -(a[i] * b[k + n - i])
        };
        let v = if i <= k {
            signed(a[i]) * signed(b[k - i])
        } else {
            -(signed(a[i]) * signed(b[k + n - i]))
        };
        if i <= k {
            assert(u == ai * bj && v == sa * sb);
        } else {
            assert(u == -(ai * bj) && v == -(sa * sb));
            lemma_cong_sub(0, 0, ai * bj, sa * sb);
        }
        assert(u % word_modulus() == v % word_modulus());
        lemma_cong_add(nega_partial(a, b, n, k, m - 1), signed_nega_partial(a, b, n, k, m - 1), u, v);
        assert(-bound <= sa * sb <= bound) by (nonlinear_arith)
            requires
                -bound <= sa <= bound,
                -1 <= sb <= 1,
        ;
        assert(m * bound == (m - 1) * bound + bound) by (nonlinear_arith);
    }
}

/// The coefficients of a signed polynomial bounded by `bound` times a
/// ternary one are congruent to signed sums of magnitude at most `n * bound`.
pub proof fn lemma_nega_small(a: Seq<u64>, b: Seq<u64>, bound: int)
    requires
        a.len() == b.len(),
        bound >= 0,
        forall|i: int| 0 <= i < a.len() ==> -bound <= #[trigger] signed(a[i]) <= bound,
        forall|j: int| 0 <= j < b.len() ==> -1 <= #[trigger] signed(b[j]) <= 1,
    ensures
        forall|k: int|
            0 <= k < a.len() ==> (#[trigger] negacyclic(a, b)[k] as int) % word_modulus() == signed_nega_partial(
                a,
                b,
                a.len() as int,
                k,
                a.len() as int,
            ) % word_modulus() && -(a.len() * bound) <= signed_nega_partial(a, b, a.len() as int, k, a.len() as int)
                <= a.len() * bound,
{
    let n = a.len() as int;
    assert forall|k: int| 0 <= k < n implies (#[trigger] negacyclic(a, b)[k] as int) % word_modulus()
        == signed_nega_partial(a, b, n, k, n) % word_modulus() && -(n * bound) <= signed_nega_partial(a, b, n, k, n)
        <= n * bound by {
        lemma_signed_nega_partial(a, b, n, k, n, bound);
        let np = nega_partial(a, b, n, k, n);
        vstd::arithmetic::div_mod::lemma_mod_twice(np, word_modulus());
        vstd::arithmetic::div_mod::lemma_mod_bound(np, word_modulus());
        assert(negacyclic(a, b)[k] == wrap(np));
        assert(negacyclic(a, b)[k] as int == np % word_modulus());
    }
}

/// Half of the base of a decomposition with at most 62 bits per digit is
/// below `2^61`.
proof fn lemma_half_base(base_log: usize)
    requires
        1 <= base_log <= 62,
    ensures
        1 <= pow2((base_log - 1) as nat) <= 0x2000_0000_0000_0000,
{
    vstd::arithmetic::power2::lemma_pow2_pos((base_log - 1) as nat);
    if base_log < 62 {
        vstd::arithmetic::power2::lemma_pow2_strictly_increases((base_log - 1) as nat, 61);
    }
    vstd::arithmetic::power2::lemma2_to64();
    vstd::arithmetic::power2::lemma2_to64_rest();
}

/// The noise of key switching is congruent to its signed reading, of
/// magnitude at most `m * n * 2^(base_log - 1)` after `m` terms, when the
/// digits are balanced and the key's errors binary.
pub proof fn lemma_ks_noise_small(
    ksks: Seq<RLWECiphertext>,
    base_log: usize,
    level_count: usize,
    d: Seq<u64>,
    sa: Seq<u64>,
    sb: Seq<u64>,
    m: int,
)
    requires
        valid_decomposition(base_log, level_count),
        0 <= m <= level_count,
        ksks.len() == level_count,
        d.len() == sa.len(),
        sb.len() == sa.len(),
        forall|j: int|
            0 <= j < ksks.len() ==> (#[trigger] ksks[j]).mask.len() == sa.len() && ksks[j].body.len() == sa.len(),
        forall|j: int, i: int|
            0 <= j < ksks.len() && 0 <= i < sa.len() ==> binary_noise(
                #[trigger] ksk_error(ksks, base_log, j, sa, sb)[i],
            ),
        forall|i: int, t: int|
            0 <= i < d.len() && 0 <= t < level_count ==> #[trigger] digit_in_range(
                base_log,
                signed_decomposition(base_log, level_count, d[i])[t],
            ),
    ensures
        forall|k: int|
            0 <= k < sa.len() ==> #[trigger] ks_noise_acc(ksks, base_log, level_count, d, sa, sb, m, k)
                % word_modulus() == ks_noise_signed(ksks, base_log, level_count, d, sa, sb, m, k) % word_modulus()
                && -(m * (sa.len() * pow2((base_log - 1) as nat))) <= ks_noise_signed(
                ksks,
                base_log,
                level_count,
                d,
                sa,
                sb,
                m,
                k,
            ) <= m * (sa.len() * pow2((base_log - 1) as nat)),
    decreases m,
{
    let n = sa.len() as int;
    let half = pow2((base_log - 1) as nat) as int;
    let w = word_modulus();
    assert(base_log <= 62) by (nonlinear_arith)
        requires
            base_log * level_count < 63,
            level_count >= 1,
    ;
    lemma_half_base(base_log);
    if m > 0 {
        lemma_ks_noise_small(ksks, base_log, level_count, d, sa, sb, m - 1);
        let t = m - 1;
        let j = level_count - m;
        let dt = digit_poly(base_log, level_count, d, t);
        let e = ksk_error(ksks, base_log, j, sa, sb);
        assert forall|i: int| 0 <= i < n implies -half <= #[trigger] signed(dt[i]) <= half by {
            assert(digit_in_range(base_log, signed_decomposition(base_log, level_count, d[i])[t]));
        }
        assert forall|i: int| 0 <= i < n implies -1 <= #[trigger] signed(e[i]) <= 1 by {
            assert(binary_noise(ksk_error(ksks, base_log, j, sa, sb)[i]));
        }
        lemma_nega_small(dt, e, half);
        assert forall|k: int| 0 <= k < n implies #[trigger] ks_noise_acc(
            ksks,
            base_log,
            level_count,
            d,
            sa,
            sb,
            m,
            k,
        ) % w == ks_noise_signed(ksks, base_log, level_count, d, sa, sb, m, k) % w && -(m * (n * half))
            <= ks_noise_signed(ksks, base_log, level_count, d, sa, sb, m, k) <= m * (n * half) by {
            lemma_cong_add(
                ks_noise_acc(ksks, base_log, level_count, d, sa, sb, m - 1, k),
                ks_noise_signed(ksks, base_log, level_count, d, sa, sb, m - 1, k),
                negacyclic(dt, e)[k] as int,
                signed_nega_partial(dt, e, n, k, n),
            );
            assert(m * (n * half) == (m - 1) * (n * half) + n * half) by (nonlinear_arith);
        }
    }
}

/// A word minus its closest representable value is a signed word of
/// magnitude at most half the rounding step `2^(64 - base_log * level_count)`.
#[verifier::spinoff_prover]
pub proof fn lemma_round_small(base_log: usize, level_count: usize, x: u64)
    requires
        valid_decomposition(base_log, level_count),
    ensures
        -(pow2((64 - base_log * level_count) as nat) / 2) <= signed(
            wrap(x - closest_representable_spec(base_log, level_count, x)),
        ) <= pow2((64 - base_log * level_count) as nat) / 2,
{
    let e = (64 - base_log * level_count) as nat;
    let d = pow2(e) as int;
    let w = word_modulus();
    vstd::arithmetic::power2::lemma_pow2_pos(e);
    if e < 63 {
        vstd::arithmetic::power2::lemma_pow2_strictly_increases(e, 63);
    }
    vstd::arithmetic::power2::lemma2_to64();
    vstd::arithmetic::power2::lemma2_to64_rest();
    let q = (x + d / 2) / d;
    let r = (x + d / 2) % d;
    vstd::arithmetic::div_mod::lemma_fundamental_div_mod(x + d / 2, d);
    vstd::arithmetic::div_mod::lemma_mod_bound(x + d / 2, d);
    let y = closest_representable_spec(base_log, level_count, x);
    assert(y as int == (q * d) % w);
    // x - y is congruent to x - q * d, which lies in [-d/2, d/2)
    assert(x - q * d == r - d / 2) by (nonlinear_arith)
        requires
            x + d / 2 == d * q + r,
    ;
    vstd::arithmetic::div_mod::lemma_mod_twice(q * d, w);
    lemma_cong_sub(x as int, x as int, y as int, q * d);
    lemma_mod_sub(x as int, y as int);
    lemma_signed_wrap(x - q * d);
    assert(wrap(x - y) == wrap(x - q * d));
}

/// Decoding removes a signed noise of magnitude below half the scaling
/// factor.
pub proof fn lemma_decode_signed(bits: nat, m: u64, e: int)
    requires
        1 <= bits <= 62,
        m < pow2(bits),
        -(delta_of(bits) / 2) < e < delta_of(bits) / 2,
    ensures
        decode_spec(bits, wrap(encode_spec(bits, m) + e)) == m,
{
    crate::codec::lemma_delta_bounds(bits);
    let d = delta_of(bits) as int;
    let t = pow2(bits) as int;
    let w = word_modulus();
    assert(m * d <= (t - 1) * d) by (nonlinear_arith)
        requires
            m <= t - 1,
            d > 0,
    ;
    assert((t - 1) * d == t * d - d) by (nonlinear_arith);
    vstd::arithmetic::mul::lemma_mul_is_commutative(d, t);
    assert(0 <= m * d) by (nonlinear_arith)
        requires
            d > 0,
    ;
    vstd::arithmetic::div_mod::lemma_small_mod((m * d) as nat, w as nat);
    let v = m * d + e + d / 2;
    assert(0 < v < w);
    // wrap(wrap(m d + e) + d / 2) = m d + e + d / 2
    lemma_mod_sub(m * d + e, 0);
    lemma_cong_add(wrap(m * d + e) as int, m * d + e, d / 2, d / 2);
    lemma_mod_sub(wrap(m * d + e) + d / 2, 0);
    vstd::arithmetic::div_mod::lemma_small_mod(v as nat, w as nat);
    assert(wrap(wrap(encode_spec(bits, m) + e) + d / 2) as int == v);
    vstd::arithmetic::div_mod::lemma_fundamental_div_mod_converse(v, d, m as int, e + d / 2);
}


proof fn lemma_ks_decrypt_arith(
    ksp: int,
    body: int,
    rs: int,
    noise: int,
    ms: int,
    dms: int,
    e1: int,
    e2: int,
    po: int,
    enc: int,
    ek: int,
)
    requires
        ksp % word_modulus() == (body - rs - noise) % word_modulus(),
        ms % word_modulus() == (1 * rs + 1 * dms) % word_modulus(),
        dms % word_modulus() == e1 % word_modulus(),
        noise % word_modulus() == e2 % word_modulus(),
        po % word_modulus() == (body - ms) % word_modulus(),
        ek % word_modulus() == (po - enc) % word_modulus(),
    ensures
        ksp % word_modulus() == (enc + (ek + e1 - e2)) % word_modulus(),
{
    lemma_cong_sub(rs + dms, ms, dms, e1);
    lemma_cong_add(rs, ms - e1, noise, e2);
    lemma_cong_sub(body, body, rs + noise, ms - e1 + e2);
    assert(body - rs - noise == body - (rs + noise));
    assert(body - (ms - e1 + e2) == (body - ms) + (e1 - e2));
    lemma_cong_add(body - ms, po, e1 - e2, e1 - e2);
    lemma_cong_add(ek, po - enc, enc, enc);
    lemma_cong_add(po, ek + enc, e1 - e2, e1 - e2);
    assert(ek + enc + (e1 - e2) == enc + (ek + e1 - e2));
}

/// Key switching keeps the message: a ciphertext `(mask, body)` whose phase
/// under the key `sb` of coefficients in `{0, 1, -1}` is the encoding of `msg` up to a signed noise of
/// magnitude at most `e0`, switched by a key that encrypts `sb`'s gadget
/// multiples under `sa` with binary noise and with balanced digits, has a
/// phase under `sa` that decodes to `msg`, as long as `e0`, the rounding
/// noise `n * 2^(64 - base_log * level_count) / 2` and the switching noise
/// `level_count * n * 2^(base_log - 1)` stay below half the scaling factor.
#[verifier::spinoff_prover]
pub proof fn lemma_keyswitch_decrypts(
    ksks: Seq<RLWECiphertext>,
    base_log: usize,
    level_count: usize,
    mask: Seq<u64>,
    body: Seq<u64>,
    sa: Seq<u64>,
    sb: Seq<u64>,
    bits: nat,
    msg: Seq<u64>,
    e0: int,
)
    requires
        valid_decomposition(base_log, level_count),
        ksks.len() == level_count,
        sa.len() > 0,
        mask.len() == sa.len(),
        body.len() == sa.len(),
        sb.len() == sa.len(),
        msg.len() == sa.len(),
        forall|j: int|
            0 <= j < ksks.len() ==> (#[trigger] ksks[j]).mask.len() == sa.len() && ksks[j].body.len() == sa.len(),
        ksk_encrypts(sb, sa, ksks, base_log),
        forall|j: int| 0 <= j < sb.len() ==> #[trigger] ternary_noise(sb[j]),
        forall|i: int, t: int|
            0 <= i < sa.len() && 0 <= t < level_count ==> #[trigger] digit_in_range(
                base_log,
                signed_decomposition(base_log, level_count, rounded_poly(base_log, level_count, mask)[i])[t],
            ),
        1 <= bits <= 62,
        forall|k: int| 0 <= k < sa.len() ==> #[trigger] msg[k] < pow2(bits),
        forall|k: int|
            0 <= k < sa.len() ==> signed_abs(
                #[trigger] wrap(phase(sb, mask, body)[k] - encode_spec(bits, msg[k])),
            ) <= e0,
        e0 + sa.len() * (pow2((64 - base_log * level_count) as nat) / 2) + level_count * (sa.len() * pow2(
            (base_log - 1) as nat,
        )) < delta_of(bits) / 2,
    ensures
        poly_decode_spec(bits, ks_phase(ksks, base_log, level_count, mask, body, sa, sb)) == msg,
{
    let n = sa.len() as int;
    let w = word_modulus();
    let h = (pow2((64 - base_log * level_count) as nat) / 2) as int;
    let half = pow2((base_log - 1) as nat) as int;
    let lc = level_count as int;
    lemma_ksk_errors_binary(ksks, base_log, sa, sb);
    let r = rounded_poly(base_log, level_count, mask);
    lemma_ks_noise_small(ksks, base_log, level_count, r, sa, sb, lc);
    let dm = seq_sub(mask, r);
    assert forall|i: int| 0 <= i < n implies -h <= #[trigger] signed(dm[i]) <= h by {
        lemma_round_small(base_log, level_count, mask[i]);
    }
    assert forall|j: int| 0 <= j < n implies -1 <= #[trigger] signed(sb[j]) <= 1 by {
        assert(ternary_noise(sb[j]));
    }
    vstd::arithmetic::power2::lemma_pow2_pos((64 - base_log * level_count) as nat);
    lemma_nega_small(dm, sb, h);
    assert forall|i: int| 0 <= i < n implies #[trigger] (mask[i] as int) % w == (1 * r[i] + 1 * dm[i]) % w by {
        lemma_mod_sub(mask[i] as int, r[i] as int);
        lemma_cong_add(r[i] as int, r[i] as int, dm[i] as int, mask[i] - r[i]);
        vstd::arithmetic::div_mod::lemma_small_mod(mask[i] as nat, w as nat);
    }
    lemma_negacyclic_lin(mask, r, dm, sb, 1, 1);
    let ksp = ks_phase(ksks, base_log, level_count, mask, body, sa, sb);
    assert forall|k: int| 0 <= k < n implies #[trigger] decode_spec(bits, ksp[k]) == msg[k] by {
        let po = phase(sb, mask, body)[k];
        let enc = encode_spec(bits, msg[k]);
        let x = wrap(po - enc);
        let ek = signed(x);
        lemma_signed_abs(x);
        lemma_signed_mod(x);
        lemma_mod_sub(po as int, enc as int);
        let e1 = signed_nega_partial(dm, sb, n, k, n);
        let noise = ks_noise_acc(ksks, base_log, level_count, r, sa, sb, lc, k);
        let e2 = ks_noise_signed(ksks, base_log, level_count, r, sa, sb, lc, k);
        let rs = negacyclic(r, sb)[k] as int;
        let ms = negacyclic(mask, sb)[k] as int;
        lemma_mod_sub(body[k] - rs - noise, 0);
        lemma_mod_sub(body[k] as int, ms);
        lemma_ks_decrypt_arith(
            ksp[k] as int,
            body[k] as int,
            rs,
            noise,
            ms,
            negacyclic(dm, sb)[k] as int,
            e1,
            e2,
            po as int,
            enc as int,
            ek,
        );
        let ee = ek + e1 - e2;
        assert(-(delta_of(bits) / 2) < ee < delta_of(bits) / 2);
        lemma_mod_sub(enc + ee, 0);
        vstd::arithmetic::div_mod::lemma_small_mod(ksp[k] as nat, w as nat);
        vstd::arithmetic::div_mod::lemma_small_mod(wrap(enc + ee) as nat, w as nat);
        assert(ksp[k] == wrap(enc + ee));
        lemma_decode_signed(bits, msg[k], ee);
    }
    assert(poly_decode_spec(bits, ksp) =~= msg);
}


/// The substitution `X -> X^k` keeps the message: for `k` odd, a ciphertext
/// `(mask, body)` under `s` whose substituted phase `phase(s)(X^k)` is the
/// encoding of `msg` up to a signed noise of magnitude at most `e0`, once
/// substituted and key switched by a key that encrypts the gadget multiples
/// of `s(X^k)` under `s` with binary noise, has a phase under `s` that
/// decodes to `msg`, within the same noise budget as key switching.
#[verifier::spinoff_prover]
pub proof fn lemma_subs_decrypts(
    ksks: Seq<RLWECiphertext>,
    base_log: usize,
    level_count: usize,
    k: int,
    mask: Seq<u64>,
    body: Seq<u64>,
    s: Seq<u64>,
    bits: nat,
    msg: Seq<u64>,
    e0: int,
)
    requires
        valid_decomposition(base_log, level_count),
        k % 2 == 1,
        ksks.len() == level_count,
        s.len() > 0,
        mask.len() == s.len(),
        body.len() == s.len(),
        msg.len() == s.len(),
        forall|j: int|
            0 <= j < ksks.len() ==> (#[trigger] ksks[j]).mask.len() == s.len() && ksks[j].body.len() == s.len(),
        ksk_encrypts(eval_x_k_spec(s, k), s, ksks, base_log),
        forall|j: int| 0 <= j < s.len() ==> #[trigger] ternary_noise(eval_x_k_spec(s, k)[j]),
        forall|i: int, t: int|
            0 <= i < s.len() && 0 <= t < level_count ==> #[trigger] digit_in_range(
                base_log,
                signed_decomposition(
                    base_log,
                    level_count,
                    rounded_poly(base_log, level_count, eval_x_k_spec(mask, k))[i],
                )[t],
            ),
        1 <= bits <= 62,
        forall|t: int| 0 <= t < s.len() ==> #[trigger] msg[t] < pow2(bits),
        forall|t: int|
            0 <= t < s.len() ==> signed_abs(
                #[trigger] wrap(eval_x_k_spec(phase(s, mask, body), k)[t] - encode_spec(bits, msg[t])),
            ) <= e0,
        e0 + s.len() * (pow2((64 - base_log * level_count) as nat) / 2) + level_count * (s.len() * pow2(
            (base_log - 1) as nat,
        )) < delta_of(bits) / 2,
    ensures
        poly_decode_spec(
            bits,
            ks_phase(
                ksks,
                base_log,
                level_count,
                eval_x_k_spec(mask, k),
                eval_x_k_spec(body, k),
                s,
                eval_x_k_spec(s, k),
            ),
        ) == msg,
{
    lemma_eval_x_k_phase(s, mask, body, k);
    let ek = eval_x_k_spec(phase(s, mask, body), k);
    assert(phase(eval_x_k_spec(s, k), eval_x_k_spec(mask, k), eval_x_k_spec(body, k)) == ek);
    lemma_keyswitch_decrypts(
        ksks,
        base_log,
        level_count,
        eval_x_k_spec(mask, k),
        eval_x_k_spec(body, k),
        s,
        eval_x_k_spec(s, k),
        bits,
        msg,
        e0,
    );
}


/// `sum_{i < m} key[i] * (mask[i] - R(mask[i]))`, each difference read as a
/// signed word: the rounding error of the conversion of an LWE ciphertext.
pub open spec fn conv_round_error(mask: Seq<u64>, key: Seq<u64>, base_log: usize, level_count: usize, m: int) -> int
    decreases m,
{
    if m <= 0 {
        0
    } else {
        conv_round_error(mask, key, base_log, level_count, m - 1) + key[m - 1] * signed(
            wrap(mask[m - 1] - closest_representable_spec(base_log, level_count, mask[m - 1])),
        )
    }
}

/// The noise of the conversion of one mask word at coefficient `k`, the
/// digits read as signed words.
pub open spec fn conv_noise_one_signed(
    ksk: RGSWCiphertext,
    key: Seq<u64>,
    base_log: usize,
    level_count: usize,
    a: u64,
    msg: u64,
    tt: int,
    k: int,
) -> int
    decreases tt,
{
    if tt <= 0 {
        0
    } else {
        conv_noise_one_signed(ksk, key, base_log, level_count, a, msg, tt - 1, k) + signed(
            conv_digit(base_log, level_count, a, tt - 1),
        ) * conv_row_error(ksk, key, base_log, level_count, msg, tt - 1)[k]
    }
}

/// The noise of the conversion of the first `m` mask words at coefficient
/// `k`, the digits read as signed words.
pub open spec fn conv_noise_signed(
    ksks: Seq<RGSWCiphertext>,
    mask: Seq<u64>,
    key: Seq<u64>,
    base_log: usize,
    level_count: usize,
    m: int,
    k: int,
) -> int
    decreases m,
{
    if m <= 0 {
        0
    } else {
        conv_noise_signed(ksks, mask, key, base_log, level_count, m - 1, k) + conv_noise_one_signed(
            ksks[m - 1],
            key,
            base_log,
            level_count,
            mask[m - 1],
            key[m - 1],
            level_count as int,
            k,
        )
    }
}

/// The rounded inner product of the conversion is the inner product minus
/// the rounding error, modulo `2^64`, and the rounding error is small.
proof fn lemma_conv_dot(mask: Seq<u64>, key: Seq<u64>, base_log: usize, level_count: usize, m: int)
    requires
        valid_decomposition(base_log, level_count),
        0 <= m <= key.len(),
        key.len() <= mask.len(),
        forall|i: int| 0 <= i < key.len() ==> #[trigger] key[i] <= 1,
    ensures
        conv_dot(mask, base_log, level_count, key, m) % word_modulus() == (dot(mask, key, m) - conv_round_error(
            mask,
            key,
            base_log,
            level_count,
            m,
        )) % word_modulus(),
        -(m * (pow2((64 - base_log * level_count) as nat) / 2)) <= conv_round_error(
            mask,
            key,
            base_log,
            level_count,
            m,
        ) <= m * (pow2((64 - base_log * level_count) as nat) / 2),
    decreases m,
{
    if m > 0 {
        lemma_conv_dot(mask, key, base_log, level_count, m - 1);
        let i = m - 1;
        let h = pow2((64 - base_log * level_count) as nat) / 2;
        let x = mask[i];
        let c = closest_representable_spec(base_log, level_count, x);
        let r = signed(wrap(x - c));
        let s = key[i] as int;
        lemma_round_small(base_log, level_count, x);
        lemma_signed_mod(wrap(x - c));
        lemma_mod_sub(x as int, c as int);
        // c = x - r modulo 2^64
        lemma_cong_sub(x as int, x as int, r, x - c);
        assert(x - (x - c) == c as int);
        crate::ring::lemma_cong_scale(s, c as int, x - r);
        assert(s * (x - r) == x * s - s * r) by (nonlinear_arith);
        let dp = dot(mask, key, m - 1);
        let cp = conv_dot(mask, base_log, level_count, key, m - 1);
        let rp = conv_round_error(mask, key, base_log, level_count, m - 1);
        lemma_cong_add(cp, dp - rp, s * c, x * s - s * r);
        assert(dp - rp + (x * s - s * r) == dp + x * s - (rp + s * r));
        assert(-h <= s * r <= h) by (nonlinear_arith)
            requires
                0 <= s <= 1,
                -h <= r <= h,
        ;
        assert(m * h == (m - 1) * h + h) by (nonlinear_arith);
    }
}

/// The noise of the conversion of one word at coefficient `k` is
/// congruent to its signed reading, of magnitude at most `tt * 2^(base_log - 1)`.
proof fn lemma_conv_noise_one(
    ksk: RGSWCiphertext,
    key: Seq<u64>,
    base_log: usize,
    level_count: usize,
    a: u64,
    msg: u64,
    tt: int,
    k: int,
)
    requires
        1 <= base_log <= 62,
        0 <= tt <= level_count,
        forall|t: int|
            0 <= t < level_count ==> binary_noise(
                #[trigger] conv_row_error(ksk, key, base_log, level_count, msg, t)[k],
            ),
        forall|t: int| 0 <= t < level_count ==> #[trigger] digit_in_range(base_log, conv_digit(base_log, level_count, a, t)),
    ensures
        conv_noise_one(ksk, key, base_log, level_count, a, msg, tt, k) % word_modulus() == conv_noise_one_signed(
            ksk,
            key,
            base_log,
            level_count,
            a,
            msg,
            tt,
            k,
        ) % word_modulus(),
        -(tt * pow2((base_log - 1) as nat)) <= conv_noise_one_signed(ksk, key, base_log, level_count, a, msg, tt, k)
            <= tt * pow2((base_log - 1) as nat),
    decreases tt,
{
    if tt > 0 {
        lemma_conv_noise_one(ksk, key, base_log, level_count, a, msg, tt - 1, k);
        let t = tt - 1;
        let half = pow2((base_log - 1) as nat) as int;
        lemma_half_base(base_log);
        let d = conv_digit(base_log, level_count, a, t);
        let e = conv_row_error(ksk, key, base_log, level_count, msg, t)[k];
        assert(binary_noise(e));
        assert(digit_in_range(base_log, d));
        lemma_signed_mod(d);
        let sd = signed(d);
        assert(-half <= sd <= half);
        crate::ring::lemma_cong_scale(e as int, d as int, sd);
        assert(d * e == e * d && sd * e == e * sd) by (nonlinear_arith);
        lemma_cong_add(
            conv_noise_one(ksk, key, base_log, level_count, a, msg, t, k),
            conv_noise_one_signed(ksk, key, base_log, level_count, a, msg, t, k),
            d * e,
            sd * e,
        );
        assert(-half <= sd * e <= half) by (nonlinear_arith)
            requires
                -half <= sd <= half,
                0 <= e <= 1,
        ;
        assert(tt * half == (tt - 1) * half + half) by (nonlinear_arith);
    }
}

/// The noise of the conversion of the first `m` words at coefficient `k` is congruent to its signed reading, of magnitude at most
/// `m * level_count * 2^(base_log - 1)`.
proof fn lemma_conv_noise_small(
    ksks: Seq<RGSWCiphertext>,
    mask: Seq<u64>,
    key: Seq<u64>,
    base_log: usize,
    level_count: usize,
    m: int,
    k: int,
)
    requires
        valid_decomposition(base_log, level_count),
        0 <= m <= ksks.len(),
        m <= mask.len(),
        m <= key.len(),
        forall|i: int, t: int|
            0 <= i < m && 0 <= t < level_count ==> binary_noise(
                #[trigger] conv_row_error(ksks[i], key, base_log, level_count, key[i], t)[k],
            ),
        forall|i: int, t: int|
            0 <= i < m && 0 <= t < level_count ==> #[trigger] digit_in_range(
                base_log,
                conv_digit(base_log, level_count, mask[i], t),
            ),
    ensures
        conv_noise(ksks, mask, key, base_log, level_count, key, m, k) % word_modulus() == conv_noise_signed(
            ksks,
            mask,
            key,
            base_log,
            level_count,
            m,
            k,
        ) % word_modulus(),
        -(m * (level_count * pow2((base_log - 1) as nat))) <= conv_noise_signed(
            ksks,
            mask,
            key,
            base_log,
            level_count,
            m,
            k,
        ) <= m * (level_count * pow2((base_log - 1) as nat)),
    decreases m,
{
    if m > 0 {
        lemma_conv_noise_small(ksks, mask, key, base_log, level_count, m - 1, k);
        let i = m - 1;
        assert(base_log <= 62) by (nonlinear_arith)
            requires
                base_log * level_count < 63,
                level_count >= 1,
        ;
        assert forall|t: int| 0 <= t < level_count implies binary_noise(
            #[trigger] conv_row_error(ksks[i], key, base_log, level_count, key[i], t)[k],
        ) by {}
        assert forall|t: int| 0 <= t < level_count implies #[trigger] digit_in_range(
            base_log,
            conv_digit(base_log, level_count, mask[i], t),
        ) by {}
        lemma_conv_noise_one(ksks[i], key, base_log, level_count, mask[i], key[i], level_count as int, k);
        lemma_cong_add(
            conv_noise(ksks, mask, key, base_log, level_count, key, m - 1, k),
            conv_noise_signed(ksks, mask, key, base_log, level_count, m - 1, k),
            conv_noise_one(ksks[i], key, base_log, level_count, mask[i], key[i], level_count as int, k),
            conv_noise_one_signed(ksks[i], key, base_log, level_count, mask[i], key[i], level_count as int, k),
        );
        let b = level_count * pow2((base_log - 1) as nat);
        assert(m * b == (m - 1) * b + b) by (nonlinear_arith);
    }
}

/// The conversion of an LWE ciphertext to RLWE under the binary key it was
/// made for: the constant coefficient of the phase of the result is the LWE
/// phase plus the rounding error, every coefficient loses the conversion
/// noise, and both errors are small: at most `n * 2^(64 - base_log *
/// level_count) / 2` and `n * level_count * 2^(base_log - 1)` in magnitude.
#[verifier::spinoff_prover]
pub proof fn lemma_conv_noise_form(
    ksks: Seq<RGSWCiphertext>,
    mask: Seq<u64>,
    lwe_body: u64,
    base_log: usize,
    level_count: usize,
    key: Seq<u64>,
)
    requires
        valid_decomposition(base_log, level_count),
        key.len() > 0,
        key.len() <= ksks.len(),
        key.len() <= mask.len(),
        forall|i: int| 0 <= i < key.len() ==> #[trigger] key[i] <= 1,
        forall|i: int, t: int, k: int|
            0 <= i < key.len() && 0 <= t < level_count && 0 <= k < key.len() ==> binary_noise(
                #[trigger] conv_row_error(ksks[i], key, base_log, level_count, key[i], t)[k],
            ),
        forall|i: int, t: int|
            0 <= i < key.len() && 0 <= t < level_count ==> #[trigger] digit_in_range(
                base_log,
                conv_digit(base_log, level_count, mask[i], t),
            ),
    ensures
        forall|k: int|
            0 <= k < key.len() ==> #[trigger] conv_phase(
                ksks,
                mask,
                lwe_body,
                base_log,
                level_count,
                key.len(),
                key.len() as int,
                key,
                key,
            )[k] == wrap(
                (if k == 0 {
                    lwe_phase(key, mask, lwe_body) + conv_round_error(mask, key, base_log, level_count, key.len() as int)
                } else {
                    0
                }) - conv_noise_signed(ksks, mask, key, base_log, level_count, key.len() as int, k),
            ),
        -(key.len() * (pow2((64 - base_log * level_count) as nat) / 2)) <= conv_round_error(
            mask,
            key,
            base_log,
            level_count,
            key.len() as int,
        ) <= key.len() * (pow2((64 - base_log * level_count) as nat) / 2),
        forall|k: int|
            0 <= k < key.len() ==> -(key.len() * (level_count * pow2((base_log - 1) as nat))) <= #[trigger] conv_noise_signed(
                ksks,
                mask,
                key,
                base_log,
                level_count,
                key.len() as int,
                k,
            ) <= key.len() * (level_count * pow2((base_log - 1) as nat)),
{
    let n = key.len() as int;
    let w = word_modulus();
    lemma_conv_dot(mask, key, base_log, level_count, n);
    let cd = conv_dot(mask, base_log, level_count, key, n);
    let dt = dot(mask, key, n);
    let re = conv_round_error(mask, key, base_log, level_count, n);
    let lp = lwe_phase(key, mask, lwe_body);
    lemma_mod_sub(lwe_body - dt, 0);
    assert forall|k: int| 0 <= k < n implies #[trigger] conv_phase(
        ksks,
        mask,
        lwe_body,
        base_log,
        level_count,
        key.len(),
        n,
        key,
        key,
    )[k] == wrap(
        (if k == 0 {
            lp + re
        } else {
            0
        }) - conv_noise_signed(ksks, mask, key, base_log, level_count, n, k),
    ) && -(n * (level_count * pow2((base_log - 1) as nat))) <= conv_noise_signed(
        ksks,
        mask,
        key,
        base_log,
        level_count,
        n,
        k,
    ) <= n * (level_count * pow2((base_log - 1) as nat)) by {
        assert forall|i: int, t: int| 0 <= i < n && 0 <= t < level_count implies binary_noise(
            #[trigger] conv_row_error(ksks[i], key, base_log, level_count, key[i], t)[k],
        ) by {}
        lemma_conv_noise_small(ksks, mask, key, base_log, level_count, n, k);
        let nz = conv_noise(ksks, mask, key, base_log, level_count, key, n, k);
        let ns = conv_noise_signed(ksks, mask, key, base_log, level_count, n, k);
        let ph = conv_phase(ksks, mask, lwe_body, base_log, level_count, key.len(), n, key, key)[k];
        if k == 0 {
            lemma_mod_sub(lwe_body - cd - nz, 0);
            lemma_cong_add(cd, dt - re, nz, ns);
            lemma_cong_sub(lwe_body as int, lwe_body as int, cd + nz, dt - re + ns);
            assert(lwe_body - (dt - re + ns) == (lwe_body - dt) + (re - ns));
            lemma_cong_add(lwe_body - dt, lp as int, re - ns, re - ns);
            assert(lwe_body - cd - nz == lwe_body - (cd + nz));
            assert(lp + (re - ns) == lp + re - ns);
            lemma_mod_sub(lp + re - ns, 0);
        } else {
            lemma_mod_sub(0 - nz, 0);
            lemma_cong_sub(0, 0, nz, ns);
            lemma_mod_sub(0 - ns, 0);
        }
        vstd::arithmetic::div_mod::lemma_small_mod(ph as nat, w as nat);
        vstd::arithmetic::div_mod::lemma_small_mod(
            wrap(
                (if k == 0 {
                    lp + re
                } else {
                    0
                }) - ns,
            ) as nat,
            w as nat,
        );
    }
    assert forall|k: int| 0 <= k < n implies -(n * (level_count * pow2((base_log - 1) as nat))) <= #[trigger] conv_noise_signed(
        ksks,
        mask,
        key,
        base_log,
        level_count,
        n,
        k,
    ) <= n * (level_count * pow2((base_log - 1) as nat)) by {
        let ph = conv_phase(ksks, mask, lwe_body, base_log, level_count, key.len(), n, key, key)[k];
    }
}

/// The conversion of an LWE ciphertext to RLWE keeps the message: when the
/// LWE phase under the binary key is the encoding of `m` up to a signed
/// noise of magnitude at most `e0`, and the conversion key holds RGSW
/// encryptions of the key's coefficients whose rows have binary errors, the
/// constant coefficient of the phase of the result under the same key
/// decodes to `m`, as long as `e0`, the rounding error
/// `n * 2^(64 - base_log * level_count) / 2` and the conversion noise
/// `n * level_count * 2^(base_log - 1)` stay below half the scaling factor.
#[verifier::spinoff_prover]
pub proof fn lemma_conv_decrypts(
    ksks: Seq<RGSWCiphertext>,
    mask: Seq<u64>,
    lwe_body: u64,
    base_log: usize,
    level_count: usize,
    key: Seq<u64>,
    bits: nat,
    m: u64,
    e0: int,
)
    requires
        valid_decomposition(base_log, level_count),
        key.len() > 0,
        key.len() <= ksks.len(),
        key.len() <= mask.len(),
        forall|i: int| 0 <= i < key.len() ==> #[trigger] key[i] <= 1,
        forall|i: int, t: int|
            0 <= i < key.len() && 0 <= t < level_count ==> binary_noise(
                #[trigger] conv_row_error(ksks[i], key, base_log, level_count, key[i], t)[0],
            ),
        forall|i: int, t: int|
            0 <= i < key.len() && 0 <= t < level_count ==> #[trigger] digit_in_range(
                base_log,
                conv_digit(base_log, level_count, mask[i], t),
            ),
        1 <= bits <= 62,
        m < pow2(bits),
        signed_abs(wrap(lwe_phase(key, mask, lwe_body) - encode_spec(bits, m))) <= e0,
        e0 + key.len() * (pow2((64 - base_log * level_count) as nat) / 2) + key.len() * (level_count * pow2(
            (base_log - 1) as nat,
        )) < delta_of(bits) / 2,
    ensures
        decode_spec(
            bits,
            conv_phase(ksks, mask, lwe_body, base_log, level_count, key.len(), key.len() as int, key, key)[0],
        ) == m,
{
    let n = key.len() as int;
    let w = word_modulus();
    lemma_conv_dot(mask, key, base_log, level_count, n);
    lemma_conv_noise_small(ksks, mask, key, base_log, level_count, n, 0);
    let cd = conv_dot(mask, base_log, level_count, key, n);
    let dt = dot(mask, key, n);
    let re = conv_round_error(mask, key, base_log, level_count, n);
    let nz = conv_noise(ksks, mask, key, base_log, level_count, key, n, 0);
    let ns = conv_noise_signed(ksks, mask, key, base_log, level_count, n, 0);
    let lp = lwe_phase(key, mask, lwe_body);
    let enc = encode_spec(bits, m);
    let x = wrap(lp - enc);
    let ek = signed(x);
    lemma_signed_abs(x);
    lemma_signed_mod(x);
    lemma_mod_sub(lp as int, enc as int);
    lemma_mod_sub(lwe_body - dt, 0);
    let ph = conv_phase(ksks, mask, lwe_body, base_log, level_count, key.len(), n, key, key)[0];
    lemma_mod_sub(lwe_body - cd - nz, 0);
    // ph = lwe_body - cd - nz = (lwe_body - dt) + re - ns = enc + ek + re - ns, modulo 2^64
    lemma_cong_add(cd, dt - re, nz, ns);
    lemma_cong_sub(lwe_body as int, lwe_body as int, cd + nz, dt - re + ns);
    assert(lwe_body - (dt - re + ns) == (lwe_body - dt) + (re - ns));
    lemma_cong_add(lwe_body - dt, lp as int, re - ns, re - ns);
    lemma_cong_add(ek, lp - enc, enc as int, enc as int);
    lemma_cong_add(lp as int, ek + enc, re - ns, re - ns);
    let ee = ek + re - ns;
    assert(ek + enc + (re - ns) == enc + ee);
    assert(lwe_body - cd - nz == lwe_body - (cd + nz));
    assert(-(delta_of(bits) / 2) < ee < delta_of(bits) / 2);
    lemma_mod_sub(enc + ee, 0);
    vstd::arithmetic::div_mod::lemma_small_mod(ph as nat, w as nat);
    vstd::arithmetic::div_mod::lemma_small_mod(wrap(enc + ee) as nat, w as nat);
    assert(ph == wrap(enc + ee));
    lemma_decode_signed(bits, m, ee);
}


/// The noise of an external product after `m` terms, coefficient `k`, with
/// the digits read as signed words.
pub open spec fn ext_noise_signed(
    data: Seq<u64>,
    n: int,
    base_log: usize,
    level_count: usize,
    a: Seq<u64>,
    b: Seq<u64>,
    key: Seq<u64>,
    p: Seq<u64>,
    m: int,
    k: int,
) -> int
    decreases m,
{
    if m <= 0 {
        0
    } else {
        let t = m - 1;
        ext_noise_signed(data, n, base_log, level_count, a, b, key, p, m - 1, k) + signed_nega_partial(
            digit_poly(base_log, level_count, a, t),
            row_error(data, n, key, base_log, p, paired_row(level_count as int, t, 0)),
            n,
            k,
            n,
        ) + signed_nega_partial(
            digit_poly(base_log, level_count, b, t),
            row_error(data, n, key, base_log, p, paired_row(level_count as int, t, 1)),
            n,
            k,
            n,
        )
    }
}

/// The noise of an external product is congruent to its signed reading, of
/// magnitude at most `m * 2 * n * 2^(base_log - 1)` after `m` terms, when the
/// digits are balanced and the rows' errors binary.
pub proof fn lemma_ext_noise_small(
    data: Seq<u64>,
    n: int,
    base_log: usize,
    level_count: usize,
    a: Seq<u64>,
    b: Seq<u64>,
    key: Seq<u64>,
    p: Seq<u64>,
    m: int,
)
    requires
        valid_decomposition(base_log, level_count),
        n > 0,
        0 <= m <= level_count,
        data.len() == 4 * level_count * n,
        a.len() == n,
        b.len() == n,
        key.len() == n,
        p.len() == n,
        forall|r: int, i: int|
            0 <= r < 2 * level_count && 0 <= i < n ==> binary_noise(
                #[trigger] row_error(data, n, key, base_log, p, r)[i],
            ),
        forall|i: int, t: int|
            0 <= i < n && 0 <= t < level_count ==> #[trigger] digit_in_range(
                base_log,
                signed_decomposition(base_log, level_count, a[i])[t],
            ) && digit_in_range(base_log, signed_decomposition(base_log, level_count, b[i])[t]),
    ensures
        forall|k: int|
            0 <= k < n ==> #[trigger] ext_noise_acc(data, n, base_log, level_count, a, b, key, p, m, k)
                % word_modulus() == ext_noise_signed(data, n, base_log, level_count, a, b, key, p, m, k)
                % word_modulus() && -(m * (2 * (n * pow2((base_log - 1) as nat)))) <= ext_noise_signed(
                data,
                n,
                base_log,
                level_count,
                a,
                b,
                key,
                p,
                m,
                k,
            ) <= m * (2 * (n * pow2((base_log - 1) as nat))),
    decreases m,
{
    let half = pow2((base_log - 1) as nat) as int;
    let w = word_modulus();
    assert(base_log <= 62) by (nonlinear_arith)
        requires
            base_log * level_count < 63,
            level_count >= 1,
    ;
    lemma_half_base(base_log);
    if m > 0 {
        lemma_ext_noise_small(data, n, base_log, level_count, a, b, key, p, m - 1);
        let t = m - 1;
        let ra = paired_row(level_count as int, t, 0);
        let rb = paired_row(level_count as int, t, 1);
        lemma_row_in_bounds(level_count as int, n, ra);
        lemma_row_in_bounds(level_count as int, n, rb);
        let da = digit_poly(base_log, level_count, a, t);
        let db = digit_poly(base_log, level_count, b, t);
        let ea = row_error(data, n, key, base_log, p, ra);
        let eb = row_error(data, n, key, base_log, p, rb);
        assert forall|i: int| 0 <= i < n implies -half <= #[trigger] signed(da[i]) <= half by {
            assert(digit_in_range(base_log, signed_decomposition(base_log, level_count, a[i])[t]));
        }
        assert forall|i: int| 0 <= i < n implies -half <= #[trigger] signed(db[i]) <= half by {
            assert(digit_in_range(base_log, signed_decomposition(base_log, level_count, a[i])[t]));
            assert(digit_in_range(base_log, signed_decomposition(base_log, level_count, b[i])[t]));
        }
        assert forall|i: int| 0 <= i < n implies -1 <= #[trigger] signed(ea[i]) <= 1 by {
            assert(binary_noise(row_error(data, n, key, base_log, p, ra)[i]));
        }
        assert forall|i: int| 0 <= i < n implies -1 <= #[trigger] signed(eb[i]) <= 1 by {
            assert(binary_noise(row_error(data, n, key, base_log, p, rb)[i]));
        }
        lemma_nega_small(da, ea, half);
        lemma_nega_small(db, eb, half);
        assert forall|k: int| 0 <= k < n implies #[trigger] ext_noise_acc(
            data,
            n,
            base_log,
            level_count,
            a,
            b,
            key,
            p,
            m,
            k,
        ) % w == ext_noise_signed(data, n, base_log, level_count, a, b, key, p, m, k) % w && -(m * (2 * (n
            * half))) <= ext_noise_signed(data, n, base_log, level_count, a, b, key, p, m, k) <= m * (2 * (n
            * half)) by {
            let x1 = ext_noise_acc(data, n, base_log, level_count, a, b, key, p, m - 1, k);
            let y1 = ext_noise_signed(data, n, base_log, level_count, a, b, key, p, m - 1, k);
            lemma_cong_add(x1, y1, negacyclic(da, ea)[k] as int, signed_nega_partial(da, ea, n, k, n));
            lemma_cong_add(
                x1 + negacyclic(da, ea)[k],
                y1 + signed_nega_partial(da, ea, n, k, n),
                negacyclic(db, eb)[k] as int,
                signed_nega_partial(db, eb, n, k, n),
            );
            assert(m * (2 * (n * half)) == (m - 1) * (2 * (n * half)) + 2 * (n * half)) by (nonlinear_arith);
        }
    }
}

/// Multiplying by `X^j` or `-X^j` keeps the signed magnitudes of the
/// coefficients.
proof fn lemma_rotate_small(y: Seq<u64>, j: int, negate: bool, bound: int)
    requires
        y.len() > 0,
        0 <= bound < 0x8000_0000_0000_0000,
        forall|i: int| 0 <= i < y.len() ==> -bound <= #[trigger] signed(y[i]) <= bound,
    ensures
        forall|k: int| 0 <= k < y.len() ==> -bound <= #[trigger] signed(rotate(y, j, negate)[k]) <= bound,
{
    let n = y.len() as int;
    assert forall|k: int| 0 <= k < n implies -bound <= #[trigger] signed(rotate(y, j, negate)[k]) <= bound by {
        let i = rotate_source(n, j, k);
        vstd::arithmetic::div_mod::lemma_mod_bound(k + n - j % n, n);
        let v = signed(y[i]);
        assert(-bound <= v <= bound);
        if rotate_flips(n, j, i, negate) {
            lemma_signed_mod(y[i]);
            lemma_cong_sub(0, 0, y[i] as int, v);
            lemma_signed_wrap(-v);
            assert(wrap(-y[i]) == wrap(0 - v));
        }
    }
}


proof fn lemma_ext_round_arith(
    phr: int,
    rbk: int,
    rak: int,
    bk: int,
    akk: int,
    dak: int,
    sb: int,
    sk: int,
    pha: int,
    enc: int,
    ek: int,
)
    requires
        phr % word_modulus() == (rbk - rak) % word_modulus(),
        rbk % word_modulus() == (bk - sb) % word_modulus(),
        rak % word_modulus() == (1 * akk + (-1) * dak) % word_modulus(),
        dak % word_modulus() == sk % word_modulus(),
        pha % word_modulus() == (bk - akk) % word_modulus(),
        ek % word_modulus() == (pha - enc) % word_modulus(),
    ensures
        phr % word_modulus() == (1 * enc + 1 * (ek - sb + sk)) % word_modulus(),
{
    lemma_cong_sub(0, 0, dak, sk);
    lemma_cong_add(akk, akk, 0 - dak, 0 - sk);
    assert(1 * akk + (-1) * dak == akk + (0 - dak));
    lemma_cong_sub(rbk, bk - sb, rak, akk + (0 - sk));
    assert(bk - sb - (akk + (0 - sk)) == (bk - akk) + (sk - sb));
    lemma_cong_add(bk - akk, pha, sk - sb, sk - sb);
    lemma_cong_add(ek, pha - enc, enc, enc);
    lemma_cong_add(pha, ek + enc, sk - sb, sk - sb);
    assert(ek + enc + (sk - sb) == 1 * enc + 1 * (ek - sb + sk));
}


/// `(n + 1) * 2^(64 - base_log * level_count) / 2`: the largest rounding
/// error of a phase taken on rounded polynomials of size `n`.
pub open spec fn rounding_bound(n: int, base_log: usize, level_count: usize) -> int {
    (n + 1) * (pow2((64 - base_log * level_count) as nat) / 2)
}

/// The phase under `key` of `(R(a), R(b))` minus the encoding of `m`: the
/// noise of `(a, b)` plus the rounding errors, each read as a signed word.
pub open spec fn round_noise(key: Seq<u64>, a: Seq<u64>, b: Seq<u64>, base_log: usize, level_count: usize, bits: nat, m: Seq<u64>) -> Seq<u64> {
    let rb = rounded_poly(base_log, level_count, b);
    let da = seq_sub(a, rounded_poly(base_log, level_count, a));
    Seq::new(
        a.len(),
        |k: int|
            wrap(
                signed(wrap(phase(key, a, b)[k] - encode_spec(bits, m[k]))) - signed(wrap(b[k] - rb[k]))
                    + signed_nega_partial(da, key, a.len() as int, k, a.len() as int),
            ),
    )
}

/// Rounding `(a, b)` before taking the phase adds a signed error of
/// magnitude at most `(n + 1) * 2^(64 - base_log * level_count) / 2`.
#[verifier::spinoff_prover]
pub proof fn lemma_round_phase(
    key: Seq<u64>,
    a: Seq<u64>,
    b: Seq<u64>,
    base_log: usize,
    level_count: usize,
    bits: nat,
    m: Seq<u64>,
    e0: int,
)
    requires
        valid_decomposition(base_log, level_count),
        a.len() > 0,
        b.len() == a.len(),
        key.len() == a.len(),
        m.len() == a.len(),
        forall|i: int| 0 <= i < a.len() ==> #[trigger] ternary_noise(key[i]),
        forall|k: int|
            0 <= k < a.len() ==> signed_abs(#[trigger] wrap(phase(key, a, b)[k] - encode_spec(bits, m[k]))) <= e0,
        e0 + rounding_bound(a.len() as int, base_log, level_count) < 0x4000_0000_0000_0000,
    ensures
        forall|i: int|
            0 <= i < a.len() ==> #[trigger] (phase(
                key,
                rounded_poly(base_log, level_count, a),
                rounded_poly(base_log, level_count, b),
            )[i] as int) % word_modulus() == (1 * poly_encode_spec(bits, m)[i] + 1 * round_noise(
                key,
                a,
                b,
                base_log,
                level_count,
                bits,
                m,
            )[i]) % word_modulus() && -(e0 + rounding_bound(a.len() as int, base_log, level_count)) <= signed(
                round_noise(key, a, b, base_log, level_count, bits, m)[i],
            ) <= e0 + rounding_bound(a.len() as int, base_log, level_count),
{
    let n = a.len() as int;
    let w = word_modulus();
    let h = (pow2((64 - base_log * level_count) as nat) / 2) as int;
    vstd::arithmetic::power2::lemma_pow2_pos((64 - base_log * level_count) as nat);
    let ra = rounded_poly(base_log, level_count, a);
    let rb = rounded_poly(base_log, level_count, b);
    let da = seq_sub(a, ra);
    assert forall|i: int| 0 <= i < n implies -h <= #[trigger] signed(da[i]) <= h by {
        lemma_round_small(base_log, level_count, a[i]);
    }
    assert forall|i: int| 0 <= i < n implies -1 <= #[trigger] signed(key[i]) <= 1 by {
        assert(ternary_noise(key[i]));
    }
    lemma_nega_small(da, key, h);
    assert forall|i: int| 0 <= i < n implies #[trigger] (ra[i] as int) % w == (1 * a[i] + (-1) * da[i]) % w by {
        lemma_mod_sub(a[i] as int, ra[i] as int);
        lemma_cong_sub(a[i] as int, a[i] as int, da[i] as int, a[i] - ra[i]);
        vstd::arithmetic::div_mod::lemma_small_mod(ra[i] as nat, w as nat);
    }
    lemma_negacyclic_lin(ra, a, da, key, 1, -1);
    let encm = poly_encode_spec(bits, m);
    let pha = phase(key, a, b);
    let phr = phase(key, ra, rb);
    let zz = round_noise(key, a, b, base_log, level_count, bits, m);
    let zb = e0 + rounding_bound(n, base_log, level_count);
    assert(rounding_bound(n, base_log, level_count) == n * h + h) by {
        assert((n + 1) * h == n * h + h) by (nonlinear_arith);
    }
    assert forall|i: int| 0 <= i < n implies #[trigger] (phr[i] as int) % w == (1 * encm[i] + 1 * zz[i]) % w
        && -zb <= signed(zz[i]) <= zb by {
        let x = wrap(pha[i] - encm[i]);
        let z = signed(x) - signed(wrap(b[i] - rb[i])) + signed_nega_partial(da, key, n, i, n);
        lemma_signed_abs(x);
        lemma_signed_mod(x);
        lemma_mod_sub(pha[i] as int, encm[i] as int);
        lemma_round_small(base_log, level_count, b[i]);
        lemma_signed_mod(wrap(b[i] - rb[i]));
        lemma_mod_sub(b[i] as int, rb[i] as int);
        lemma_cong_sub(b[i] as int, b[i] as int, signed(wrap(b[i] - rb[i])), b[i] - rb[i]);
        assert(b[i] - (b[i] - rb[i]) == rb[i] as int);
        lemma_mod_sub(rb[i] as int, negacyclic(ra, key)[i] as int);
        lemma_mod_sub(b[i] as int, negacyclic(a, key)[i] as int);
        vstd::arithmetic::div_mod::lemma_small_mod(rb[i] as nat, w as nat);
        lemma_ext_round_arith(
            phr[i] as int,
            rb[i] as int,
            negacyclic(ra, key)[i] as int,
            b[i] as int,
            negacyclic(a, key)[i] as int,
            negacyclic(da, key)[i] as int,
            signed(wrap(b[i] - rb[i])),
            signed_nega_partial(da, key, n, i, n),
            pha[i] as int,
            encm[i] as int,
            signed(x),
        );
        assert(zz[i] == wrap(z));
        assert(-zb <= z <= zb);
        lemma_signed_wrap(z);
        lemma_mod_sub(z, 0);
        lemma_cong_add(encm[i] as int, encm[i] as int, zz[i] as int, z);
    }
}

/// The error of the external product of `(a, b)` with an encryption of
/// `X^j` (or `-X^j` when `negate`), coefficient `k`, read as a signed
/// integer: the rotated rounding noise plus the noise of the rows.
pub open spec fn ext_prod_err(
    data: Seq<u64>,
    n: int,
    base_log: usize,
    level_count: usize,
    a: Seq<u64>,
    b: Seq<u64>,
    key: Seq<u64>,
    j: int,
    negate: bool,
    bits: nat,
    m: Seq<u64>,
    k: int,
) -> int {
    signed(rotate(round_noise(key, a, b, base_log, level_count, bits, m), j, negate)[k]) + ext_noise_signed(
        data,
        n,
        base_log,
        level_count,
        a,
        b,
        key,
        monomial(n as nat, j, negate),
        level_count as int,
        k,
    )
}

/// The external product of an encryption of `m` (signed error at most `e0`)
/// with an RGSW encryption of `X^j` (or `-X^j`) has for phase the rotated
/// encoding of `m` plus a signed error of magnitude at most `e0 + (n + 1) *
/// 2^(64 - base_log * level_count) / 2 + level_count * 2 * n * 2^(base_log - 1)`.
#[verifier::spinoff_prover]
pub proof fn lemma_ext_prod_noise(
    data: Seq<u64>,
    n: int,
    base_log: usize,
    level_count: usize,
    a: Seq<u64>,
    b: Seq<u64>,
    key: Seq<u64>,
    j: int,
    negate: bool,
    bits: nat,
    m: Seq<u64>,
    e0: int,
)
    requires
        valid_decomposition(base_log, level_count),
        n > 0,
        0 <= j < n,
        data.len() == 4 * level_count * n,
        a.len() == n,
        b.len() == n,
        key.len() == n,
        m.len() == n,
        forall|i: int| 0 <= i < n ==> #[trigger] ternary_noise(key[i]),
        forall|r: int, i: int|
            0 <= r < 2 * level_count && 0 <= i < n ==> binary_noise(
                #[trigger] row_error(data, n, key, base_log, monomial(n as nat, j, negate), r)[i],
            ),
        forall|i: int, t: int|
            0 <= i < n && 0 <= t < level_count ==> #[trigger] digit_in_range(
                base_log,
                signed_decomposition(base_log, level_count, a[i])[t],
            ) && digit_in_range(base_log, signed_decomposition(base_log, level_count, b[i])[t]),
        forall|k: int|
            0 <= k < n ==> signed_abs(#[trigger] wrap(phase(key, a, b)[k] - encode_spec(bits, m[k]))) <= e0,
        e0 + rounding_bound(n, base_log, level_count) + level_count * (2 * (n * pow2((base_log - 1) as nat)))
            < 0x4000_0000_0000_0000,
    ensures
        forall|k: int|
            0 <= k < n ==> ext_prod_phase(data, n, base_log, level_count, a, b, key, monomial(n as nat, j, negate))[k]
                == wrap(rotate(poly_encode_spec(bits, m), j, negate)[k] + #[trigger] ext_prod_err(
                data,
                n,
                base_log,
                level_count,
                a,
                b,
                key,
                j,
                negate,
                bits,
                m,
                k,
            )) && -(e0 + rounding_bound(n, base_log, level_count) + level_count * (2 * (n * pow2(
                (base_log - 1) as nat,
            )))) <= ext_prod_err(data, n, base_log, level_count, a, b, key, j, negate, bits, m, k) <= e0
                + rounding_bound(n, base_log, level_count) + level_count * (2 * (n * pow2((base_log - 1) as nat))),
{
    let w = word_modulus();
    let p = monomial(n as nat, j, negate);
    let half = pow2((base_log - 1) as nat) as int;
    let lc = level_count as int;
    assert(0 <= lc * (2 * (n * half))) by (nonlinear_arith)
        requires
            lc >= 0,
            n >= 0,
            half >= 0,
    ;
    lemma_ext_noise_small(data, n, base_log, level_count, a, b, key, p, lc);
    lemma_round_phase(key, a, b, base_log, level_count, bits, m, e0);
    let ra = rounded_poly(base_log, level_count, a);
    let rb = rounded_poly(base_log, level_count, b);
    let encm = poly_encode_spec(bits, m);
    let phr = phase(key, ra, rb);
    let zz = round_noise(key, a, b, base_log, level_count, bits, m);
    let zb = e0 + rounding_bound(n, base_log, level_count);
    assert forall|i: int| 0 <= i < n implies -zb <= #[trigger] signed(zz[i]) <= zb && (phr[i] as int) % w == (1
        * encm[i] + 1 * zz[i]) % w by {
        assert((phr[i] as int) % w == (1 * encm[i] + 1 * zz[i]) % w);
    }
    lemma_lin_right(p, phr, encm, zz, 1, 1);
    crate::ring::lemma_negacyclic_comm(p, encm);
    crate::ring::lemma_negacyclic_comm(p, zz);
    crate::poly::lemma_rotate_is_monomial_product(encm, j, negate);
    crate::poly::lemma_rotate_is_monomial_product(zz, j, negate);
    lemma_rotate_small(zz, j, negate, zb);
    let ep = ext_prod_phase(data, n, base_log, level_count, a, b, key, p);
    let em2 = rotate(encm, j, negate);
    assert forall|k: int| 0 <= k < n implies ep[k] == wrap(em2[k] + #[trigger] ext_prod_err(
        data,
        n,
        base_log,
        level_count,
        a,
        b,
        key,
        j,
        negate,
        bits,
        m,
        k,
    )) && -(zb + lc * (2 * (n * half))) <= ext_prod_err(data, n, base_log, level_count, a, b, key, j, negate, bits, m, k)
        <= zb + lc * (2 * (n * half)) by {
        let rot = rotate(zz, j, negate)[k];
        let rz = signed(rot);
        let nn = ext_noise_acc(data, n, base_log, level_count, a, b, key, p, lc, k);
        let ns = ext_noise_signed(data, n, base_log, level_count, a, b, key, p, lc, k);
        let pp = negacyclic(p, phr)[k] as int;
        lemma_signed_mod(rot);
        assert(negacyclic(p, encm)[k] == em2[k]);
        assert(negacyclic(p, zz)[k] == rot);
        lemma_cong_add(pp, 1 * em2[k] + 1 * rot, nn, ns);
        lemma_cong_add(em2[k] as int, em2[k] as int, rot as int, rz);
        lemma_cong_add(em2[k] + rot, em2[k] + rz, ns, ns);
        let ee = rz + ns;
        lemma_mod_sub(pp + nn, 0);
        lemma_mod_sub(em2[k] + ee, 0);
        vstd::arithmetic::div_mod::lemma_small_mod(ep[k] as nat, w as nat);
        vstd::arithmetic::div_mod::lemma_small_mod(wrap(em2[k] + ee) as nat, w as nat);
        assert(ep[k] == wrap(em2[k] + ee));
    }
}

/// The external product with an RGSW encryption of the monomial `X^j` (or
/// `-X^j` when `negate`) rotates the message: when the phase of `(a, b)`
/// under the key of coefficients in `{0, 1, -1}` is the encoding of `m` up
/// to a signed noise of magnitude at most `e0`, the rows' errors are binary
/// and the digits balanced, the phase of the product decodes to `m2`, the
/// message whose encoding is the rotated encoding of `m`, as long as `e0`,
/// the rounding errors `(n + 1) * 2^(64 - base_log * level_count) / 2` and
/// the product noise `level_count * 2 * n * 2^(base_log - 1)` stay below half
/// the scaling factor.
#[verifier::spinoff_prover]
pub proof fn lemma_ext_prod_decrypts(
    data: Seq<u64>,
    n: int,
    base_log: usize,
    level_count: usize,
    a: Seq<u64>,
    b: Seq<u64>,
    key: Seq<u64>,
    j: int,
    negate: bool,
    bits: nat,
    m: Seq<u64>,
    m2: Seq<u64>,
    e0: int,
)
    requires
        valid_decomposition(base_log, level_count),
        n > 0,
        0 <= j < n,
        data.len() == 4 * level_count * n,
        a.len() == n,
        b.len() == n,
        key.len() == n,
        m.len() == n,
        m2.len() == n,
        forall|i: int| 0 <= i < n ==> #[trigger] ternary_noise(key[i]),
        forall|r: int, i: int|
            0 <= r < 2 * level_count && 0 <= i < n ==> binary_noise(
                #[trigger] row_error(data, n, key, base_log, monomial(n as nat, j, negate), r)[i],
            ),
        forall|i: int, t: int|
            0 <= i < n && 0 <= t < level_count ==> #[trigger] digit_in_range(
                base_log,
                signed_decomposition(base_log, level_count, a[i])[t],
            ) && digit_in_range(base_log, signed_decomposition(base_log, level_count, b[i])[t]),
        1 <= bits <= 62,
        forall|k: int| 0 <= k < n ==> #[trigger] m2[k] < pow2(bits),
        rotate(poly_encode_spec(bits, m), j, negate) == poly_encode_spec(bits, m2),
        forall|k: int|
            0 <= k < n ==> signed_abs(#[trigger] wrap(phase(key, a, b)[k] - encode_spec(bits, m[k]))) <= e0,
        e0 + rounding_bound(n, base_log, level_count) + level_count * (2 * (n * pow2((base_log - 1) as nat)))
            < delta_of(bits) / 2,
    ensures
        poly_decode_spec(bits, ext_prod_phase(data, n, base_log, level_count, a, b, key, monomial(n as nat, j, negate)))
            == m2,
{
    crate::codec::lemma_delta_bounds(bits);
    lemma_ext_prod_noise(data, n, base_log, level_count, a, b, key, j, negate, bits, m, e0);
    let ep = ext_prod_phase(data, n, base_log, level_count, a, b, key, monomial(n as nat, j, negate));
    assert forall|k: int| 0 <= k < n implies #[trigger] decode_spec(bits, ep[k]) == m2[k] by {
        let ee = ext_prod_err(data, n, base_log, level_count, a, b, key, j, negate, bits, m, k);
        assert(poly_encode_spec(bits, m2)[k] == encode_spec(bits, m2[k]));
        lemma_decode_signed(bits, m2[k], ee);
    }
    assert(poly_decode_spec(bits, ep) =~= m2);
}


/// The error that key switching adds to the phase of `(mask, body)` under
/// `sb`, coefficient `k`, read as a signed integer: the rounding of the mask
/// times `sb`, minus the digits times the key's errors.
pub open spec fn ks_error(
    ksks: Seq<RLWECiphertext>,
    base_log: usize,
    level_count: usize,
    mask: Seq<u64>,
    sa: Seq<u64>,
    sb: Seq<u64>,
    k: int,
) -> int {
    let r = rounded_poly(base_log, level_count, mask);
    signed_nega_partial(seq_sub(mask, r), sb, mask.len() as int, k, mask.len() as int) - ks_noise_signed(
        ksks,
        base_log,
        level_count,
        r,
        sa,
        sb,
        level_count as int,
        k,
    )
}

proof fn lemma_ks_noise_arith(ksp: int, body: int, rs: int, noise: int, ms: int, dms: int, e1: int, e2: int, po: int)
    requires
        ksp % word_modulus() == (body - rs - noise) % word_modulus(),
        ms % word_modulus() == (1 * rs + 1 * dms) % word_modulus(),
        dms % word_modulus() == e1 % word_modulus(),
        noise % word_modulus() == e2 % word_modulus(),
        po % word_modulus() == (body - ms) % word_modulus(),
    ensures
        ksp % word_modulus() == (po + (e1 - e2)) % word_modulus(),
{
    lemma_cong_sub(rs + dms, ms, dms, e1);
    lemma_cong_add(rs, ms - e1, noise, e2);
    lemma_cong_sub(body, body, rs + noise, ms - e1 + e2);
    assert(body - rs - noise == body - (rs + noise));
    assert(body - (ms - e1 + e2) == (body - ms) + (e1 - e2));
    lemma_cong_add(body - ms, po, e1 - e2, e1 - e2);
}

/// Key switching adds to the phase a signed error of magnitude at most
/// `n * 2^(64 - base_log * level_count) / 2 + level_count * n * 2^(base_log - 1)`,
/// when the key encrypts `sb`'s gadget multiples under `sa` with binary
/// noise, `sb` has coefficients in `{0, 1, -1}` and the digits are balanced.
#[verifier::spinoff_prover]
pub proof fn lemma_keyswitch_noise(
    ksks: Seq<RLWECiphertext>,
    base_log: usize,
    level_count: usize,
    mask: Seq<u64>,
    body: Seq<u64>,
    sa: Seq<u64>,
    sb: Seq<u64>,
)
    requires
        valid_decomposition(base_log, level_count),
        ksks.len() == level_count,
        sa.len() > 0,
        mask.len() == sa.len(),
        body.len() == sa.len(),
        sb.len() == sa.len(),
        forall|j: int|
            0 <= j < ksks.len() ==> (#[trigger] ksks[j]).mask.len() == sa.len() && ksks[j].body.len() == sa.len(),
        ksk_encrypts(sb, sa, ksks, base_log),
        forall|j: int| 0 <= j < sb.len() ==> #[trigger] ternary_noise(sb[j]),
        forall|i: int, t: int|
            0 <= i < sa.len() && 0 <= t < level_count ==> #[trigger] digit_in_range(
                base_log,
                signed_decomposition(base_log, level_count, rounded_poly(base_log, level_count, mask)[i])[t],
            ),
    ensures
        forall|k: int|
            0 <= k < sa.len() ==> (#[trigger] ks_phase(ksks, base_log, level_count, mask, body, sa, sb)[k] as int)
                % word_modulus() == (phase(sb, mask, body)[k] + ks_error(ksks, base_log, level_count, mask, sa, sb, k))
                % word_modulus() && -(sa.len() * (pow2((64 - base_log * level_count) as nat) / 2) + level_count * (
            sa.len() * pow2((base_log - 1) as nat))) <= ks_error(ksks, base_log, level_count, mask, sa, sb, k) <= sa.len()
                * (pow2((64 - base_log * level_count) as nat) / 2) + level_count * (sa.len() * pow2(
                (base_log - 1) as nat,
            )),
{
    let n = sa.len() as int;
    let w = word_modulus();
    let h = (pow2((64 - base_log * level_count) as nat) / 2) as int;
    let lc = level_count as int;
    lemma_ksk_errors_binary(ksks, base_log, sa, sb);
    let r = rounded_poly(base_log, level_count, mask);
    lemma_ks_noise_small(ksks, base_log, level_count, r, sa, sb, lc);
    let dm = seq_sub(mask, r);
    assert forall|i: int| 0 <= i < n implies -h <= #[trigger] signed(dm[i]) <= h by {
        lemma_round_small(base_log, level_count, mask[i]);
    }
    assert forall|j: int| 0 <= j < n implies -1 <= #[trigger] signed(sb[j]) <= 1 by {
        assert(ternary_noise(sb[j]));
    }
    vstd::arithmetic::power2::lemma_pow2_pos((64 - base_log * level_count) as nat);
    lemma_nega_small(dm, sb, h);
    assert forall|i: int| 0 <= i < n implies #[trigger] (mask[i] as int) % w == (1 * r[i] + 1 * dm[i]) % w by {
        lemma_mod_sub(mask[i] as int, r[i] as int);
        lemma_cong_add(r[i] as int, r[i] as int, dm[i] as int, mask[i] - r[i]);
        vstd::arithmetic::div_mod::lemma_small_mod(mask[i] as nat, w as nat);
    }
    lemma_negacyclic_lin(mask, r, dm, sb, 1, 1);
    let ksp = ks_phase(ksks, base_log, level_count, mask, body, sa, sb);
    assert forall|k: int| 0 <= k < n implies (#[trigger] ksp[k] as int) % w == (phase(sb, mask, body)[k] + ks_error(
        ksks,
        base_log,
        level_count,
        mask,
        sa,
        sb,
        k,
    )) % w && -(n * h + lc * (n * pow2((base_log - 1) as nat))) <= ks_error(ksks, base_log, level_count, mask, sa, sb, k)
        <= n * h + lc * (n * pow2((base_log - 1) as nat)) by {
        let po = phase(sb, mask, body)[k];
        let e1 = signed_nega_partial(dm, sb, n, k, n);
        let noise = ks_noise_acc(ksks, base_log, level_count, r, sa, sb, lc, k);
        let e2 = ks_noise_signed(ksks, base_log, level_count, r, sa, sb, lc, k);
        let rs = negacyclic(r, sb)[k] as int;
        let ms = negacyclic(mask, sb)[k] as int;
        lemma_mod_sub(body[k] - rs - noise, 0);
        lemma_mod_sub(body[k] as int, ms);
        lemma_ks_noise_arith(ksp[k] as int, body[k] as int, rs, noise, ms, negacyclic(dm, sb)[k] as int, e1, e2, po as int);
    }
}


/// Coefficient `k` of `a * b` is congruent to the sum of its terms read as
/// signed words.
proof fn lemma_signed_nega_cong(a: Seq<u64>, b: Seq<u64>, n: int, k: int, m: int)
    requires
        a.len() == n,
        b.len() == n,
        0 <= k < n,
        0 <= m <= n,
    ensures
        nega_partial(a, b, n, k, m) % word_modulus() == signed_nega_partial(a, b, n, k, m) % word_modulus(),
    decreases m,
{
    if m > 0 {
        lemma_signed_nega_cong(a, b, n, k, m - 1);
        let i = m - 1;
        let j = if i <= k {
            k - i
        } else {
            k + n - i
        };
        lemma_signed_mod(a[i]);
        lemma_signed_mod(b[j]);
        let ai = a[i] as int;
        let bj = b[j] as int;
        let sa = signed(a[i]);
        let sb = signed(b[j]);
        lemma_cong_mul2(ai, sa, bj, sb);
        let u = if i <= k {
            a[i] * b[k - i]
        } else {
            -(a[i] * b[k + n - i])
        };
        let v = if i <= k {
            signed(a[i]) * signed(b[k - i])
        } else {
            -(signed(a[i]) * signed(b[k + n - i]))
        };
        if i <= k {
            assert(u == ai * bj && v == sa * sb);
        } else {
            assert(u == -(ai * bj) && v == -(sa * sb));
            lemma_cong_sub(0, 0, ai * bj, sa * sb);
        }
        lemma_cong_add(nega_partial(a, b, n, k, m - 1), signed_nega_partial(a, b, n, k, m - 1), u, v);
    }
}

/// The noise of key switching is congruent to its signed reading.
proof fn lemma_ks_noise_cong(
    ksks: Seq<RLWECiphertext>,
    base_log: usize,
    level_count: usize,
    d: Seq<u64>,
    sa: Seq<u64>,
    sb: Seq<u64>,
    m: int,
    k: int,
)
    requires
        0 <= m <= level_count,
        ksks.len() == level_count,
        d.len() == sa.len(),
        sb.len() == sa.len(),
        0 <= k < sa.len(),
        forall|j: int|
            0 <= j < ksks.len() ==> (#[trigger] ksks[j]).mask.len() == sa.len() && ksks[j].body.len() == sa.len(),
    ensures
        ks_noise_acc(ksks, base_log, level_count, d, sa, sb, m, k) % word_modulus() == ks_noise_signed(
            ksks,
            base_log,
            level_count,
            d,
            sa,
            sb,
            m,
            k,
        ) % word_modulus(),
    decreases m,
{
    if m > 0 {
        lemma_ks_noise_cong(ksks, base_log, level_count, d, sa, sb, m - 1, k);
        let n = sa.len() as int;
        let dt = digit_poly(base_log, level_count, d, m - 1);
        let e = ksk_error(ksks, base_log, level_count - m, sa, sb);
        assert(ksks[level_count - m].mask.len() == n);
        lemma_signed_nega_cong(dt, e, n, k, n);
        vstd::arithmetic::div_mod::lemma_mod_twice(nega_partial(dt, e, n, k, n), word_modulus());
        lemma_cong_add(
            ks_noise_acc(ksks, base_log, level_count, d, sa, sb, m - 1, k),
            ks_noise_signed(ksks, base_log, level_count, d, sa, sb, m - 1, k),
            negacyclic(dt, e)[k] as int,
            signed_nega_partial(dt, e, n, k, n),
        );
    }
}

/// The phase that key switching gives is the phase under `sb` plus
/// `ks_error`, modulo `2^64`, whatever the key holds.
pub proof fn lemma_keyswitch_congruence(
    ksks: Seq<RLWECiphertext>,
    base_log: usize,
    level_count: usize,
    mask: Seq<u64>,
    body: Seq<u64>,
    sa: Seq<u64>,
    sb: Seq<u64>,
    k: int,
)
    requires
        ksks.len() == level_count,
        mask.len() == sa.len(),
        body.len() == sa.len(),
        sb.len() == sa.len(),
        0 <= k < sa.len(),
        forall|j: int|
            0 <= j < ksks.len() ==> (#[trigger] ksks[j]).mask.len() == sa.len() && ksks[j].body.len() == sa.len(),
    ensures
        (ks_phase(ksks, base_log, level_count, mask, body, sa, sb)[k] as int) % word_modulus() == (phase(
            sb,
            mask,
            body,
        )[k] + ks_error(ksks, base_log, level_count, mask, sa, sb, k)) % word_modulus(),
{
    let n = sa.len() as int;
    let w = word_modulus();
    let lc = level_count as int;
    let r = rounded_poly(base_log, level_count, mask);
    let dm = seq_sub(mask, r);
    lemma_ks_noise_cong(ksks, base_log, level_count, r, sa, sb, lc, k);
    lemma_signed_nega_cong(dm, sb, n, k, n);
    vstd::arithmetic::div_mod::lemma_mod_twice(nega_partial(dm, sb, n, k, n), w);
    assert forall|i: int| 0 <= i < n implies #[trigger] (mask[i] as int) % w == (1 * r[i] + 1 * dm[i]) % w by {
        lemma_mod_sub(mask[i] as int, r[i] as int);
        lemma_cong_add(r[i] as int, r[i] as int, dm[i] as int, mask[i] - r[i]);
        vstd::arithmetic::div_mod::lemma_small_mod(mask[i] as nat, w as nat);
    }
    lemma_negacyclic_lin(mask, r, dm, sb, 1, 1);
    let ksp = ks_phase(ksks, base_log, level_count, mask, body, sa, sb);
    let po = phase(sb, mask, body)[k];
    let e1 = signed_nega_partial(dm, sb, n, k, n);
    let noise = ks_noise_acc(ksks, base_log, level_count, r, sa, sb, lc, k);
    let e2 = ks_noise_signed(ksks, base_log, level_count, r, sa, sb, lc, k);
    let rs = negacyclic(r, sb)[k] as int;
    let ms = negacyclic(mask, sb)[k] as int;
    lemma_mod_sub(body[k] - rs - noise, 0);
    lemma_mod_sub(body[k] as int, ms);
    lemma_ks_noise_arith(ksp[k] as int, body[k] as int, rs, noise, ms, negacyclic(dm, sb)[k] as int, e1, e2, po as int);
}

/// Key switching keeps a ternary message: a ternary encryption under `sb`
/// (of noise in `{0, 1, -1}`) of coefficients in `{0, 1, -1}`, switched by a
/// key that encrypts `sb`'s gadget multiples under `sa`, decrypts under `sa`
/// with the ternary codec to the same coefficients, as long as the noise of
/// the switching stays below half the scaling factor of the codec of
/// modulus `4` (as the default parameters leave it, see
/// `lemma_default_budgets`).
pub proof fn lemma_keyswitch_ternary_roundtrip(
    ksks: Seq<RLWECiphertext>,
    base_log: usize,
    level_count: usize,
    mask: Seq<u64>,
    body: Seq<u64>,
    sa: Seq<u64>,
    sb: Seq<u64>,
    m: Seq<u64>,
)
    requires
        valid_decomposition(base_log, level_count),
        ksks.len() == level_count,
        sa.len() > 0,
        mask.len() == sa.len(),
        body.len() == sa.len(),
        sb.len() == sa.len(),
        m.len() == sa.len(),
        forall|j: int|
            0 <= j < ksks.len() ==> (#[trigger] ksks[j]).mask.len() == sa.len() && ksks[j].body.len() == sa.len(),
        ksk_encrypts(sb, sa, ksks, base_log),
        forall|j: int| 0 <= j < sb.len() ==> #[trigger] ternary_noise(sb[j]),
        forall|i: int, t: int|
            0 <= i < sa.len() && 0 <= t < level_count ==> #[trigger] digit_in_range(
                base_log,
                signed_decomposition(base_log, level_count, rounded_poly(base_log, level_count, mask)[i])[t],
            ),
        forall|k: int| 0 <= k < m.len() ==> #[trigger] m[k] == 0 || m[k] == 1 || m[k] == u64::MAX,
        forall|k: int|
            0 <= k < sa.len() ==> ternary_noise(
                #[trigger] wrap(phase(sb, mask, body)[k] - crate::codec::ternary_encode_spec(m[k])),
            ),
        1 + sa.len() * (pow2((64 - base_log * level_count) as nat) / 2) + level_count * (sa.len() * pow2(
            (base_log - 1) as nat,
        )) < delta_of(2) / 2,
    ensures
        Seq::new(
            sa.len(),
            |i: int| crate::codec::ternary_decode_spec(ks_phase(ksks, base_log, level_count, mask, body, sa, sb)[i]),
        ) == m,
{
    let w = word_modulus();
    let n = sa.len() as int;
    let msg = Seq::new(sa.len(), |k: int| if m[k] == u64::MAX { 3u64 } else { m[k] });
    crate::codec::lemma_delta_bounds(2);
    vstd::arithmetic::power2::lemma2_to64();
    let d = delta_of(2) as int;
    assert(d * 4 == w);
    assert forall|k: int| 0 <= k < n implies #[trigger] msg[k] < pow2(2) && signed_abs(
        wrap(phase(sb, mask, body)[k] - encode_spec(2, msg[k])),
    ) <= 1 by {
        assert(crate::codec::ternary_encode_spec(m[k]) == encode_spec(2, msg[k])) by {
            if m[k] == u64::MAX {
                assert(u64::MAX * d == 3 * d + (d - 1) * w) by (nonlinear_arith)
                    requires
                        d * 4 == w,
                        u64::MAX == w - 1,
                ;
                vstd::arithmetic::div_mod::lemma_mod_multiples_vanish(d - 1, 3 * d, w);
            }
        }
        let e = wrap(phase(sb, mask, body)[k] - encode_spec(2, msg[k]));
        assert(ternary_noise(e));
        if e == u64::MAX {
            vstd::arithmetic::div_mod::lemma_fundamental_div_mod_converse(-(u64::MAX as int), w, -1, 1);
        }
    }
    assert forall|k: int| 0 <= k < sa.len() implies signed_abs(
        #[trigger] wrap(phase(sb, mask, body)[k] - encode_spec(2, msg[k])),
    ) <= 1 by {
        assert(msg[k] < pow2(2));
    }
    assert forall|k: int| 0 <= k < sa.len() implies #[trigger] msg[k] < pow2(2) by {
        assert(msg[k] < pow2(2));
    }
    lemma_keyswitch_decrypts(ksks, base_log, level_count, mask, body, sa, sb, 2, msg, 1);
    let ksph = ks_phase(ksks, base_log, level_count, mask, body, sa, sb);
    assert forall|i: int| 0 <= i < n implies #[trigger] crate::codec::ternary_decode_spec(ksph[i]) == m[i] by {
        assert(poly_decode_spec(2, ksph)[i] == msg[i]);
        assert(msg[i] < pow2(2));
    }
    assert(Seq::new(sa.len(), |i: int| crate::codec::ternary_decode_spec(ksph[i])) =~= m);
}

/// The default parameters leave room for the noise of one operation on a
/// fresh ciphertext (of noise at most `1`) and a message of at most `18`
/// bits: the key switching and substitution budget of
/// `lemma_keyswitch_decrypts` and `lemma_subs_decrypts` (base `2^5`, `9`
/// levels, `N = 2048`), the conversion budget of `lemma_conv_decrypts` with
/// the same decomposition, and the external product budget of
/// `lemma_ext_prod_decrypts` (base `2^5`, `6` levels); and the expansion of
/// ciphertexts of noise at most `1` stays within the bound that
/// `lemma_expand_row` asks for.
pub proof fn lemma_default_budgets(bits: nat)
    requires
        1 <= bits <= 18,
    ensures
        ({
            let p = crate::params::TFHEParameters::default_spec();
            let n = p.polynomial_size as int;
            let (kb, kl) = (p.key_switch_base_log, p.key_switch_level_count);
            let (gb, gl) = (p.base_log, p.level_count);
            &&& 1 + n * (pow2((64 - kb * kl) as nat) / 2) + kl * (n * pow2((kb - 1) as nat)) < delta_of(bits) / 2
            &&& 1 + n * (pow2((64 - kb * kl) as nat) / 2) + n * (kl * pow2((kb - 1) as nat)) < delta_of(bits) / 2
            &&& 1 + rounding_bound(n, gb, gl) + gl * (2 * (n * pow2((gb - 1) as nat))) < delta_of(bits) / 2
            &&& crate::expansion::expand_even_bound(n, 1, kb, kl, p.negs_base_log, p.negs_level_count)
                < 0x4000_0000_0000_0000
        }),
{
    vstd::arithmetic::power2::lemma2_to64();
    vstd::arithmetic::power2::lemma2_to64_rest();
    if bits < 18 {
        vstd::arithmetic::power2::lemma_pow2_strictly_increases(bits, 18);
    }
    vstd::arithmetic::power2::lemma_pow2_pos(bits);
    crate::codec::lemma_delta_bounds(bits);
    let d = delta_of(bits) as int;
    assert(d >= 0x4000_0000_0000) by (nonlinear_arith)
        requires
            d * pow2(bits) == 0x1_0000_0000_0000_0000,
            0 < pow2(bits) <= 0x4_0000,
    ;
    assert(pow2(34) / 2 == 0x2_0000_0000);
    assert(rounding_bound(2048, 5, 6) == 2049 * (pow2(34) / 2));
    assert(pow2(19) / 2 == 0x4_0000);
    assert(crate::packing::ks_bound(2048, 5, 9) == 2048 * 0x4_0000 + 9 * (2048 * 16));
    assert(rounding_bound(2048, 5, 9) == 2049 * 0x4_0000);
}

} // verus!
