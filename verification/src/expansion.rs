//! What the expansion of RLWE ciphertexts into an RGSW ciphertext gives:
//! the rows encrypt the gadget multiples of the bit that the inputs hold,
//! up to bounded errors.
use vstd::prelude::*;

use crate::backend::{binary_noise, digit_in_range, signed_decomposition, ternary_noise, valid_decomposition};
use crate::codec::{encode_spec, poly_encode_spec};
use crate::noise::{
    ext_noise_signed, lemma_ext_noise_small, lemma_nega_small, lemma_round_phase, round_noise, rounding_bound,
    signed, signed_nega_partial,
};
use crate::poly::{floor_log2, negacyclic, seq_neg, seq_scale, word_modulus, wrap};
use crate::rgsw::{ext_noise_acc, ext_prod_acc, ext_prod_phase, lemma_rgsw_row_errors_binary, rounded_poly, row_error, RGSWCiphertext};
use crate::ring::{lemma_cong_add, lemma_cong_sub, lemma_lin_right, lemma_mod_sub};
use crate::rlwe::{is_binary, neg_key, phase, rgsw_encrypts_poly, rgsw_row_plaintext, signed_abs, RLWECiphertext};
use crate::keyswitch::{expanded_row_ok, neg_s_product_facts, rgsw_row_from, trace_acc, trace_keys, trace_keys_encrypt, trace_step_ok, RLWEKeyswitchKey};
use crate::packing::ks_bound;
use crate::trace::lemma_trace_keeps_constant;
use crate::update::{column_within, const_poly, lemma_encode_64, lemma_signed_abs_wrap};
use crate::backend::is_native;
use vstd::arithmetic::power2::pow2;

verus! {

/// The error of the external product of `(a, b)` with an RGSW encryption of
/// the polynomial `p`, coefficient `k`, read as a signed integer: `p` times
/// the rounding noise plus the noise of the rows.
pub open spec fn ext_prod_err_poly(
    data: Seq<u64>,
    n: int,
    base_log: usize,
    level_count: usize,
    a: Seq<u64>,
    b: Seq<u64>,
    key: Seq<u64>,
    p: Seq<u64>,
    bits: nat,
    m: Seq<u64>,
    k: int,
) -> int {
    signed_nega_partial(round_noise(key, a, b, base_log, level_count, bits, m), p, n, k, n) + ext_noise_signed(
        data,
        n,
        base_log,
        level_count,
        a,
        b,
        key,
        p,
        level_count as int,
        k,
    )
}

/// The external product of an encryption of `m` (signed error at most `e0`)
/// with an RGSW encryption of a polynomial `p` of coefficients in
/// `{0, 1, -1}` has for phase `p` times the encoding of `m` plus a signed
/// error of magnitude at most `n * (e0 + (n + 1) * 2^(64 - base_log *
/// level_count) / 2) + level_count * 2 * n * 2^(base_log - 1)`.
#[verifier::spinoff_prover]
pub proof fn lemma_ext_prod_noise_poly(
    data: Seq<u64>,
    n: int,
    base_log: usize,
    level_count: usize,
    a: Seq<u64>,
    b: Seq<u64>,
    key: Seq<u64>,
    p: Seq<u64>,
    bits: nat,
    m: Seq<u64>,
    e0: int,
)
    requires
        valid_decomposition(base_log, level_count),
        n > 0,
        data.len() == 4 * level_count * n,
        a.len() == n,
        b.len() == n,
        key.len() == n,
        p.len() == n,
        m.len() == n,
        forall|i: int| 0 <= i < n ==> #[trigger] ternary_noise(key[i]),
        forall|i: int| 0 <= i < n ==> #[trigger] ternary_noise(p[i]),
        forall|r: int, i: int|
            0 <= r < 2 * level_count && 0 <= i < n ==> binary_noise(
                #[trigger] row_error(data, n, key, base_log, p, r)[i],
            ),
        forall|i: int, t: int|
            0 <= i < n && 0 <= t < level_count ==> #[trigger] digit_in_range(
                base_log,
                signed_decomposition(base_log, level_count, a[i])[t],
            ) && digit_in_range(base_log, signed_decomposition(base_log, level_count, b[i])[t]),
        forall|k: int|
            0 <= k < n ==> signed_abs(#[trigger] wrap(phase(key, a, b)[k] - encode_spec(bits, m[k]))) <= e0,
        0 <= e0,
        n * (e0 + rounding_bound(n, base_log, level_count)) + level_count * (2 * (n * pow2((base_log - 1) as nat)))
            < 0x4000_0000_0000_0000,
    ensures
        forall|k: int|
            0 <= k < n ==> ext_prod_phase(data, n, base_log, level_count, a, b, key, p)[k] == wrap(
                negacyclic(p, poly_encode_spec(bits, m))[k] + #[trigger] ext_prod_err_poly(
                    data,
                    n,
                    base_log,
                    level_count,
                    a,
                    b,
                    key,
                    p,
                    bits,
                    m,
                    k,
                ),
            ) && -(n * (e0 + rounding_bound(n, base_log, level_count)) + level_count * (2 * (n * pow2(
                (base_log - 1) as nat,
            )))) <= ext_prod_err_poly(data, n, base_log, level_count, a, b, key, p, bits, m, k) <= n * (e0
                + rounding_bound(n, base_log, level_count)) + level_count * (2 * (n * pow2((base_log - 1) as nat))),
{
    let w = word_modulus();
    let half = pow2((base_log - 1) as nat) as int;
    let lc = level_count as int;
    let zb = e0 + rounding_bound(n, base_log, level_count);
    vstd::arithmetic::power2::lemma_pow2_pos((base_log - 1) as nat);
    vstd::arithmetic::power2::lemma_pow2_pos((64 - base_log * level_count) as nat);
    assert(0 <= lc * (2 * (n * half)) && 0 <= rounding_bound(n, base_log, level_count) && n * zb >= zb) by (nonlinear_arith)
        requires
            lc >= 0,
            n >= 1,
            half >= 0,
            pow2((64 - base_log * level_count) as nat) > 0,
            zb == e0 + rounding_bound(n, base_log, level_count),
            e0 >= 0,
            rounding_bound(n, base_log, level_count) == (n + 1) * (pow2((64 - base_log * level_count) as nat) / 2),
    ;
    lemma_ext_noise_small(data, n, base_log, level_count, a, b, key, p, lc);
    lemma_round_phase(key, a, b, base_log, level_count, bits, m, e0);
    let ra = rounded_poly(base_log, level_count, a);
    let rb = rounded_poly(base_log, level_count, b);
    let encm = poly_encode_spec(bits, m);
    let phr = phase(key, ra, rb);
    let zz = round_noise(key, a, b, base_log, level_count, bits, m);
    assert forall|i: int| 0 <= i < n implies -zb <= #[trigger] signed(zz[i]) <= zb && (phr[i] as int) % w == (1
        * encm[i] + 1 * zz[i]) % w by {
        assert((phr[i] as int) % w == (1 * encm[i] + 1 * zz[i]) % w);
    }
    lemma_lin_right(p, phr, encm, zz, 1, 1);
    crate::ring::lemma_negacyclic_comm(p, zz);
    assert forall|j: int| 0 <= j < n implies -1 <= #[trigger] signed(p[j]) <= 1 by {
        assert(ternary_noise(p[j]));
    }
    assert(zz.len() == n);
    lemma_nega_small(zz, p, zb);
    let ep = ext_prod_phase(data, n, base_log, level_count, a, b, key, p);
    assert forall|k: int| 0 <= k < n implies ep[k] == wrap(negacyclic(p, encm)[k] + #[trigger] ext_prod_err_poly(
        data,
        n,
        base_log,
        level_count,
        a,
        b,
        key,
        p,
        bits,
        m,
        k,
    )) && -(n * zb + lc * (2 * (n * half))) <= ext_prod_err_poly(data, n, base_log, level_count, a, b, key, p, bits, m, k)
        <= n * zb + lc * (2 * (n * half)) by {
        let snp = signed_nega_partial(zz, p, n, k, n);
        let nzp = negacyclic(p, zz)[k];
        let nn = ext_noise_acc(data, n, base_log, level_count, a, b, key, p, lc, k);
        let ns = ext_noise_signed(data, n, base_log, level_count, a, b, key, p, lc, k);
        let pp = negacyclic(p, phr)[k] as int;
        let em = negacyclic(p, encm)[k] as int;
        assert(negacyclic(zz, p)[k] == nzp);
        lemma_cong_add(pp, 1 * em + 1 * nzp, nn, ns);
        lemma_cong_add(em, em, nzp as int, snp);
        lemma_cong_add(em + nzp, em + snp, ns, ns);
        let ee = snp + ns;
        lemma_mod_sub(pp + nn, 0);
        lemma_mod_sub(em + ee, 0);
        vstd::arithmetic::div_mod::lemma_small_mod(ep[k] as nat, w as nat);
        vstd::arithmetic::div_mod::lemma_small_mod(wrap(em + ee) as nat, w as nat);
        assert(ep[k] == wrap(em + ee));
    }
}


/// `-s` times `c` is the opposite of `c` times `s`.
proof fn lemma_neg_key_product(sk: Seq<u64>, c: Seq<u64>)
    requires
        c.len() == sk.len(),
    ensures
        negacyclic(neg_key(sk), c) == seq_neg(negacyclic(c, sk)),
{
    let n = sk.len() as int;
    let w = word_modulus();
    let nk = neg_key(sk);
    assert forall|i: int| 0 <= i < n implies #[trigger] (nk[i] as int) % w == (-1 * sk[i] + 0 * sk[i]) % w by {
        lemma_mod_sub(0, sk[i] as int);
    }
    crate::ring::lemma_negacyclic_lin(nk, sk, sk, c, -1, 0);
    crate::ring::lemma_negacyclic_comm(sk, c);
    let l = negacyclic(nk, c);
    let r = seq_neg(negacyclic(c, sk));
    assert forall|k: int| 0 <= k < n implies #[trigger] l[k] == r[k] by {
        let v = negacyclic(sk, c)[k];
        assert(negacyclic(c, sk)[k] == v);
        lemma_mod_sub(0, v as int);
        assert(-1 * v + 0 * v == 0 - v);
        vstd::arithmetic::div_mod::lemma_small_mod(l[k] as nat, w as nat);
        vstd::arithmetic::div_mod::lemma_small_mod(r[k] as nat, w as nat);
    }
    assert(l =~= r);
}

/// The trace of a ciphertext whose constant coefficient of the phase is `c`
/// up to `e0` is within `n e0 + b` of the constant `n c`, when it is within
/// `b` of `n` times the constant coefficient of the phase.
proof fn lemma_trace_to_constant(
    sk: Seq<u64>,
    tr: (Seq<u64>, Seq<u64>),
    p0: u64,
    c: int,
    e0: int,
    b: int,
    nc: u64,
)
    requires
        sk.len() > 0,
        column_within(
            sk,
            tr,
            Seq::new(sk.len(), |t: int| if t == 0 { wrap(sk.len() * p0) } else { 0u64 }),
            b,
        ),
        signed_abs(wrap(p0 - c)) <= e0,
        (nc as int) % word_modulus() == (sk.len() * c) % word_modulus(),
        0 <= e0,
        0 <= b,
        sk.len() * e0 + b < 0x4000_0000_0000_0000,
    ensures
        column_within(sk, tr, Seq::new(sk.len(), |t: int| if t == 0 { nc } else { 0u64 }), sk.len() * e0 + b),
{
    let n = sk.len() as int;
    let w = word_modulus();
    let t_target = Seq::new(sk.len(), |t: int| if t == 0 { wrap(sk.len() * p0) } else { 0u64 });
    let c_target = Seq::new(sk.len(), |t: int| if t == 0 { nc } else { 0u64 });
    assert(0 <= b <= n * e0 + b) by (nonlinear_arith)
        requires
            n > 0,
            e0 >= 0,
            b >= 0,
    ;
    assert forall|t: int| 0 <= t < n implies signed_abs(#[trigger] wrap(phase(sk, tr.0, tr.1)[t] - c_target[t])) <= n
        * e0 + b by {
        let x = phase(sk, tr.0, tr.1)[t];
        assert(signed_abs(wrap(x - t_target[t])) <= b);
        if t == 0 {
            let x1 = wrap(x - t_target[0]);
            let e1 = signed(x1);
            crate::noise::lemma_signed_abs(x1);
            crate::noise::lemma_signed_mod(x1);
            let x0 = wrap(p0 - c);
            let e = signed(x0);
            crate::noise::lemma_signed_abs(x0);
            crate::noise::lemma_signed_mod(x0);
            lemma_mod_sub(p0 as int, c);
            lemma_mod_sub(x as int, t_target[0] as int);
            lemma_mod_sub(n * p0, 0);
            // p0 = c + e and x = n p0 + e1, modulo 2^64
            lemma_cong_add(e, p0 - c, c, c);
            assert(p0 - c + c == p0 as int);
            crate::ring::lemma_cong_scale(n, p0 as int, e + c);
            assert(n * (e + c) == n * e + n * c) by (nonlinear_arith);
            lemma_cong_add(e1, x - t_target[0], t_target[0] as int, n * p0);
            assert(x - t_target[0] + t_target[0] == x as int);
            lemma_cong_add(e1, e1, n * p0, n * e + n * c);
            lemma_cong_sub(x as int, e1 + (n * e + n * c), nc as int, n * c);
            let ee = n * e + e1;
            assert(e1 + (n * e + n * c) - n * c == ee);
            lemma_mod_sub(x as int, nc as int);
            assert(wrap(x - nc) == wrap(ee));
            assert(-(n * e0) <= n * e <= n * e0) by (nonlinear_arith)
                requires
                    -e0 <= e <= e0,
                    n > 0,
            ;
            lemma_signed_abs_wrap(ee);
        } else {
            assert(c_target[t] == t_target[t]);
        }
    }
}


/// The error bound of the rows `2 k + 1` of an expansion: `n` times the
/// error `e0` of the input plus the errors of the `n - 1` key switchings of
/// the trace.
pub open spec fn expand_odd_bound(n: int, e0: int, ks_base_log: usize, ks_level_count: usize) -> int {
    n * e0 + (n - 1) * ks_bound(n, ks_base_log, ks_level_count)
}

/// The error bound of the rows `2 k` of an expansion: the external product
/// of the row `2 k + 1` with the encryption of `-s`.
pub open spec fn expand_even_bound(
    n: int,
    e0: int,
    ks_base_log: usize,
    ks_level_count: usize,
    negs_base_log: usize,
    negs_level_count: usize,
) -> int {
    n * (expand_odd_bound(n, e0, ks_base_log, ks_level_count) + rounding_bound(n, negs_base_log, negs_level_count))
        + negs_level_count * (2 * (n * pow2((negs_base_log - 1) as nat)))
}

/// The expansion makes an RGSW encryption of a bit. Let `cs[k]` have under
/// the binary key `sk` a phase whose constant coefficient is
/// `bit * 2^(64 - base_log (k + 1) - log_n)` up to `e0` (the other
/// coefficients are cancelled by the trace), let the keys of `m` switch the
/// substituted keys back to `sk` (as `gen_all_subs_ksk` makes them) and
/// `neg_s` encrypt `-s` (as `gen_neg_sk` makes it). Then row `r` of the
/// expansion `out` (as `expand` makes it) has for phase the row plaintext of
/// an RGSW encryption of the constant `bit` (`bit` times the gadget, times
/// `-s` in the even rows) up to `expand_odd_bound` in the odd rows and
/// `expand_even_bound` in the even rows, while those bounds stay below `2^62`.
pub proof fn lemma_expand_row(
    out: RGSWCiphertext,
    neg_s: RGSWCiphertext,
    m: Map<usize, RLWEKeyswitchKey>,
    log_n: nat,
    cs: Seq<RLWECiphertext>,
    sk: Seq<u64>,
    bit: u64,
    ks_base_log: usize,
    ks_level_count: usize,
    modulus: u128,
    e0: int,
    r: int,
)
    requires
        sk.len() == pow2(log_n),
        sk.len() <= usize::MAX,
        is_binary(sk),
        is_native(modulus),
        out.wf(),
        out.poly_size == sk.len(),
        0 <= r < 2 * out.level_count,
        r / 2 < cs.len(),
        cs[r / 2].mask.len() == sk.len(),
        cs[r / 2].body.len() == sk.len(),
        expanded_row_ok(out, neg_s, m, sk.len() as usize, cs, r),
        trace_keys(m, sk.len() as usize),
        trace_keys_encrypt(m, sk.len() as usize, sk, ks_base_log, ks_level_count, modulus),
        forall|i2: nat|
            1 <= i2 <= log_n ==> #[trigger] trace_step_ok(m, sk.len() as usize, cs[r / 2].mask@, cs[r / 2].body@, i2),
        neg_s.wf(),
        neg_s.poly_size == sk.len(),
        rgsw_encrypts_poly(sk, neg_s, neg_s.base_log, neg_key(sk)),
        neg_s_product_facts(
            neg_s,
            trace_acc(m, sk.len() as usize, cs[r / 2].mask@, cs[r / 2].body@, floor_log2(sk.len() as nat)).0,
            trace_acc(m, sk.len() as usize, cs[r / 2].mask@, cs[r / 2].body@, floor_log2(sk.len() as nat)).1,
        ),
        bit <= 1,
        out.base_log * (r / 2 + 1) + log_n <= 64,
        signed_abs(
            wrap(
                phase(sk, cs[r / 2].mask@, cs[r / 2].body@)[0] - bit * pow2(
                    (64 - out.base_log * (r / 2 + 1) - log_n) as nat,
                ),
            ),
        ) <= e0,
        0 <= e0,
        expand_even_bound(
            sk.len() as int,
            e0,
            ks_base_log,
            ks_level_count,
            neg_s.base_log,
            neg_s.level_count,
        ) < 0x4000_0000_0000_0000,
    ensures
        column_within(
            sk,
            (out.row_mask_spec(r), out.row_body_spec(r)),
            rgsw_row_plaintext(sk, out.base_log, const_poly(sk.len(), bit), r),
            if r % 2 == 1 {
                expand_odd_bound(sk.len() as int, e0, ks_base_log, ks_level_count)
            } else {
                expand_even_bound(sk.len() as int, e0, ks_base_log, ks_level_count, neg_s.base_log, neg_s.level_count)
            },
        ),
{
    let n = sk.len() as int;
    let nu = sk.len() as usize;
    let w = word_modulus();
    let k = r / 2;
    let bl = out.base_log;
    let ksb = ks_bound(n, ks_base_log, ks_level_count);
    let e1 = expand_odd_bound(n, e0, ks_base_log, ks_level_count);
    let e2 = expand_even_bound(n, e0, ks_base_log, ks_level_count, neg_s.base_log, neg_s.level_count);
    crate::poly::lemma_floor_log2_pow2(log_n);
    vstd::arithmetic::power2::lemma_pow2_pos(log_n);
    // the bounds are ordered
    vstd::arithmetic::power2::lemma_pow2_pos((64 - ks_base_log * ks_level_count) as nat);
    vstd::arithmetic::power2::lemma_pow2_pos((ks_base_log - 1) as nat);
    vstd::arithmetic::power2::lemma_pow2_pos((64 - neg_s.base_log * neg_s.level_count) as nat);
    vstd::arithmetic::power2::lemma_pow2_pos((neg_s.base_log - 1) as nat);
    assert(0 <= ksb && 0 <= (n - 1) * ksb && n * e0 >= 0 && e1 <= e2 && (pow2(log_n) - 1) * ksb <= e1) by (nonlinear_arith)
        requires
            ksb == n * (pow2((64 - ks_base_log * ks_level_count) as nat) / 2) + ks_level_count * (n * pow2(
                (ks_base_log - 1) as nat,
            )),
            e1 == n * e0 + (n - 1) * ksb,
            e2 == n * (e1 + rounding_bound(n, neg_s.base_log, neg_s.level_count)) + neg_s.level_count * (2 * (n * pow2(
                (neg_s.base_log - 1) as nat,
            ))),
            rounding_bound(n, neg_s.base_log, neg_s.level_count) == (n + 1) * (pow2(
                (64 - neg_s.base_log * neg_s.level_count) as nat,
            ) / 2),
            pow2((ks_base_log - 1) as nat) > 0,
            pow2((neg_s.base_log - 1) as nat) > 0,
            n >= 1,
            n == pow2(log_n),
            e0 >= 0,
    ;
    // the trace of cs[k]
    lemma_trace_keeps_constant(m, log_n, cs[k].mask@, cs[k].body@, sk, ks_base_log, ks_level_count, modulus);
    crate::trace::lemma_trace_within(m, log_n, cs[k].mask@, cs[k].body@, sk, ks_base_log, ks_level_count, modulus, log_n);
    let tr = trace_acc(m, nu, cs[k].mask@, cs[k].body@, log_n);
    let p0 = phase(sk, cs[k].mask@, cs[k].body@)[0];
    let sh = (64 - bl * (k + 1) - log_n) as nat;
    let gs = (64 - bl * (k + 1)) as nat;
    let c = bit * pow2(sh);
    vstd::arithmetic::power2::lemma_pow2_adds(log_n, sh);
    assert((log_n + sh) as nat == gs);
    assert(bl * (r / 2 + 1) >= 1) by (nonlinear_arith)
        requires
            bl >= 1,
            r / 2 + 1 >= 1,
    ;
    if gs < 64 {
        vstd::arithmetic::power2::lemma_pow2_strictly_increases(gs, 64);
    }
    vstd::arithmetic::power2::lemma2_to64();
    let g = pow2(gs);
    assert(g < 0x1_0000_0000_0000_0000);
    let cpt = rgsw_row_plaintext(sk, bl, const_poly(sk.len(), bit), r);
    let scaled = seq_scale(const_poly(sk.len(), bit), g as u64);
    let nc = wrap(bit * g);
    assert(n * c == bit * g) by (nonlinear_arith)
        requires
            c == bit * pow2(sh),
            n == pow2(log_n),
            pow2(log_n) * pow2(sh) == g,
    ;
    lemma_mod_sub(bit * g, 0);
    lemma_trace_to_constant(sk, tr, p0, c, e0, (n - 1) * ksb, nc);
    let ct = Seq::new(sk.len(), |t: int| if t == 0 { nc } else { 0u64 });
    assert(scaled =~= ct) by {
        assert forall|t: int| 0 <= t < n implies #[trigger] scaled[t] == ct[t] by {
            if t != 0 {
                assert(0 * (g as u64) == 0);
                vstd::arithmetic::div_mod::lemma_small_mod(0, w as nat);
            }
        }
    }
    if r % 2 == 1 {
        assert(cpt == scaled);
        assert(out.row_mask_spec(r) == tr.0 && out.row_body_spec(r) == tr.1);
    } else {
        let nbl = neg_s.base_log;
        let nlc = neg_s.level_count;
        let nk = neg_key(sk);
        assert(cpt == seq_neg(negacyclic(scaled, sk)));
        let row = (out.row_mask_spec(r), out.row_body_spec(r));
        assert(row.0 == ext_prod_acc(neg_s.data@, n, nbl, nlc, tr.0, tr.1, nlc as int, false));
        assert(row.1 == ext_prod_acc(neg_s.data@, n, nbl, nlc, tr.0, tr.1, nlc as int, true));
        assert(phase(sk, row.0, row.1) == ext_prod_phase(neg_s.data@, n, nbl, nlc, tr.0, tr.1, sk, nk));
        lemma_rgsw_row_errors_binary(sk, neg_s, nk);
        assert forall|i: int| 0 <= i < n implies #[trigger] ternary_noise(sk[i]) by {
            assert(sk[i] <= 1);
        }
        assert forall|i: int| 0 <= i < n implies #[trigger] ternary_noise(nk[i]) by {
            assert(sk[i] <= 1);
            if sk[i] == 1 {
                vstd::arithmetic::div_mod::lemma_mod_add_multiples_vanish(-1, word_modulus());
                vstd::arithmetic::div_mod::lemma_small_mod((word_modulus() - 1) as nat, word_modulus() as nat);
            } else {
                vstd::arithmetic::div_mod::lemma_small_mod(0, word_modulus() as nat);
            }
        }
        assert forall|i: int, t: int|
            0 <= i < n && 0 <= t < nlc implies #[trigger] digit_in_range(
            nbl,
            signed_decomposition(nbl, nlc, tr.0[i])[t],
        ) && digit_in_range(nbl, signed_decomposition(nbl, nlc, tr.1[i])[t]) by {}
        lemma_encode_64(ct);
        assert forall|t: int| 0 <= t < n implies signed_abs(
            #[trigger] wrap(phase(sk, tr.0, tr.1)[t] - encode_spec(64, ct[t])),
        ) <= e1 by {
            assert(encode_spec(64, ct[t]) == ct[t]);
            assert(signed_abs(wrap(phase(sk, tr.0, tr.1)[t] - ct[t])) <= e1);
        }
        lemma_ext_prod_noise_poly(neg_s.data@, n, nbl, nlc, tr.0, tr.1, sk, nk, 64, ct, e1);
        lemma_neg_key_product(sk, ct);
        assert forall|t: int| 0 <= t < n implies signed_abs(#[trigger] wrap(phase(sk, row.0, row.1)[t] - cpt[t])) <= e2 by {
            let err = ext_prod_err_poly(neg_s.data@, n, nbl, nlc, tr.0, tr.1, sk, nk, 64, ct, t);
            let v = negacyclic(nk, ct)[t];
            assert(poly_encode_spec(64, ct) == ct);
            assert(phase(sk, row.0, row.1)[t] == wrap(v + err));
            assert(cpt[t] == v);
            lemma_mod_sub(v + err, 0);
            lemma_cong_sub(wrap(v + err) as int, v + err, v as int, v as int);
            assert(v + err - v == err);
            lemma_mod_sub(wrap(v + err) as int, v as int);
            assert(wrap(phase(sk, row.0, row.1)[t] - cpt[t]) == wrap(err));
            lemma_signed_abs_wrap(err);
        }
    }
}

} // verus!
