//! What the CDKS packing does to the phases: the constant coefficients of
//! the packed ciphertexts land, multiplied by the number of ciphertexts, at
//! the multiples of the packing step, up to the errors of the substitutions.
use vstd::arithmetic::power2::pow2;
use vstd::prelude::*;

use crate::poly::{eval_x_k_spec, negacyclic, rotate, rotate_flips, rotate_source, seq_add, seq_sub, word_modulus, wrap};
use crate::ring::{lemma_cong_add, lemma_cong_sub, lemma_eval_at_multiple, lemma_mod_sub};
use crate::keyswitch::{ks_phase, ksk_encrypts, RLWEKeyswitchKey};
use crate::backend::{digit_in_range, signed_decomposition, ternary_noise, valid_decomposition};
use crate::noise::ks_error;
use crate::rgsw::rounded_poly;
use crate::oram::{add_view, has_subs_key, pack_keys, pack_span, pack_spec, rotate_view};
use crate::rlwe::phase;

verus! {

/// Multiplying a ciphertext by `X^sh` (or `-X^sh`) multiplies its phase by it.
pub proof fn lemma_phase_rotate(s: Seq<u64>, a: Seq<u64>, b: Seq<u64>, sh: int, neg: bool)
    requires
        a.len() == s.len(),
        b.len() == s.len(),
        0 <= sh < s.len(),
    ensures
        phase(s, rotate(a, sh, neg), rotate(b, sh, neg)) == rotate(phase(s, a, b), sh, neg),
{
    let n = s.len();
    let m = crate::poly::monomial(n, sh, neg);
    let ph = phase(s, a, b);
    let w = word_modulus();
    crate::poly::lemma_rotate_is_monomial_product(a, sh, neg);
    crate::poly::lemma_rotate_is_monomial_product(b, sh, neg);
    crate::poly::lemma_rotate_is_monomial_product(ph, sh, neg);
    // (a m) s = (a s) m
    crate::ring::lemma_negacyclic_assoc(a, m, s);
    crate::ring::lemma_negacyclic_comm(m, s);
    crate::ring::lemma_negacyclic_assoc(a, s, m);
    let as_ = negacyclic(a, s);
    assert forall|i: int| 0 <= i < n implies #[trigger] (ph[i] as int) % w == (1 * b[i] + (-1) * as_[i]) % w by {
        lemma_mod_sub(b[i] as int, as_[i] as int);
    }
    crate::ring::lemma_negacyclic_lin(ph, b, as_, m, 1, -1);
    let lhs = phase(s, rotate(a, sh, neg), rotate(b, sh, neg));
    let rhs = rotate(ph, sh, neg);
    assert forall|k: int| 0 <= k < n implies #[trigger] lhs[k] == rhs[k] by {
        let bm = negacyclic(b, m)[k] as int;
        let a_s_m = negacyclic(as_, m)[k] as int;
        lemma_mod_sub(bm, a_s_m);
        vstd::arithmetic::div_mod::lemma_small_mod(rhs[k] as nat, w as nat);
        vstd::arithmetic::div_mod::lemma_small_mod(lhs[k] as nat, w as nat);
    }
    assert(lhs =~= rhs);
}

/// Coefficient `q s` of `x` multiplied by `X^s` (or `-X^s`), for `q < n / s`:
/// the coefficient `(q - 1) s` of `x`, or for `q == 0` the coefficient
/// `n - s` that wraps around `X^n = -1`.
pub proof fn lemma_rotate_at_multiple(x: Seq<u64>, st: int, q: int, neg: bool)
    requires
        0 < st <= x.len(),
        0 <= q,
        q * st < x.len(),
    ensures
        q >= 1 ==> 0 <= q * st - st < x.len() && rotate(x, st, neg)[q * st] == if neg {
            wrap(-x[q * st - st])
        } else {
            x[q * st - st]
        },
        q == 0 ==> rotate(x, st, neg)[0] == if neg {
            x[x.len() - st]
        } else {
            wrap(-x[x.len() - st])
        },
{
    let n = x.len() as int;
    let t = q * st;
    if q >= 1 {
        assert(st <= t) by (nonlinear_arith)
            requires
                q >= 1,
                st > 0,
                t == q * st,
        ;
        vstd::arithmetic::div_mod::lemma_small_mod(st as nat, n as nat);
        let i = t - st;
        vstd::arithmetic::div_mod::lemma_fundamental_div_mod_converse(t + n - st, n, 1, t - st);
        assert(rotate_source(n, st, t) == i);
        vstd::arithmetic::div_mod::lemma_fundamental_div_mod_converse(i + st, n, 0, i + st);
        assert(!((((i + st) / n) % 2 == 1)));
    } else {
        assert(t == 0);
        vstd::arithmetic::div_mod::lemma_fundamental_div_mod_converse(n, n, 1, 0);
        if st < n {
            vstd::arithmetic::div_mod::lemma_small_mod(st as nat, n as nat);
            vstd::arithmetic::div_mod::lemma_small_mod((n - st) as nat, n as nat);
            assert(rotate_source(n, st, 0) == n - st);
            assert((n - st + st) / n == 1);
        } else {
            vstd::arithmetic::div_mod::lemma_small_mod(0, n as nat);
            assert(st % n == 0);
            assert(rotate_source(n, st, 0) == 0);
            assert((0 + st) / n == 1);
        }
    }
}


proof fn lemma_step_arith(p: int, se: int, pa: int, ev: int, d: int, fe: int, rf: int, rt: int, ae: int, odd: bool)
    requires
        p % word_modulus() == (se + pa) % word_modulus(),
        se % word_modulus() == (fe + rf) % word_modulus(),
        pa % word_modulus() == (ev + ae) % word_modulus(),
        d % word_modulus() == (fe + rt) % word_modulus(),
        (rf + rt) % word_modulus() == 0,
        !odd ==> ev == d,
        odd ==> ev % word_modulus() == (0 - d) % word_modulus(),
    ensures
        p % word_modulus() == ((if odd {
            2 * rf
        } else {
            2 * fe
        }) + ae) % word_modulus(),
{
    lemma_cong_add(se, fe + rf, pa, ev + ae);
    if odd {
        lemma_cong_sub(0, 0, d, fe + rt);
        lemma_cong_add(ev, 0 - (fe + rt), ae, ae);
        lemma_cong_add(fe + rf, fe + rf, ev + ae, 0 - (fe + rt) + ae);
        assert(fe + rf + (0 - (fe + rt) + ae) == (2 * rf + ae) - (rf + rt));
        lemma_cong_sub(2 * rf + ae, 2 * rf + ae, rf + rt, 0);
    } else {
        lemma_cong_add(ev, fe + rt, ae, ae);
        lemma_cong_add(fe + rf, fe + rf, ev + ae, fe + rt + ae);
        assert(fe + rf + (fe + rt + ae) == (2 * fe + ae) + (rf + rt));
        lemma_cong_add(2 * fe + ae, 2 * fe + ae, rf + rt, 0);
    }
}

/// One level of the packing, at the coefficients `q s` that it keeps: the
/// sum `(e + X^s o) + subs(e - X^s o)` has there twice the phase of `e` at
/// `q s` (`q` even) or twice that of `o` at `(q - 1) s` (`q` odd), plus the
/// error `ae` of the substitution.
pub proof fn lemma_pack_step(
    s: Seq<u64>,
    log_n: nat,
    ell: nat,
    q: int,
    em: Seq<u64>,
    eb: Seq<u64>,
    om: Seq<u64>,
    ob: Seq<u64>,
    am: Seq<u64>,
    ab: Seq<u64>,
    ae: int,
)
    requires
        s.len() == pow2(log_n),
        1 <= ell <= log_n,
        0 <= q < pow2(ell),
        em.len() == s.len(),
        eb.len() == s.len(),
        om.len() == s.len(),
        ob.len() == s.len(),
        am.len() == s.len(),
        ab.len() == s.len(),
        (phase(s, am, ab)[q * pow2((log_n - ell) as nat)] as int) % word_modulus() == (eval_x_k_spec(
            phase(
                s,
                seq_add(em, rotate(om, pow2((log_n - ell) as nat) as int, true)),
                seq_add(eb, rotate(ob, pow2((log_n - ell) as nat) as int, true)),
            ),
            (pow2(ell) + 1) as int,
        )[q * pow2((log_n - ell) as nat)] + ae) % word_modulus(),
    ensures
        0 <= q * pow2((log_n - ell) as nat) < s.len(),
        q % 2 == 1 ==> 0 <= q * pow2((log_n - ell) as nat) - pow2((log_n - ell) as nat) < s.len(),
        (phase(
            s,
            seq_add(seq_add(em, rotate(om, pow2((log_n - ell) as nat) as int, false)), am),
            seq_add(seq_add(eb, rotate(ob, pow2((log_n - ell) as nat) as int, false)), ab),
        )[q * pow2((log_n - ell) as nat)] as int) % word_modulus() == ((if q % 2 == 1 {
            2 * phase(s, om, ob)[q * pow2((log_n - ell) as nat) - pow2((log_n - ell) as nat)]
        } else {
            2 * phase(s, em, eb)[q * pow2((log_n - ell) as nat)]
        }) + ae) % word_modulus(),
{
    let n = s.len() as int;
    let w = word_modulus();
    let st = pow2((log_n - ell) as nat) as int;
    let t = q * st;
    vstd::arithmetic::power2::lemma_pow2_pos((log_n - ell) as nat);
    vstd::arithmetic::power2::lemma_pow2_strictly_increases((log_n - ell) as nat, log_n);
    let fe = phase(s, em, eb);
    let fo = phase(s, om, ob);
    let dm = seq_add(em, rotate(om, st, true));
    let db = seq_add(eb, rotate(ob, st, true));
    let sm = seq_add(em, rotate(om, st, false));
    let sb = seq_add(eb, rotate(ob, st, false));
    lemma_phase_rotate(s, om, ob, st, true);
    lemma_phase_rotate(s, om, ob, st, false);
    crate::rlwe::lemma_phase_of_sum(s, em, eb, rotate(om, st, true), rotate(ob, st, true));
    crate::rlwe::lemma_phase_of_sum(s, em, eb, rotate(om, st, false), rotate(ob, st, false));
    crate::rlwe::lemma_phase_of_sum(s, sm, sb, am, ab);
    let fd = phase(s, dm, db);
    lemma_eval_at_multiple(fd, log_n, ell, q);
    lemma_rotate_at_multiple(fo, st, q, true);
    lemma_rotate_at_multiple(fo, st, q, false);
    let rf = rotate(fo, st, false)[t];
    let rt = rotate(fo, st, true)[t];
    // the two rotations are opposite
    assert((rf + rt) % w == 0) by {
        let y = if q >= 1 {
            fo[t - st]
        } else {
            fo[n - st]
        };
        if q >= 1 {
            assert(rf == y && rt == wrap(-y));
        } else {
            assert(rt == y && rf == wrap(-y));
        }
        lemma_mod_sub(0, y as int);
        lemma_cong_add(y as int, y as int, wrap(-y) as int, 0 - y);
    }
    let ev = eval_x_k_spec(fd, (pow2(ell) + 1) as int)[t];
    let p = phase(s, seq_add(sm, am), seq_add(sb, ab))[t];
    lemma_mod_sub(phase(s, sm, sb)[t] + phase(s, am, ab)[t], 0);
    lemma_mod_sub(fe[t] + rf, 0);
    lemma_mod_sub(fe[t] + rt, 0);
    if q % 2 == 1 {
        lemma_mod_sub(0, fd[t] as int);
    }
    lemma_step_arith(
        p as int,
        phase(s, sm, sb)[t] as int,
        phase(s, am, ab)[t] as int,
        ev as int,
        fd[t] as int,
        fe[t] as int,
        rf as int,
        rt as int,
        ae,
        q % 2 == 1,
    );
    if q % 2 == 1 {
        assert(q >= 1);
    }
}


/// The keys of the packing levels `1..=ell` substitute `X -> X^(2^e + 1)`.
pub open spec fn pack_subs_ok(m: Map<usize, RLWEKeyswitchKey>, ell: nat) -> bool {
    forall|e: nat| 1 <= e <= ell ==> (#[trigger] m[(pow2(e) + 1) as usize]).subs_k == pow2(e) + 1
}

/// The error that the substitutions of a packing of level `ell` add at
/// coefficient `q * 2^(log_n - ell)` of its phase under `sk`: twice the
/// error of the half it comes from, plus the error of the key switching of
/// the level.
pub open spec fn pack_err(
    m: Map<usize, RLWEKeyswitchKey>,
    log_n: nat,
    ell: nat,
    start: int,
    cts: Seq<(Seq<u64>, Seq<u64>)>,
    sk: Seq<u64>,
    q: int,
) -> int
    decreases ell,
{
    if ell == 0 {
        0
    } else {
        let step = pow2((log_n - ell) as nat) as int;
        let even = pack_spec(m, log_n, (ell - 1) as nat, start, cts);
        let odd = pack_spec(m, log_n, (ell - 1) as nat, start + step, cts);
        let diff = add_view(even, rotate_view(odd, step, true));
        let ksk = m[(pow2(ell) + 1) as usize];
        let kk = ksk.subs_k as int;
        let ae = ks_error(
            ksk.ksks@,
            ksk.decomp_base_log,
            ksk.decomp_level_count,
            eval_x_k_spec(diff.0, kk),
            sk,
            eval_x_k_spec(sk, kk),
            q * step,
        );
        if q % 2 == 1 {
            2 * pack_err(m, log_n, (ell - 1) as nat, start + step, cts, sk, (q - 1) / 2) + ae
        } else {
            2 * pack_err(m, log_n, (ell - 1) as nat, start, cts, sk, q / 2) + ae
        }
    }
}

/// One level of the packing on the phases: given the phases of the two
/// halves at the coefficients they keep and the phase law of the
/// substitution, the phase of the level at `q * 2^(log_n - ell)` is
/// `2^ell` times the constant coefficient of the phase of the ciphertext
/// packed there, plus `pack_err`.
pub proof fn lemma_pack_level(
    m: Map<usize, RLWEKeyswitchKey>,
    log_n: nat,
    ell: nat,
    start: int,
    cts: Seq<(Seq<u64>, Seq<u64>)>,
    sk: Seq<u64>,
    q: int,
    am: Seq<u64>,
    ab: Seq<u64>,
)
    requires
        sk.len() == pow2(log_n),
        1 <= ell <= log_n,
        0 <= q < pow2(ell),
        0 <= start,
        start + pack_span(log_n, ell) < cts.len(),
        pack_subs_ok(m, ell),
        ({
            let step = pow2((log_n - ell) as nat) as int;
            let even = pack_spec(m, log_n, (ell - 1) as nat, start, cts);
            let odd = pack_spec(m, log_n, (ell - 1) as nat, start + step, cts);
            let diff = add_view(even, rotate_view(odd, step, true));
            let ksk = m[(pow2(ell) + 1) as usize];
            &&& even.0.len() == sk.len() && even.1.len() == sk.len()
            &&& odd.0.len() == sk.len() && odd.1.len() == sk.len()
            &&& am.len() == sk.len() && ab.len() == sk.len()
            &&& ksk.ksks.len() == ksk.decomp_level_count
            &&& forall|j: int|
                0 <= j < ksk.ksks.len() ==> (#[trigger] ksk.ksks@[j]).mask.len() == sk.len()
                    && ksk.ksks@[j].body.len() == sk.len()
            &&& phase(sk, am, ab) == ks_phase(
                ksk.ksks@,
                ksk.decomp_base_log,
                ksk.decomp_level_count,
                eval_x_k_spec(diff.0, ksk.subs_k as int),
                eval_x_k_spec(diff.1, ksk.subs_k as int),
                sk,
                eval_x_k_spec(sk, ksk.subs_k as int),
            )
            &&& forall|q2: int|
                0 <= q2 < pow2((ell - 1) as nat) ==> (#[trigger] phase(sk, even.0, even.1)[q2 * (2 * step)] as int)
                    % word_modulus() == (pow2((ell - 1) as nat) * phase(
                    sk,
                    cts[start + q2 * (2 * step)].0,
                    cts[start + q2 * (2 * step)].1,
                )[0] + pack_err(m, log_n, (ell - 1) as nat, start, cts, sk, q2)) % word_modulus()
            &&& forall|q2: int|
                0 <= q2 < pow2((ell - 1) as nat) ==> (#[trigger] phase(sk, odd.0, odd.1)[q2 * (2 * step)] as int)
                    % word_modulus() == (pow2((ell - 1) as nat) * phase(
                    sk,
                    cts[start + step + q2 * (2 * step)].0,
                    cts[start + step + q2 * (2 * step)].1,
                )[0] + pack_err(m, log_n, (ell - 1) as nat, start + step, cts, sk, q2)) % word_modulus()
        }),
    ensures
        ({
            let step = pow2((log_n - ell) as nat) as int;
            let even = pack_spec(m, log_n, (ell - 1) as nat, start, cts);
            let odd = pack_spec(m, log_n, (ell - 1) as nat, start + step, cts);
            let sum = add_view(even, rotate_view(odd, step, false));
            (phase(sk, seq_add(sum.0, am), seq_add(sum.1, ab))[q * step] as int) % word_modulus() == (pow2(ell)
                * phase(sk, cts[start + q * step].0, cts[start + q * step].1)[0] + pack_err(
                m,
                log_n,
                ell,
                start,
                cts,
                sk,
                q,
            )) % word_modulus()
        }),
{
    let w = word_modulus();
    let step = pow2((log_n - ell) as nat) as int;
    let even = pack_spec(m, log_n, (ell - 1) as nat, start, cts);
    let odd = pack_spec(m, log_n, (ell - 1) as nat, start + step, cts);
    let diff = add_view(even, rotate_view(odd, step, true));
    let ksk = m[(pow2(ell) + 1) as usize];
    let kk = ksk.subs_k as int;
    assert(kk == pow2(ell) + 1);
    let t = q * step;
    vstd::arithmetic::power2::lemma_pow2_pos((log_n - ell) as nat);
    vstd::arithmetic::power2::lemma_pow2_unfold(ell);
    vstd::arithmetic::power2::lemma_pow2_unfold((log_n - ell + 1) as nat);
    assert(((log_n - (ell - 1) as nat) as nat) == (log_n - ell + 1) as nat);
    // k is odd
    assert(kk % 2 == 1) by {
        vstd::arithmetic::div_mod::lemma_fundamental_div_mod_converse(kk, 2, pow2((ell - 1) as nat) as int, 1);
    }
    lemma_eval_at_multiple(diff.0, log_n, ell, q);
    let ae = ks_error(ksk.ksks@, ksk.decomp_base_log, ksk.decomp_level_count, eval_x_k_spec(diff.0, kk), sk, eval_x_k_spec(sk, kk), t);
    // the substituted phase
    crate::noise::lemma_keyswitch_congruence(
        ksk.ksks@,
        ksk.decomp_base_log,
        ksk.decomp_level_count,
        eval_x_k_spec(diff.0, kk),
        eval_x_k_spec(diff.1, kk),
        sk,
        eval_x_k_spec(sk, kk),
        t,
    );
    crate::ring::lemma_eval_x_k_phase(sk, diff.0, diff.1, kk);
    lemma_pack_step(sk, log_n, ell, q, even.0, even.1, odd.0, odd.1, am, ab, ae);
    let pw = pow2((ell - 1) as nat) as int;
    if q % 2 == 1 {
        let q2 = (q - 1) / 2;
        vstd::arithmetic::div_mod::lemma_fundamental_div_mod(q, 2);
        assert(q == 2 * q2 + 1);
        assert(0 <= q2 < pw);
        assert(t - step == q2 * (2 * step)) by (nonlinear_arith)
            requires
                t == q * step,
                q == 2 * q2 + 1,
        ;
        assert(start + step + q2 * (2 * step) == start + t);
        let x = phase(sk, cts[start + t].0, cts[start + t].1)[0] as int;
        let er = pack_err(m, log_n, (ell - 1) as nat, start + step, cts, sk, q2);
        crate::ring::lemma_cong_scale(2, phase(sk, odd.0, odd.1)[q2 * (2 * step)] as int, pw * x + er);
        lemma_cong_add(2 * phase(sk, odd.0, odd.1)[t - step], 2 * (pw * x + er), ae, ae);
        assert(2 * (pw * x + er) + ae == pow2(ell) * x + (2 * er + ae)) by (nonlinear_arith)
            requires
                pow2(ell) == 2 * pw,
        ;
    } else {
        let q2 = q / 2;
        vstd::arithmetic::div_mod::lemma_fundamental_div_mod(q, 2);
        assert(q == 2 * q2);
        assert(0 <= q2 < pw);
        assert(t == q2 * (2 * step)) by (nonlinear_arith)
            requires
                t == q * step,
                q == 2 * q2,
        ;
        let x = phase(sk, cts[start + t].0, cts[start + t].1)[0] as int;
        let er = pack_err(m, log_n, (ell - 1) as nat, start, cts, sk, q2);
        crate::ring::lemma_cong_scale(2, phase(sk, even.0, even.1)[q2 * (2 * step)] as int, pw * x + er);
        lemma_cong_add(2 * phase(sk, even.0, even.1)[t], 2 * (pw * x + er), ae, ae);
        assert(2 * (pw * x + er) + ae == pow2(ell) * x + (2 * er + ae)) by (nonlinear_arith)
            requires
                pow2(ell) == 2 * pw,
        ;
    }
}


/// The digits of every key switching of a packing of level `ell` are
/// balanced, as `SignedDecomposer` gives them.
pub open spec fn pack_digits_ok(
    m: Map<usize, RLWEKeyswitchKey>,
    log_n: nat,
    ell: nat,
    start: int,
    cts: Seq<(Seq<u64>, Seq<u64>)>,
) -> bool
    decreases ell,
{
    if ell == 0 {
        true
    } else {
        let step = pow2((log_n - ell) as nat) as int;
        let even = pack_spec(m, log_n, (ell - 1) as nat, start, cts);
        let odd = pack_spec(m, log_n, (ell - 1) as nat, start + step, cts);
        let diff = add_view(even, rotate_view(odd, step, true));
        let ksk = m[(pow2(ell) + 1) as usize];
        &&& pack_digits_ok(m, log_n, (ell - 1) as nat, start, cts)
        &&& pack_digits_ok(m, log_n, (ell - 1) as nat, start + step, cts)
        &&& forall|i: int, t: int|
            0 <= i < diff.0.len() && 0 <= t < ksk.decomp_level_count ==> #[trigger] digit_in_range(
                ksk.decomp_base_log,
                signed_decomposition(
                    ksk.decomp_base_log,
                    ksk.decomp_level_count,
                    rounded_poly(ksk.decomp_base_log, ksk.decomp_level_count, eval_x_k_spec(diff.0, ksk.subs_k as int))[i],
                )[t],
            )
    }
}


/// A packing of ciphertexts of size `n` has size `n`.
pub proof fn lemma_pack_spec_len(
    m: Map<usize, RLWEKeyswitchKey>,
    log_n: nat,
    ell: nat,
    start: int,
    cts: Seq<(Seq<u64>, Seq<u64>)>,
    n: usize,
)
    requires
        ell <= log_n,
        pow2(log_n) <= n,
        0 <= start,
        start + pack_span(log_n, ell) < cts.len(),
        forall|i: int| 0 <= i < cts.len() ==> (#[trigger] cts[i]).0.len() == n && cts[i].1.len() == n,
        pack_keys(m, n, ell),
    ensures
        pack_spec(m, log_n, ell, start, cts).0.len() == n,
        pack_spec(m, log_n, ell, start, cts).1.len() == n,
    decreases ell,
{
    vstd::arithmetic::power2::lemma_pow2_pos((log_n - ell) as nat);
    if ell > 0 {
        let step = pow2((log_n - ell) as nat) as int;
        vstd::arithmetic::power2::lemma_pow2_unfold((log_n - ell + 1) as nat);
        assert(((log_n - (ell - 1) as nat) as nat) == (log_n - ell + 1) as nat);
        assert(pack_keys(m, n, (ell - 1) as nat));
        lemma_pack_spec_len(m, log_n, (ell - 1) as nat, start, cts, n);
        lemma_pack_spec_len(m, log_n, (ell - 1) as nat, start + step, cts, n);
        let even = pack_spec(m, log_n, (ell - 1) as nat, start, cts);
        let odd = pack_spec(m, log_n, (ell - 1) as nat, start + step, cts);
        let diff = add_view(even, rotate_view(odd, step, true));
        let ksk = m[(pow2(ell) + 1) as usize];
        assert(has_subs_key(m, pow2(ell) + 1int, n));
        crate::keyswitch::lemma_ks_acc_len(
            ksk.ksks@,
            ksk.decomp_base_log,
            ksk.decomp_level_count,
            rounded_poly(ksk.decomp_base_log, ksk.decomp_level_count, eval_x_k_spec(diff.0, ksk.subs_k as int)),
            crate::poly::zero_poly(ksk.polynomial_size as nat),
            ksk.decomp_level_count as int,
            false,
        );
        crate::keyswitch::lemma_ks_acc_len(
            ksk.ksks@,
            ksk.decomp_base_log,
            ksk.decomp_level_count,
            rounded_poly(ksk.decomp_base_log, ksk.decomp_level_count, eval_x_k_spec(diff.0, ksk.subs_k as int)),
            eval_x_k_spec(diff.1, ksk.subs_k as int),
            ksk.decomp_level_count as int,
            true,
        );
    }
}

/// The keys of the packing levels `1..=ell` encrypt, with binary noise and
/// the decomposition `(base_log, level_count)`, the gadget multiples of
/// `sk(X^(2^e + 1))` under `sk`, and those substituted keys have
/// coefficients in `{0, 1, -1}`.
pub open spec fn pack_keys_encrypt(
    m: Map<usize, RLWEKeyswitchKey>,
    ell: nat,
    sk: Seq<u64>,
    base_log: usize,
    level_count: usize,
) -> bool {
    forall|e: nat|
        1 <= e <= ell ==> {
            let ksk = #[trigger] m[(pow2(e) + 1) as usize];
            &&& ksk.decomp_base_log == base_log
            &&& ksk.decomp_level_count == level_count
            &&& ksk_encrypts(eval_x_k_spec(sk, (pow2(e) + 1) as int), sk, ksk.ksks@, base_log)
            &&& forall|j: int| 0 <= j < sk.len() ==> #[trigger] ternary_noise(eval_x_k_spec(sk, (pow2(e) + 1) as int)[j])
        }
}

/// The bound of the error of one key switching of size `n`.
pub open spec fn ks_bound(n: int, base_log: usize, level_count: usize) -> int {
    n * (pow2((64 - base_log * level_count) as nat) / 2) + level_count * (n * pow2((base_log - 1) as nat))
}

/// The substitutions of a packing of level `ell` add to the phase at the
/// coefficients it keeps an error of magnitude at most `(2^ell - 1)` times
/// the bound of one key switching.
pub proof fn lemma_pack_err_bound(
    m: Map<usize, RLWEKeyswitchKey>,
    log_n: nat,
    ell: nat,
    start: int,
    cts: Seq<(Seq<u64>, Seq<u64>)>,
    sk: Seq<u64>,
    q: int,
    base_log: usize,
    level_count: usize,
)
    requires
        valid_decomposition(base_log, level_count),
        sk.len() == pow2(log_n),
        sk.len() <= usize::MAX,
        ell <= log_n,
        0 <= q < pow2(ell),
        0 <= start,
        start + pack_span(log_n, ell) < cts.len(),
        forall|i: int| 0 <= i < cts.len() ==> (#[trigger] cts[i]).0.len() == sk.len() && cts[i].1.len() == sk.len(),
        pack_keys(m, sk.len() as usize, ell),
        pack_subs_ok(m, ell),
        pack_keys_encrypt(m, ell, sk, base_log, level_count),
        pack_digits_ok(m, log_n, ell, start, cts),
    ensures
        -((pow2(ell) - 1) * ks_bound(sk.len() as int, base_log, level_count)) <= pack_err(m, log_n, ell, start, cts, sk, q)
            <= (pow2(ell) - 1) * ks_bound(sk.len() as int, base_log, level_count),
    decreases ell,
{
    let n = sk.len() as usize;
    let b = ks_bound(sk.len() as int, base_log, level_count);
    vstd::arithmetic::power2::lemma_pow2_pos((log_n - ell) as nat);
    if ell == 0 {
        vstd::arithmetic::power2::lemma2_to64();
    } else {
        let step = pow2((log_n - ell) as nat) as int;
        let pw = pow2((ell - 1) as nat) as int;
        vstd::arithmetic::power2::lemma_pow2_unfold(ell);
        vstd::arithmetic::power2::lemma_pow2_unfold((log_n - ell + 1) as nat);
        assert(((log_n - (ell - 1) as nat) as nat) == (log_n - ell + 1) as nat);
        assert(pack_keys(m, n, (ell - 1) as nat));
        assert(pack_subs_ok(m, (ell - 1) as nat));
        assert(pack_keys_encrypt(m, (ell - 1) as nat, sk, base_log, level_count));
        let even = pack_spec(m, log_n, (ell - 1) as nat, start, cts);
        let odd = pack_spec(m, log_n, (ell - 1) as nat, start + step, cts);
        lemma_pack_spec_len(m, log_n, (ell - 1) as nat, start, cts, n);
        lemma_pack_spec_len(m, log_n, (ell - 1) as nat, start + step, cts, n);
        let diff = add_view(even, rotate_view(odd, step, true));
        let kk = pow2(ell) + 1;
        let ksk = m[kk as usize];
        assert(has_subs_key(m, pow2(ell) + 1int, n));
        assert(ksk.subs_k == kk);
        assert(ksk.decomp_base_log == base_log && ksk.decomp_level_count == level_count);
        let t = q * step;
        crate::noise::lemma_keyswitch_noise(
            ksk.ksks@,
            base_log,
            level_count,
            eval_x_k_spec(diff.0, kk as int),
            eval_x_k_spec(diff.1, kk as int),
            sk,
            eval_x_k_spec(sk, kk as int),
        );
        assert(0 <= t < sk.len()) by {
            lemma_eval_at_multiple(sk, log_n, ell, q);
        }
        let ae = ks_error(
            ksk.ksks@,
            base_log,
            level_count,
            eval_x_k_spec(diff.0, kk as int),
            sk,
            eval_x_k_spec(sk, kk as int),
            t,
        );
        assert(-b <= ae <= b) by {
            assert((ks_phase(
                ksk.ksks@,
                base_log,
                level_count,
                eval_x_k_spec(diff.0, kk as int),
                eval_x_k_spec(diff.1, kk as int),
                sk,
                eval_x_k_spec(sk, kk as int),
            )[t] as int) % word_modulus() == (phase(
                eval_x_k_spec(sk, kk as int),
                eval_x_k_spec(diff.0, kk as int),
                eval_x_k_spec(diff.1, kk as int),
            )[t] + ae) % word_modulus());
        }
        let q2 = if q % 2 == 1 {
            (q - 1) / 2
        } else {
            q / 2
        };
        let st2 = if q % 2 == 1 {
            start + step
        } else {
            start
        };
        vstd::arithmetic::div_mod::lemma_fundamental_div_mod(q, 2);
        assert(0 <= q2 < pw);
        assert(pack_digits_ok(m, log_n, (ell - 1) as nat, st2, cts));
        lemma_pack_err_bound(m, log_n, (ell - 1) as nat, st2, cts, sk, q2, base_log, level_count);
        let sub = pack_err(m, log_n, (ell - 1) as nat, st2, cts, sk, q2);
        assert(pack_err(m, log_n, ell, start, cts, sk, q) == 2 * sub + ae);
        assert(b >= 0) by (nonlinear_arith)
            requires
                -b <= ae <= b,
        ;
        assert(-((pow2(ell) - 1) * b) <= 2 * sub + ae <= (pow2(ell) - 1) * b) by (nonlinear_arith)
            requires
                -((pw - 1) * b) <= sub <= (pw - 1) * b,
                -b <= ae <= b,
                pow2(ell) == 2 * pw,
        ;
    }
}

} // verus!
