//! What the trace of an RLWE ciphertext keeps: `N` times the constant
//! coefficient of its phase, the other coefficients cancelled, up to the
//! errors of its key switchings.
use vstd::prelude::*;

use crate::backend::ternary_noise;
use crate::keyswitch::{
    ks_phase, subs_body, subs_key_encrypts, subs_key_ok, subs_mask, trace_acc, trace_k, trace_keys,
    trace_keys_encrypt, trace_step_ok, RLWEKeyswitchKey,
};
use crate::noise::{lemma_keyswitch_noise, lemma_signed_abs, lemma_signed_mod, signed};
use crate::packing::ks_bound;
use crate::poly::{eval_partial, eval_term, eval_x_k_spec, seq_add, seq_sub, word_modulus, wrap};
use crate::ring::{lemma_cong_add, lemma_cong_sub, lemma_mod_sub};
use crate::rlwe::{is_binary, lemma_phase_of_sum, phase, signed_abs};
use crate::update::{column_within, lemma_signed_abs_wrap};
use crate::backend::is_native;
use vstd::arithmetic::power2::pow2;

verus! {

/// What `i` steps of the trace keep of the phase `p`: `2^i p[t]` at the
/// multiples `t` of `2^i`, zero elsewhere.
pub open spec fn trace_target(p: Seq<u64>, i: nat) -> Seq<u64> {
    Seq::new(p.len(), |t: int| if t % (pow2(i) as int) == 0 { wrap(pow2(i) * p[t]) } else { 0u64 })
}

/// A partial sum of the contributions to coefficient `t` of `p(X^k)` whose
/// terms all vanish is zero.
proof fn lemma_eval_partial_zero(p: Seq<u64>, n: int, k: int, t: int, m: int)
    requires
        forall|j: int| 0 <= j < m ==> #[trigger] eval_term(p, n, k, j, t) == 0,
    ensures
        eval_partial(p, n, k, t, m) == 0,
    decreases m,
{
    if m > 0 {
        lemma_eval_partial_zero(p, n, k, t, m - 1);
    }
}

/// For an odd `k` in a ring of size `2^log_n`, coefficient `t` of `p(X^k)`
/// is zero or a single contribution `+-p[j]`.
proof fn lemma_eval_partial_one(p: Seq<u64>, n: int, log_n: nat, k: int, t: int, m: int)
    requires
        n == pow2(log_n),
        k % 2 == 1,
        0 <= t < n,
        0 <= m <= n,
    ensures
        eval_partial(p, n, k, t, m) == 0 || exists|j: int|
            0 <= j < m && #[trigger] eval_term(p, n, k, j, t) != 0 && eval_partial(p, n, k, t, m) == eval_term(
                p,
                n,
                k,
                j,
                t,
            ),
    decreases m,
{
    if m > 0 {
        lemma_eval_partial_one(p, n, log_n, k, t, m - 1);
        if eval_term(p, n, k, m - 1, t) != 0 {
            assert forall|j: int| 0 <= j < m - 1 implies #[trigger] eval_term(p, n, k, j, t) == 0 by {
                if eval_term(p, n, k, j, t) != 0 {
                    crate::ring::lemma_eval_term_unique(p, n, log_n, k, t, j, m - 1);
                }
            }
            lemma_eval_partial_zero(p, n, k, t, m - 1);
        }
    }
}

/// The substitution `X -> X^k` (odd `k`) keeps signed closeness: when `q`
/// is within `b` of `tt` at every coefficient, so is `q(X^k)` of `tt(X^k)`.
proof fn lemma_eval_close(q: Seq<u64>, tt: Seq<u64>, log_n: nat, k: int, b: int)
    requires
        q.len() == pow2(log_n),
        tt.len() == q.len(),
        k % 2 == 1,
        0 <= b < 0x4000_0000_0000_0000,
        forall|j: int| 0 <= j < q.len() ==> signed_abs(#[trigger] wrap(q[j] - tt[j])) <= b,
    ensures
        forall|t: int|
            0 <= t < q.len() ==> signed_abs(#[trigger] wrap(eval_x_k_spec(q, k)[t] - eval_x_k_spec(tt, k)[t])) <= b,
{
    let n = q.len() as int;
    let w = word_modulus();
    vstd::arithmetic::power2::lemma_pow2_pos(log_n);
    let d = seq_sub(q, tt);
    crate::ring::lemma_eval_x_k_sub(q, tt, k);
    assert forall|t: int| 0 <= t < n implies signed_abs(
        #[trigger] wrap(eval_x_k_spec(q, k)[t] - eval_x_k_spec(tt, k)[t]),
    ) <= b by {
        assert(wrap(eval_x_k_spec(q, k)[t] - eval_x_k_spec(tt, k)[t]) == eval_x_k_spec(d, k)[t]);
        lemma_eval_partial_one(d, n, log_n, k, t, n);
        let s = eval_partial(d, n, k, t, n);
        if s == 0 {
            vstd::arithmetic::div_mod::lemma_small_mod(0, w as nat);
        } else {
            let j = choose|j: int|
                0 <= j < n && #[trigger] eval_term(d, n, k, j, t) != 0 && eval_partial(d, n, k, t, n) == eval_term(
                    d,
                    n,
                    k,
                    j,
                    t,
                );
            let x = d[j];
            assert(signed_abs(wrap(q[j] - tt[j])) <= b);
            let v = signed(x);
            lemma_signed_abs(x);
            lemma_signed_mod(x);
            assert(-b <= v <= b);
            if s == x as int {
                lemma_mod_sub(x as int, 0);
                assert(wrap(s) == wrap(v));
                lemma_signed_abs_wrap(v);
            } else {
                assert(s == -x);
                lemma_cong_sub(0, 0, x as int, v);
                assert(wrap(s) == wrap(-v));
                lemma_signed_abs_wrap(-v);
            }
        }
    }
}


/// `t = q s` is a multiple of `2 s` exactly when `q` is even.
proof fn lemma_multiple_parity(q: int, s: int)
    requires
        q >= 0,
        s > 0,
    ensures
        ((q * s) % (2 * s) == 0) == (q % 2 == 0),
{
    vstd::arithmetic::div_mod::lemma_fundamental_div_mod(q, 2);
    let h = q / 2;
    let r = q % 2;
    vstd::arithmetic::div_mod::lemma_mod_bound(q, 2);
    assert(q * s == (2 * s) * h + r * s) by (nonlinear_arith)
        requires
            q == 2 * h + r,
    ;
    assert(0 <= r * s < 2 * s) by (nonlinear_arith)
        requires
            0 <= r < 2,
            s > 0,
    ;
    vstd::arithmetic::div_mod::lemma_fundamental_div_mod_converse(q * s, 2 * s, h, r * s);
    assert(r * s == 0 <==> r == 0) by (nonlinear_arith)
        requires
            s > 0,
    ;
}

/// An integer written `s g` is a multiple of `s`.
proof fn lemma_is_multiple(t: int, s: int, g: int)
    requires
        s > 0,
        t == s * g,
    ensures
        t % s == 0,
{
    assert(t == g * s + 0) by (nonlinear_arith)
        requires
            t == s * g,
    ;
    vstd::arithmetic::div_mod::lemma_fundamental_div_mod_converse(t, s, g, 0);
}

/// Step `i` of the trace on the kept values: adding to `trace_target(p, i - 1)`
/// its substitution by `X -> X^(2^(log_n - i + 1) + 1)` gives
/// `trace_target(p, i)`.
proof fn lemma_trace_target_step(p: Seq<u64>, log_n: nat, i: nat)
    requires
        p.len() == pow2(log_n),
        1 <= i <= log_n,
    ensures
        forall|t: int|
            0 <= t < p.len() ==> ((trace_target(p, (i - 1) as nat)[t] + #[trigger] eval_x_k_spec(
                trace_target(p, (i - 1) as nat),
                (pow2((log_n - i + 1) as nat) + 1) as int,
            )[t]) as int) % word_modulus() == (trace_target(p, i)[t] as int) % word_modulus(),
{
    let n = p.len() as int;
    let w = word_modulus();
    let ell = (log_n - i + 1) as nat;
    let s = pow2((i - 1) as nat) as int;
    let pe = pow2(ell) as int;
    let kk = pe + 1;
    let tp = trace_target(p, (i - 1) as nat);
    let ev = eval_x_k_spec(tp, kk);
    vstd::arithmetic::power2::lemma_pow2_pos((i - 1) as nat);
    vstd::arithmetic::power2::lemma_pow2_pos(ell);
    vstd::arithmetic::power2::lemma_pow2_adds((i - 1) as nat, ell);
    assert(((i - 1) as nat + ell) as nat == log_n);
    assert(s * pe == n);
    vstd::arithmetic::power2::lemma_pow2_unfold(i);
    assert(pow2(i) as int == 2 * s);
    vstd::arithmetic::power2::lemma_pow2_unfold(ell);
    assert(kk % 2 == 1) by {
        vstd::arithmetic::div_mod::lemma_mod_multiples_vanish(pow2((ell - 1) as nat) as int, 1, 2);
    }
    assert(((log_n - ell) as nat) == (i - 1) as nat);
    assert forall|t: int| 0 <= t < n implies ((tp[t] + #[trigger] eval_x_k_spec(tp, kk)[t]) as int) % w == (trace_target(
        p,
        i,
    )[t] as int) % w by {
        if t % s == 0 {
            vstd::arithmetic::div_mod::lemma_fundamental_div_mod(t, s);
            let q = t / s;
            assert(t == q * s) by (nonlinear_arith)
                requires
                    t == s * (t / s) + t % s,
                    t % s == 0,
                    q == t / s,
            ;
            assert(0 <= q < pe) by (nonlinear_arith)
                requires
                    t == q * s,
                    0 <= t < n,
                    s * pe == n,
                    s > 0,
            ;
            crate::ring::lemma_eval_at_multiple(tp, log_n, ell, q);
            lemma_multiple_parity(q, s);
            assert(tp[t] == wrap(s * p[t]));
            if q % 2 == 0 {
                assert(ev[t] == tp[t]);
                assert(trace_target(p, i)[t] == wrap(2 * s * p[t]));
                lemma_mod_sub(s * p[t], 0);
                lemma_cong_add(tp[t] as int, s * p[t], tp[t] as int, s * p[t]);
                assert(s * p[t] + s * p[t] == 2 * s * p[t]) by (nonlinear_arith);
                lemma_mod_sub(2 * s * p[t], 0);
            } else {
                assert(ev[t] == wrap(-tp[t]));
                assert(trace_target(p, i)[t] == 0);
                lemma_mod_sub(0, tp[t] as int);
                lemma_cong_add(tp[t] as int, tp[t] as int, ev[t] as int, 0 - tp[t]);
                vstd::arithmetic::div_mod::lemma_small_mod(0, w as nat);
            }
        } else {
            assert(tp[t] == 0);
            assert forall|j: int| 0 <= j < n implies #[trigger] eval_term(tp, n, kk, j, t) == 0 by {
                if tp[j] != 0 {
                    assert(j % s == 0);
                    vstd::arithmetic::div_mod::lemma_fundamental_div_mod(j, s);
                    let cj = j / s;
                    vstd::arithmetic::div_mod::lemma_fundamental_div_mod(j * kk, 2 * n);
                    let f = (j * kk) / (2 * n);
                    let e = (j * kk) % (2 * n);
                    assert(e == s * (cj * pe + cj - 2 * pe * f)) by (nonlinear_arith)
                        requires
                            j == s * cj,
                            j * kk == (2 * n) * f + e,
                            kk == pe + 1,
                            n == s * pe,
                    ;
                    if e == t {
                        lemma_is_multiple(t, s, cj * pe + cj - 2 * pe * f);
                    }
                    if e - n == t {
                        assert(t == s * (cj * pe + cj - 2 * pe * f - pe)) by (nonlinear_arith)
                            requires
                                e == s * (cj * pe + cj - 2 * pe * f),
                                t == e - n,
                                n == s * pe,
                        ;
                        lemma_is_multiple(t, s, cj * pe + cj - 2 * pe * f - pe);
                    }
                }
            }
            lemma_eval_partial_zero(tp, n, kk, t, n);
            vstd::arithmetic::div_mod::lemma_small_mod(0, w as nat);
            assert(ev[t] == 0);
            assert(t % (2 * s) != 0) by {
                if t % (2 * s) == 0 {
                    vstd::arithmetic::div_mod::lemma_fundamental_div_mod(t, 2 * s);
                    let h = t / (2 * s);
                    assert(t == s * (2 * h)) by (nonlinear_arith)
                        requires
                            t == (2 * s) * h + t % (2 * s),
                            t % (2 * s) == 0,
                    ;
                    lemma_is_multiple(t, s, 2 * h);
                }
            }
            assert(trace_target(p, i)[t] == 0);
        }
    }
}


/// One coefficient of one step of the trace: when the previous phase `qt`
/// is within `b` of the kept value `tpt`, its substitution `evq` within `b`
/// of the substituted kept value `evt`, the switched substitution `sv` is
/// `evq` plus an error `ke` of magnitude at most `ksb`, and the kept values
/// add up to `ti`, the new phase `av` is within `2 b + ksb` of `ti`.
proof fn lemma_step_arith(qt: u64, tpt: u64, evq: u64, evt: u64, sv: u64, ke: int, ti: u64, av: u64, b: int, ksb: int)
    requires
        signed_abs(wrap(qt - tpt)) <= b,
        signed_abs(wrap(evq - evt)) <= b,
        (sv as int) % word_modulus() == (evq + ke) % word_modulus(),
        -ksb <= ke <= ksb,
        ((tpt + evt) as int) % word_modulus() == (ti as int) % word_modulus(),
        av == wrap(qt + sv),
        0 <= b,
        2 * b + ksb < 0x4000_0000_0000_0000,
    ensures
        signed_abs(wrap(av - ti)) <= 2 * b + ksb,
{
    let w = word_modulus();
    let x1 = wrap(qt - tpt);
    let x2 = wrap(evq - evt);
    let e1 = signed(x1);
    let e2 = signed(x2);
    lemma_signed_abs(x1);
    lemma_signed_abs(x2);
    lemma_signed_mod(x1);
    lemma_signed_mod(x2);
    lemma_mod_sub(qt as int, tpt as int);
    lemma_mod_sub(evq as int, evt as int);
    lemma_cong_add(e1, qt - tpt, tpt as int, tpt as int);
    lemma_cong_add(e2, evq - evt, evt as int, evt as int);
    assert(qt - tpt + tpt == qt as int);
    assert(evq - evt + evt == evq as int);
    lemma_cong_add(evq as int, e2 + evt, ke, ke);
    lemma_mod_sub(qt + sv, 0);
    lemma_cong_add(qt as int, e1 + tpt, sv as int, e2 + evt + ke);
    let e = e1 + e2 + ke;
    assert(e1 + tpt + (e2 + evt + ke) == (tpt + evt) + e);
    lemma_cong_add(tpt + evt, ti as int, e, e);
    lemma_cong_sub(av as int, ti + e, ti as int, ti as int);
    assert(ti + e - ti == e);
    lemma_mod_sub(av as int, ti as int);
    assert(wrap(av - ti) == wrap(e));
    lemma_signed_abs_wrap(e);
}

/// Step `i` of the trace: when the ciphertext after `i - 1` steps is within
/// `b` of `trace_target(phase, i - 1)`, the ciphertext after `i` steps is
/// within `2 b + ks_bound` of `trace_target(phase, i)`.
#[verifier::spinoff_prover]
#[verifier::rlimit(40)]
proof fn lemma_trace_step(
    m: Map<usize, RLWEKeyswitchKey>,
    log_n: nat,
    mask: Seq<u64>,
    body: Seq<u64>,
    sk: Seq<u64>,
    base_log: usize,
    level_count: usize,
    modulus: u128,
    i: nat,
    b: int,
)
    requires
        sk.len() == pow2(log_n),
        sk.len() <= usize::MAX,
        is_binary(sk),
        is_native(modulus),
        trace_keys(m, sk.len() as usize),
        trace_keys_encrypt(m, sk.len() as usize, sk, base_log, level_count, modulus),
        trace_step_ok(m, sk.len() as usize, mask, body, i),
        1 <= i <= log_n,
        trace_acc(m, sk.len() as usize, mask, body, (i - 1) as nat).0.len() == sk.len(),
        trace_acc(m, sk.len() as usize, mask, body, (i - 1) as nat).1.len() == sk.len(),
        mask.len() == sk.len(),
        body.len() == sk.len(),
        column_within(
            sk,
            trace_acc(m, sk.len() as usize, mask, body, (i - 1) as nat),
            trace_target(phase(sk, mask, body), (i - 1) as nat),
            b,
        ),
        0 <= b,
        2 * b + ks_bound(sk.len() as int, base_log, level_count) < 0x4000_0000_0000_0000,
    ensures
        trace_acc(m, sk.len() as usize, mask, body, i).0.len() == sk.len(),
        trace_acc(m, sk.len() as usize, mask, body, i).1.len() == sk.len(),
        column_within(
            sk,
            trace_acc(m, sk.len() as usize, mask, body, i),
            trace_target(phase(sk, mask, body), i),
            2 * b + ks_bound(sk.len() as int, base_log, level_count),
        ),
{
    let n = sk.len() as usize;
    let nn = n as int;
    let p = phase(sk, mask, body);
    let prev = trace_acc(m, n, mask, body, (i - 1) as nat);
    let ksb = ks_bound(nn, base_log, level_count);
    let ell = (log_n - i + 1) as nat;
    let pe = pow2(ell) as int;
    let kk = pe + 1;
    let tk = trace_k(n as nat, i);
    crate::poly::lemma_floor_log2_pow2(log_n);
    assert(subs_key_ok(m, tk, n));
    assert(subs_key_encrypts(m, sk, base_log, level_count, modulus, tk));
    vstd::arithmetic::power2::lemma_pow2_subtracts((i - 1) as nat, log_n);
    assert(((log_n - (i - 1) as nat) as nat) == ell);
    assert(tk == kk);
    let ksk = m[tk as usize];
    assert(ksk.subs_k == kk);
    vstd::arithmetic::power2::lemma_pow2_pos(ell);
    vstd::arithmetic::power2::lemma_pow2_unfold(ell);
    assert(kk % 2 == 1) by {
        vstd::arithmetic::div_mod::lemma_mod_multiples_vanish(pow2((ell - 1) as nat) as int, 1, 2);
    }
    let q = phase(sk, prev.0, prev.1);
    let ev_sk = eval_x_k_spec(sk, kk);
    let sub = (subs_mask(ksk, prev.0), subs_body(ksk, prev.0, prev.1));
    crate::keyswitch::lemma_ks_acc_len(
        ksk.ksks@,
        ksk.decomp_base_log,
        ksk.decomp_level_count,
        crate::rgsw::rounded_poly(ksk.decomp_base_log, ksk.decomp_level_count, eval_x_k_spec(prev.0, kk)),
        crate::poly::zero_poly(ksk.polynomial_size as nat),
        ksk.decomp_level_count as int,
        false,
    );
    crate::keyswitch::lemma_ks_acc_len(
        ksk.ksks@,
        ksk.decomp_base_log,
        ksk.decomp_level_count,
        crate::rgsw::rounded_poly(ksk.decomp_base_log, ksk.decomp_level_count, eval_x_k_spec(prev.0, kk)),
        eval_x_k_spec(prev.1, kk),
        ksk.decomp_level_count as int,
        true,
    );
    assert(phase(sk, sub.0, sub.1) == ks_phase(
        ksk.ksks@,
        base_log,
        level_count,
        eval_x_k_spec(prev.0, kk),
        eval_x_k_spec(prev.1, kk),
        sk,
        ev_sk,
    ));
    crate::ring::lemma_eval_x_k_binary_ternary(sk, log_n, kk);
    assert forall|jj: int| 0 <= jj < ev_sk.len() implies #[trigger] ternary_noise(ev_sk[jj]) by {
        let c = ev_sk[jj];
        assert(c == 0 || c == 1 || c == u64::MAX);
    }
    lemma_keyswitch_noise(ksk.ksks@, base_log, level_count, eval_x_k_spec(prev.0, kk), eval_x_k_spec(prev.1, kk), sk, ev_sk);
    crate::ring::lemma_eval_x_k_phase(sk, prev.0, prev.1, kk);
    assert(phase(ev_sk, eval_x_k_spec(prev.0, kk), eval_x_k_spec(prev.1, kk)) == eval_x_k_spec(q, kk));
    lemma_phase_of_sum(sk, prev.0, prev.1, sub.0, sub.1);
    let acc = trace_acc(m, n, mask, body, i);
    assert(acc == (seq_add(prev.0, sub.0), seq_add(prev.1, sub.1)));
    let tp = trace_target(p, (i - 1) as nat);
    assert forall|t: int| 0 <= t < nn implies signed_abs(#[trigger] wrap(q[t] - tp[t])) <= b by {
        assert(signed_abs(wrap(phase(sk, prev.0, prev.1)[t] - tp[t])) <= b);
    }
    lemma_eval_close(q, tp, log_n, kk, b);
    lemma_trace_target_step(p, log_n, i);
    assert forall|t: int| 0 <= t < nn implies signed_abs(
        #[trigger] wrap(phase(sk, acc.0, acc.1)[t] - trace_target(p, i)[t]),
    ) <= 2 * b + ksb by {
        let ke = crate::noise::ks_error(ksk.ksks@, base_log, level_count, eval_x_k_spec(prev.0, kk), sk, ev_sk, t);
        assert(kk == (pow2((log_n - i + 1) as nat) + 1) as int);
        assert(eval_x_k_spec(tp, (pow2((log_n - i + 1) as nat) + 1) as int)[t] == eval_x_k_spec(tp, kk)[t]);
        assert(((tp[t] + eval_x_k_spec(tp, kk)[t]) as int) % word_modulus() == (trace_target(p, i)[t] as int)
            % word_modulus());
        lemma_step_arith(
            q[t],
            tp[t],
            eval_x_k_spec(q, kk)[t],
            eval_x_k_spec(tp, kk)[t],
            phase(sk, sub.0, sub.1)[t],
            ke,
            trace_target(p, i)[t],
            phase(sk, acc.0, acc.1)[t],
            b,
            ksb,
        );
    }
}

/// After `i` steps of the trace of `(mask, body)` with keys that switch the
/// substituted binary key `sk` back to `sk`, the phase under `sk` is
/// `trace_target(phase, i)` up to signed errors of magnitude at most
/// `(2^i - 1)` times the bound of one key switching.
pub proof fn lemma_trace_within(
    m: Map<usize, RLWEKeyswitchKey>,
    log_n: nat,
    mask: Seq<u64>,
    body: Seq<u64>,
    sk: Seq<u64>,
    base_log: usize,
    level_count: usize,
    modulus: u128,
    i: nat,
)
    requires
        sk.len() == pow2(log_n),
        sk.len() <= usize::MAX,
        is_binary(sk),
        is_native(modulus),
        mask.len() == sk.len(),
        body.len() == sk.len(),
        trace_keys(m, sk.len() as usize),
        trace_keys_encrypt(m, sk.len() as usize, sk, base_log, level_count, modulus),
        forall|i2: nat| 1 <= i2 <= log_n ==> #[trigger] trace_step_ok(m, sk.len() as usize, mask, body, i2),
        i <= log_n,
        (pow2(log_n) - 1) * ks_bound(sk.len() as int, base_log, level_count) < 0x4000_0000_0000_0000,
    ensures
        trace_acc(m, sk.len() as usize, mask, body, i).0.len() == sk.len(),
        trace_acc(m, sk.len() as usize, mask, body, i).1.len() == sk.len(),
        column_within(
            sk,
            trace_acc(m, sk.len() as usize, mask, body, i),
            trace_target(phase(sk, mask, body), i),
            (pow2(i) - 1) * ks_bound(sk.len() as int, base_log, level_count),
        ),
    decreases i,
{
    let n = sk.len() as usize;
    let nn = n as int;
    let w = word_modulus();
    let p = phase(sk, mask, body);
    let ksb = ks_bound(nn, base_log, level_count);
    vstd::arithmetic::power2::lemma_pow2_pos(log_n);
    if i == 0 {
        vstd::arithmetic::power2::lemma2_to64();
        let acc = trace_acc(m, n, mask, body, 0);
        assert forall|t: int| 0 <= t < nn implies signed_abs(
            #[trigger] wrap(phase(sk, acc.0, acc.1)[t] - trace_target(p, 0)[t]),
        ) <= (pow2(0) - 1) * ksb by {
            assert(t % 1 == 0);
            assert(1 * p[t] == p[t]);
            vstd::arithmetic::div_mod::lemma_small_mod(p[t] as nat, w as nat);
            assert(trace_target(p, 0)[t] == p[t]);
            lemma_mod_sub(p[t] as int, p[t] as int);
            vstd::arithmetic::div_mod::lemma_small_mod(0, w as nat);
        }
    } else {
        lemma_trace_within(m, log_n, mask, body, sk, base_log, level_count, modulus, (i - 1) as nat);
        let b = (pow2((i - 1) as nat) - 1) * ksb;
        vstd::arithmetic::power2::lemma_pow2_unfold(i);
        vstd::arithmetic::power2::lemma_pow2_pos((i - 1) as nat);
        if i < log_n {
            vstd::arithmetic::power2::lemma_pow2_strictly_increases(i, log_n);
        }
        vstd::arithmetic::power2::lemma_pow2_pos((64 - base_log * level_count) as nat);
        vstd::arithmetic::power2::lemma_pow2_pos((base_log - 1) as nat);
        assert(0 <= ksb) by (nonlinear_arith)
            requires
                ksb == nn * (pow2((64 - base_log * level_count) as nat) / 2) + level_count * (nn * pow2(
                    (base_log - 1) as nat,
                )),
                nn > 0,
                pow2((base_log - 1) as nat) > 0,
        ;
        assert(0 <= b && (pow2(i) - 1) * ksb == 2 * b + ksb && (pow2(i) - 1) * ksb <= (pow2(log_n) - 1) * ksb)
            by (nonlinear_arith)
            requires
                b == (pow2((i - 1) as nat) - 1) * ksb,
                pow2(i) == 2 * pow2((i - 1) as nat),
                pow2((i - 1) as nat) >= 1,
                pow2(i) <= pow2(log_n),
                ksb >= 0,
        ;
        lemma_trace_step(m, log_n, mask, body, sk, base_log, level_count, modulus, i, b);
    }
}

/// The trace keeps `N` times the constant coefficient and cancels the
/// others: the phase under `sk` of the trace of `(mask, body)` (what
/// `trace1` returns, with the keys of `gen_all_subs_ksk` for `sk`) is `N`
/// times the constant coefficient of the phase of `(mask, body)` at the
/// constant coefficient and zero elsewhere, up to signed errors of magnitude
/// at most `N - 1` times the bound of one key switching.
pub proof fn lemma_trace_keeps_constant(
    m: Map<usize, RLWEKeyswitchKey>,
    log_n: nat,
    mask: Seq<u64>,
    body: Seq<u64>,
    sk: Seq<u64>,
    base_log: usize,
    level_count: usize,
    modulus: u128,
)
    requires
        sk.len() == pow2(log_n),
        sk.len() <= usize::MAX,
        is_binary(sk),
        is_native(modulus),
        mask.len() == sk.len(),
        body.len() == sk.len(),
        trace_keys(m, sk.len() as usize),
        trace_keys_encrypt(m, sk.len() as usize, sk, base_log, level_count, modulus),
        forall|i2: nat| 1 <= i2 <= log_n ==> #[trigger] trace_step_ok(m, sk.len() as usize, mask, body, i2),
        (pow2(log_n) - 1) * ks_bound(sk.len() as int, base_log, level_count) < 0x4000_0000_0000_0000,
    ensures
        column_within(
            sk,
            trace_acc(m, sk.len() as usize, mask, body, log_n),
            Seq::new(
                sk.len(),
                |t: int|
                    if t == 0 {
                        wrap(sk.len() * phase(sk, mask, body)[0])
                    } else {
                        0u64
                    },
            ),
            (sk.len() - 1) * ks_bound(sk.len() as int, base_log, level_count),
        ),
{
    let n = sk.len() as int;
    lemma_trace_within(m, log_n, mask, body, sk, base_log, level_count, modulus, log_n);
    let p = phase(sk, mask, body);
    assert(trace_target(p, log_n) =~= Seq::new(
        sk.len(),
        |t: int|
            if t == 0 {
                wrap(sk.len() * p[0])
            } else {
                0u64
            },
    )) by {
        assert forall|t: int| 0 <= t < n implies #[trigger] trace_target(p, log_n)[t] == (if t == 0 {
            wrap(sk.len() * p[0])
        } else {
            0u64
        }) by {
            if t == 0 {
                vstd::arithmetic::div_mod::lemma_small_mod(0, n as nat);
            } else {
                vstd::arithmetic::div_mod::lemma_small_mod(t as nat, n as nat);
            }
        }
    }
}

} // verus!
