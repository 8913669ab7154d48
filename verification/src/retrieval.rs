//! What a row read of the ORAM gives back: the rotation by the read query,
//! the packing of the columns and the decoding together return the row.
use vstd::prelude::*;

use crate::backend::{binary_noise, is_native, ternary_noise, valid_decomposition};
use crate::codec::{decode_spec, delta_of, encode_spec, poly_decode_spec, poly_encode_spec};
use crate::keyswitch::{subs_key_encrypts, subs_key_ok, trace_k, trace_keys, trace_keys_encrypt, RLWEKeyswitchKey};
use crate::noise::{ext_prod_err, lemma_decode_signed, lemma_ext_prod_noise, lemma_signed_mod, lemma_signed_wrap, rounding_bound, signed};
use crate::oram::{
    fwd_degree, lemma_strided_entries, lemma_strided_len, pack_first_err, pack_keys, recovered, rotated_cols, rotation_facts,
    strided_view, transposed_pt,
};
use crate::packing::{ks_bound, lemma_pack_err_bound, pack_digits_ok, pack_keys_encrypt, pack_subs_ok};
use crate::poly::{eval_x_k_spec, floor_log2, monomial, rotate, rotate_flips, rotate_source, word_modulus, wrap};
use crate::rgsw::{ext_prod_phase, lemma_ext_prod_acc_len, lemma_rgsw_row_errors_binary, RGSWCiphertext};
use crate::ring::{lemma_cong_add, lemma_cong_scale, lemma_mod_sub};
use crate::rlwe::{encrypts_with_binary_noise, is_binary, phase, rgsw_encrypts_poly, signed_abs, RLWECiphertext};
use crate::update::{column_within, db_with_row};
use vstd::arithmetic::power2::pow2;

verus! {

/// Column `q` of a database of rows of `n` words, as the message of its
/// ciphertext: entry `k` is `db[k * n + q]` for each full row `k`, zero after.
pub open spec fn column_msg(db: Seq<u64>, n: nat, q: int) -> Seq<u64> {
    Seq::new(n, |k: int| if k < db.len() / n { db[k * n + q] } else { 0u64 })
}

/// The rotation by `X^((n - row) mod n)` brings coefficient `row` to the
/// front, negated when `row != 0`.
pub proof fn lemma_rotate_to_front(x: Seq<u64>, row: int)
    requires
        0 <= row < x.len(),
    ensures
        rotate(x, fwd_degree(x.len(), row), false)[0] == if row == 0 {
            x[0]
        } else {
            wrap(-x[row])
        },
{
    let n = x.len() as int;
    let f = fwd_degree(x.len(), row);
    if row == 0 {
        vstd::arithmetic::div_mod::lemma_mod_self_0(n);
        assert(f == 0);
        vstd::arithmetic::div_mod::lemma_small_mod(0, n as nat);
        assert(rotate_source(n, f, 0) == 0) by {
            vstd::arithmetic::div_mod::lemma_mod_self_0(n);
        }
        assert(!rotate_flips(n, f, 0, false)) by {
            assert((0 + f) / n == 0);
        }
    } else {
        vstd::arithmetic::div_mod::lemma_small_mod((n - row) as nat, n as nat);
        assert(f == n - row);
        assert(rotate_source(n, f, 0) == row) by {
            vstd::arithmetic::div_mod::lemma_small_mod((n - row) as nat, n as nat);
            vstd::arithmetic::div_mod::lemma_small_mod(row as nat, n as nat);
        }
        assert(rotate_flips(n, f, row, false)) by {
            vstd::arithmetic::div_mod::lemma_div_by_self(n);
        }
    }
}

/// Negating the encoding of `v` gives the encoding of `(t - v) mod t`, and
/// negating that value and reducing modulo `t` gives `v` back.
proof fn lemma_negated_encoding(log_t: nat, v: u64)
    requires
        1 <= log_t <= 62,
        v < pow2(log_t),
    ensures
        ((pow2(log_t) - v) % (pow2(log_t) as int)) < pow2(log_t),
        (encode_spec(log_t, ((pow2(log_t) - v) % (pow2(log_t) as int)) as u64) as int) % word_modulus() == (-(v
            * delta_of(log_t))) % word_modulus(),
        (wrap(-(((pow2(log_t) - v) % (pow2(log_t) as int)) as u64)) as int) % (pow2(log_t) as int) == v,
{
    let t = pow2(log_t) as int;
    let d = delta_of(log_t) as int;
    let w = word_modulus();
    crate::codec::lemma_delta_bounds(log_t);
    vstd::arithmetic::power2::lemma_pow2_pos(log_t);
    assert(d * t == w);
    assert(t < w) by (nonlinear_arith)
        requires
            d * t == w,
            d >= 4,
            t > 0,
    ;
    if v == 0 {
        vstd::arithmetic::div_mod::lemma_mod_self_0(t);
        assert((t - v) % t == 0);
        assert(encode_spec(log_t, 0) == 0) by {
            vstd::arithmetic::div_mod::lemma_small_mod(0, w as nat);
        }
        assert(wrap(-0) == 0);
        vstd::arithmetic::div_mod::lemma_small_mod(0, t as nat);
    } else {
        vstd::arithmetic::div_mod::lemma_small_mod((t - v) as nat, t as nat);
        let u = t - v;
        assert(0 <= u * d < w) by (nonlinear_arith)
            requires
                0 < u < t,
                d > 0,
                d * t == w,
        ;
        vstd::arithmetic::div_mod::lemma_small_mod((u * d) as nat, w as nat);
        assert(encode_spec(log_t, u as u64) == u * d);
        assert(u * d == w - v * d) by (nonlinear_arith)
            requires
                u == t - v,
                d * t == w,
        ;
        vstd::arithmetic::div_mod::lemma_mod_add_multiples_vanish(-(v * d), w);
        vstd::arithmetic::div_mod::lemma_small_mod((w - u) as nat, w as nat);
        assert(wrap(-u) == w - u) by {
            vstd::arithmetic::div_mod::lemma_mod_add_multiples_vanish(-u, w);
        }
        assert(w - u == t * (d - 1) + v) by (nonlinear_arith)
            requires
                u == t - v,
                d * t == w,
        ;
        vstd::arithmetic::div_mod::lemma_mod_multiples_vanish(d - 1, v as int, t);
        vstd::arithmetic::div_mod::lemma_small_mod(v as nat, t as nat);
    }
}


/// The largest error of the read of a row from a database of `n`-word rows
/// whose columns have errors of magnitude at most `e0`: `n` times the error
/// of the external product of a column (its own error plus the rounding and
/// the product noise) plus the errors of the `n - 1` key switchings of the
/// packing.
pub open spec fn read_noise_bound(
    e0: int,
    n: int,
    base_log: usize,
    level_count: usize,
    ks_base_log: usize,
    ks_level_count: usize,
) -> int {
    n * ext_read_bound(e0, n, base_log, level_count) + (n - 1) * ks_bound(n, ks_base_log, ks_level_count)
}

/// The largest error of the external product of one column (of error at
/// most `e0`) with the read query: `e0`, the rounding and the product noise.
pub open spec fn ext_read_bound(e0: int, n: int, base_log: usize, level_count: usize) -> int {
    e0 + rounding_bound(n, base_log, level_count) + level_count * (2 * (n * pow2((base_log - 1) as nat)))
}

/// The external product of column `q` with the read query of `row` has at
/// its constant coefficient the scaled entry `db[row * n + q]`, negated when
/// `row != 0`, up to an error `e` of magnitude at most `ext_read_bound`.
#[verifier::spinoff_prover]
#[verifier::rlimit(40)]
proof fn lemma_column_front(
    sk: Seq<u64>,
    db: Seq<u64>,
    log_n: nat,
    log_t: nat,
    delta: u64,
    data: Seq<RLWECiphertext>,
    g: RGSWCiphertext,
    row: int,
    q: int,
    e0: int,
) -> (e: int)
    requires
        sk.len() == pow2(log_n),
        is_binary(sk),
        1 <= log_t,
        log_t + log_n <= 62,
        delta == pow2((64 - log_t - log_n) as nat),
        forall|i: int| 0 <= i < db.len() ==> #[trigger] db[i] < pow2(log_t),
        0 <= row < db.len() / sk.len(),
        row < sk.len(),
        0 <= q < sk.len(),
        data.len() == sk.len(),
        data[q].mask.len() == sk.len(),
        data[q].body.len() == sk.len(),
        column_within(sk, (data[q].mask@, data[q].body@), transposed_pt(db, delta, sk.len(), q), e0),
        0 <= e0,
        g.wf(),
        g.poly_size == sk.len(),
        rgsw_encrypts_poly(sk, g, g.base_log, monomial(sk.len(), fwd_degree(sk.len(), row), false)),
        rotation_facts(data, g),
        ext_read_bound(e0, sk.len() as int, g.base_log, g.level_count) < 0x4000_0000_0000_0000,
    ensures
        0 <= row * sk.len() + q < db.len(),
        -ext_read_bound(e0, sk.len() as int, g.base_log, g.level_count) <= e <= ext_read_bound(
            e0,
            sk.len() as int,
            g.base_log,
            g.level_count,
        ),
        (phase(sk, rotated_cols(data, g)[q].0, rotated_cols(data, g)[q].1)[0] as int) % word_modulus() == ((if row
            == 0 {
            1int
        } else {
            -1int
        }) * (db[row * sk.len() + q] * delta) + e) % word_modulus(),
{
    let n = sk.len() as int;
    let w = word_modulus();
    let bits = log_t + log_n;
    let bl = g.base_log;
    let lc = g.level_count;
    let f = fwd_degree(n as nat, row);
    let p = monomial(n as nat, f, false);
    let cols = rotated_cols(data, g);
    let cm = column_msg(db, n as nat, q);
    let a = data[q].mask@;
    let b = data[q].body@;
    let rows = db.len() / (n as nat);
    vstd::arithmetic::power2::lemma_pow2_pos(log_n);
    crate::codec::lemma_delta_bounds(bits);
    let dc = delta_of(bits) as int;
    assert(delta == dc);
    assert(0 <= row * n + q < db.len()) by (nonlinear_arith)
        requires
            0 <= row < rows,
            rows == db.len() / (n as nat),
            0 <= q < n,
            n > 0,
    {
        vstd::arithmetic::div_mod::lemma_fundamental_div_mod(db.len() as int, n);
    }
    assert(0 <= f < n) by {
        vstd::arithmetic::div_mod::lemma_mod_bound(n - row, n);
    }
    assert forall|k: int| 0 <= k < n implies signed_abs(
        #[trigger] wrap(phase(sk, a, b)[k] - encode_spec(bits, cm[k])),
    ) <= e0 by {
        if k < rows {
            let x = db[k * n + q];
            assert(delta * x == x * dc) by (nonlinear_arith)
                requires
                    delta == dc,
            ;
        } else {
            assert(0 * dc == 0);
        }
        assert(transposed_pt(db, delta, n as nat, q)[k] == encode_spec(bits, cm[k]));
        let col = (data[q].mask@, data[q].body@);
        assert(signed_abs(wrap(phase(sk, col.0, col.1)[k] - transposed_pt(db, delta, n as nat, q)[k])) <= e0);
    }
    assert forall|i: int| 0 <= i < n implies #[trigger] ternary_noise(sk[i]) by {
        assert(sk[i] <= 1);
    }
    lemma_rgsw_row_errors_binary(sk, g, p);
    assert forall|i: int, tt: int|
        0 <= i < n && 0 <= tt < lc implies #[trigger] crate::backend::digit_in_range(
        bl,
        crate::backend::signed_decomposition(bl, lc, a[i])[tt],
    ) && crate::backend::digit_in_range(bl, crate::backend::signed_decomposition(bl, lc, b[i])[tt]) by {
        assert(crate::backend::digit_in_range(bl, crate::backend::signed_decomposition(bl, lc, data[q].mask@[i])[tt]));
    }
    lemma_ext_prod_noise(g.data@, n, bl, lc, a, b, sk, f, false, bits, cm, e0);
    let encm = poly_encode_spec(bits, cm);
    let ep = ext_prod_phase(g.data@, n, bl, lc, a, b, sk, p);
    let e = ext_prod_err(g.data@, n, bl, lc, a, b, sk, f, false, bits, cm, 0);
    assert(ep[0] == wrap(rotate(encm, f, false)[0] + e));
    assert(phase(sk, cols[q].0, cols[q].1) == ep);
    lemma_rotate_to_front(encm, row);
    let v = db[row * n + q];
    assert(cm[row] == v);
    let t = pow2(log_t) as int;
    vstd::arithmetic::power2::lemma_pow2_adds(log_t, (64 - bits) as nat);
    assert((log_t + (64 - bits) as nat) as nat == (64 - log_n) as nat);
    vstd::arithmetic::power2::lemma_pow2_pos((64 - log_n) as nat);
    if log_n > 0 {
        vstd::arithmetic::power2::lemma_pow2_strictly_increases((64 - log_n) as nat, 64);
    }
    vstd::arithmetic::power2::lemma2_to64();
    assert(0 <= v * dc < w) by (nonlinear_arith)
        requires
            0 <= v < t,
            t * dc == pow2((64 - log_n) as nat),
            pow2((64 - log_n) as nat) <= w,
            dc > 0,
    ;
    vstd::arithmetic::div_mod::lemma_small_mod((v * dc) as nat, w as nat);
    assert(encm[row] == v * dc);
    let rot0 = rotate(encm, f, false)[0];
    lemma_mod_sub(rot0 + e, 0);
    if row != 0 {
        lemma_mod_sub(0, v * dc);
        lemma_cong_add(rot0 as int, -(v * dc), e, e);
    }
    e
}


/// The substitutions of the packing of the `n` rotated columns add an error
/// of magnitude at most `n - 1` times the bound of one key switching.
proof fn lemma_read_pack_err(
    sk: Seq<u64>,
    log_n: nat,
    data: Seq<RLWECiphertext>,
    g: RGSWCiphertext,
    m: Map<usize, RLWEKeyswitchKey>,
    ks_base_log: usize,
    ks_level_count: usize,
    q: int,
)
    requires
        sk.len() == pow2(log_n),
        0 <= q < sk.len(),
        data.len() == sk.len(),
        g.poly_size == sk.len(),
        valid_decomposition(ks_base_log, ks_level_count),
        pack_keys(m, g.poly_size, log_n),
        pack_subs_ok(m, log_n),
        pack_keys_encrypt(m, log_n, sk, ks_base_log, ks_level_count),
        pack_digits_ok(m, log_n, log_n, 0, strided_view(rotated_cols(data, g), sk.len(), 1, sk.len() as int)),
    ensures
        -((sk.len() - 1) * ks_bound(sk.len() as int, ks_base_log, ks_level_count)) <= pack_first_err(
            m,
            g.poly_size,
            rotated_cols(data, g),
            sk,
            q,
        ) <= (sk.len() - 1) * ks_bound(sk.len() as int, ks_base_log, ks_level_count),
{
    let n = sk.len() as int;
    let cols = rotated_cols(data, g);
    vstd::arithmetic::power2::lemma_pow2_pos(log_n);
    crate::poly::lemma_floor_log2_pow2(log_n);
    vstd::arithmetic::div_mod::lemma_div_by_self(n);
    let strided = strided_view(cols, n as nat, 1, n);
    assert(pack_first_err(m, g.poly_size, cols, sk, q) == crate::packing::pack_err(m, log_n, log_n, 0, strided, sk, q));
    lemma_strided_len(cols, n as nat, 1, n);
    assert forall|k: int| 0 <= k < n implies (#[trigger] cols[k]).0.len() == n && cols[k].1.len() == n by {
        lemma_ext_prod_acc_len(g.data@, n, g.base_log, g.level_count, data[k].mask@, data[k].body@, g.level_count as int, false);
        lemma_ext_prod_acc_len(g.data@, n, g.base_log, g.level_count, data[k].mask@, data[k].body@, g.level_count as int, true);
    }
    lemma_strided_entries(cols, n as nat, 1, n);
    vstd::arithmetic::power2::lemma2_to64();
    assert(crate::oram::pack_span(log_n, log_n) == n - 1);
    lemma_pack_err_bound(m, log_n, log_n, 0, strided, sk, q, ks_base_log, ks_level_count);
}

/// The decoding of the answer at a slot: when the constant coefficient of
/// the rotated column is `+-(v * delta) + e` and the slot holds `n` times
/// it plus `pe`, with `n * delta` the scaling factor of `log_t` bits and
/// `n * e + pe` below half of it, the decoded value gives `v` back (after
/// undoing the sign when the rotation negated it).
proof fn lemma_read_decode(log_t: nat, n: int, delta: int, v: u64, negated: bool, ep0: u64, e: int, pe: int, ph: u64)
    requires
        1 <= log_t <= 62,
        n >= 1,
        n * delta == delta_of(log_t),
        v < pow2(log_t),
        (ep0 as int) % word_modulus() == ((if negated {
            -1int
        } else {
            1int
        }) * (v * delta) + e) % word_modulus(),
        (ph as int) % word_modulus() == (n * ep0 + pe) % word_modulus(),
        -(delta_of(log_t) / 2) < n * e + pe < delta_of(log_t) / 2,
    ensures
        (if negated {
            (wrap(-decode_spec(log_t, ph)) as int) % (pow2(log_t) as int)
        } else {
            (decode_spec(log_t, ph) as int) % (pow2(log_t) as int)
        }) == v,
{
    let w = word_modulus();
    let t = pow2(log_t) as int;
    let sg: int = if negated {
        -1
    } else {
        1
    };
    crate::codec::lemma_delta_bounds(log_t);
    vstd::arithmetic::power2::lemma_pow2_pos(log_t);
    let etot = n * e + pe;
    lemma_cong_scale(n, ep0 as int, sg * (v * delta) + e);
    lemma_cong_add(n * ep0, n * (sg * (v * delta) + e), pe, pe);
    assert(n * (sg * (v * delta) + e) + pe == sg * (v * delta_of(log_t)) + etot) by (nonlinear_arith)
        requires
            etot == n * e + pe,
            n * delta == delta_of(log_t),
    ;
    assert(0 <= v * delta_of(log_t) < w) by (nonlinear_arith)
        requires
            0 <= v < t,
            delta_of(log_t) * t == w,
            delta_of(log_t) > 0,
    ;
    vstd::arithmetic::div_mod::lemma_small_mod((v * delta_of(log_t)) as nat, w as nat);
    assert(encode_spec(log_t, v) == v * delta_of(log_t));
    let vv: u64 = if negated {
        ((t - v) % t) as u64
    } else {
        v
    };
    if negated {
        lemma_negated_encoding(log_t, v);
        assert(sg * (v * delta_of(log_t)) == -(v * delta_of(log_t))) by (nonlinear_arith)
            requires
                sg == -1,
        ;
    } else {
        assert(sg * (v * delta_of(log_t)) == v * delta_of(log_t)) by (nonlinear_arith)
            requires
                sg == 1,
        ;
    }
    assert((sg * (v * delta_of(log_t))) % w == (encode_spec(log_t, vv) as int) % w);
    lemma_cong_add(sg * (v * delta_of(log_t)), encode_spec(log_t, vv) as int, etot, etot);
    vstd::arithmetic::div_mod::lemma_small_mod(ph as nat, w as nat);
    assert(ph == wrap(encode_spec(log_t, vv) + etot));
    lemma_decode_signed(log_t, vv, etot);
    if !negated {
        vstd::arithmetic::div_mod::lemma_small_mod(v as nat, t as nat);
    }
}

/// The error at the front of the rotated column `q` of a read of `row`: the
/// constant coefficient of the phase of the column after the external
/// product with the read query, minus the scaled entry `db[row * n + q]`
/// (negated when `row != 0`), as a signed word.
pub open spec fn read_front_err(
    sk: Seq<u64>,
    db: Seq<u64>,
    delta: u64,
    data: Seq<RLWECiphertext>,
    g: RGSWCiphertext,
    row: int,
    q: int,
) -> int {
    let ep0 = phase(sk, rotated_cols(data, g)[q].0, rotated_cols(data, g)[q].1)[0];
    let v = db[row * sk.len() + q];
    signed(wrap(ep0 - (if row == 0 {
        1int
    } else {
        -1int
    }) * (v * delta)))
}

/// Reading a row gives it back. Let `db` be a database of rows of
/// `n = 2^log_n` words below `2^log_t`, held in the columns `data` scaled by
/// `delta = 2^(64 - log_t - log_n)`, let `g` be the read query of `row`,
/// and let `(r_mask, r_body)` be what `read_full_row_rotpack_cdks` answers,
/// with the phase it states at slot `q`: `n` times the front of the rotated
/// column `q` plus the error of the packing. Whenever the error accumulated
/// at slot `q`, `n` times the front error of the column plus the packing
/// error, lies strictly within half of `2^(64 - log_t)`, decoding the answer
/// with `log_t` bits and recovering the row gives entry `q` of row `row`.
/// This holds whatever the columns are (as encrypted, or as row writes
/// left them) and whatever the keys are.
pub proof fn lemma_row_read_recovers(
    sk: Seq<u64>,
    db: Seq<u64>,
    log_n: nat,
    log_t: nat,
    delta: u64,
    data: Seq<RLWECiphertext>,
    g: RGSWCiphertext,
    row: int,
    m: Map<usize, RLWEKeyswitchKey>,
    r_mask: Seq<u64>,
    r_body: Seq<u64>,
    q: int,
)
    requires
        sk.len() == pow2(log_n),
        1 <= log_t,
        log_t + log_n <= 62,
        delta == pow2((64 - log_t - log_n) as nat),
        forall|i: int| 0 <= i < db.len() ==> #[trigger] db[i] < pow2(log_t),
        0 <= row < db.len() / sk.len(),
        0 <= q < sk.len(),
        r_mask.len() == sk.len(),
        r_body.len() == sk.len(),
        (phase(sk, r_mask, r_body)[q] as int) % word_modulus() == (sk.len() * phase(
            sk,
            rotated_cols(data, g)[q].0,
            rotated_cols(data, g)[q].1,
        )[0] + pack_first_err(m, g.poly_size, rotated_cols(data, g), sk, q)) % word_modulus(),
        -(delta_of(log_t) / 2) < sk.len() * read_front_err(sk, db, delta, data, g, row, q) + pack_first_err(
            m,
            g.poly_size,
            rotated_cols(data, g),
            sk,
            q,
        ) < delta_of(log_t) / 2,
    ensures
        recovered(poly_decode_spec(log_t, phase(sk, r_mask, r_body)), row, pow2(log_t) as u64)[q] == db[row * sk.len()
            + q],
{
    let n = sk.len() as int;
    let w = word_modulus();
    let rows = db.len() / (n as nat);
    vstd::arithmetic::power2::lemma_pow2_pos(log_n);
    vstd::arithmetic::power2::lemma_pow2_pos(log_t);
    assert(0 <= row * n + q < db.len()) by (nonlinear_arith)
        requires
            0 <= row < rows,
            rows == db.len() / (n as nat),
            0 <= q < n,
            n > 0,
    {
        vstd::arithmetic::div_mod::lemma_fundamental_div_mod(db.len() as int, n);
    }
    let v = db[row * n + q];
    let sg: int = if row == 0 {
        1
    } else {
        -1
    };
    let ep0 = phase(sk, rotated_cols(data, g)[q].0, rotated_cols(data, g)[q].1)[0];
    let x = ep0 - sg * (v * delta);
    let e = read_front_err(sk, db, delta, data, g, row, q);
    assert(e == signed(wrap(x)));
    lemma_signed_mod(wrap(x));
    lemma_mod_sub(x, 0);
    assert(e % w == x % w);
    lemma_cong_add(sg * (v * delta), sg * (v * delta), e, x);
    assert((ep0 as int) % w == (sg * (v * delta) + e) % w);
    let pe = pack_first_err(m, g.poly_size, rotated_cols(data, g), sk, q);
    vstd::arithmetic::power2::lemma_pow2_adds(log_n, (64 - log_t - log_n) as nat);
    assert((log_n + (64 - log_t - log_n) as nat) as nat == (64 - log_t) as nat);
    crate::codec::lemma_delta_bounds(log_t);
    let ph = phase(sk, r_mask, r_body)[q];
    lemma_read_decode(log_t, n, delta as int, v, row != 0, ep0, e, pe, ph);
    assert(pow2(log_t) < 0x1_0000_0000_0000_0000) by {
        vstd::arithmetic::power2::lemma_pow2_strictly_increases(log_t, 64);
        vstd::arithmetic::power2::lemma2_to64();
    }
    assert(phase(sk, r_mask, r_body).len() == n);
    assert(poly_decode_spec(log_t, phase(sk, r_mask, r_body))[q] == decode_spec(log_t, ph));
}

/// A read after a row write gives the row written. Let `new_data` hold
/// the database `db` with row `row` replaced by `new_row` (as
/// `write_full_row` leaves it, see `lemma_write_keeps_database`), and let
/// `(r_mask, r_body)` be what `read_full_row_rotpack_cdks` answers on
/// `new_data` for the read query of `row`. Whenever the error accumulated
/// at slot `q` lies strictly within half of `2^(64 - log_t)`, the
/// recovered entry `q` is `new_row[q]`.
pub proof fn lemma_read_after_write(
    sk: Seq<u64>,
    db: Seq<u64>,
    new_row: Seq<u64>,
    log_n: nat,
    log_t: nat,
    delta: u64,
    new_data: Seq<RLWECiphertext>,
    g: RGSWCiphertext,
    row: int,
    m: Map<usize, RLWEKeyswitchKey>,
    r_mask: Seq<u64>,
    r_body: Seq<u64>,
    q: int,
)
    requires
        sk.len() == pow2(log_n),
        1 <= log_t,
        log_t + log_n <= 62,
        delta == pow2((64 - log_t - log_n) as nat),
        forall|i: int| 0 <= i < db.len() ==> #[trigger] db[i] < pow2(log_t),
        new_row.len() >= sk.len(),
        forall|j: int| 0 <= j < sk.len() ==> #[trigger] new_row[j] < pow2(log_t),
        0 <= row < db.len() / sk.len(),
        0 <= q < sk.len(),
        r_mask.len() == sk.len(),
        r_body.len() == sk.len(),
        (phase(sk, r_mask, r_body)[q] as int) % word_modulus() == (sk.len() * phase(
            sk,
            rotated_cols(new_data, g)[q].0,
            rotated_cols(new_data, g)[q].1,
        )[0] + pack_first_err(m, g.poly_size, rotated_cols(new_data, g), sk, q)) % word_modulus(),
        -(delta_of(log_t) / 2) < sk.len() * read_front_err(
            sk,
            db_with_row(db, row, new_row, sk.len() as int),
            delta,
            new_data,
            g,
            row,
            q,
        ) + pack_first_err(m, g.poly_size, rotated_cols(new_data, g), sk, q) < delta_of(log_t) / 2,
    ensures
        recovered(poly_decode_spec(log_t, phase(sk, r_mask, r_body)), row, pow2(log_t) as u64)[q] == new_row[q],
{
    let n = sk.len() as int;
    let rows = db.len() / (n as nat);
    vstd::arithmetic::power2::lemma_pow2_pos(log_n);
    assert((row + 1) * n <= db.len()) by (nonlinear_arith)
        requires
            0 <= row < rows,
            rows == db.len() / (n as nat),
            n > 0,
    {
        vstd::arithmetic::div_mod::lemma_fundamental_div_mod(db.len() as int, n);
    }
    assert(0 <= row * n) by (nonlinear_arith)
        requires
            0 <= row,
            n > 0,
    ;
    assert((row + 1) * n == row * n + n) by (nonlinear_arith);
    crate::oram::lemma_db_row_after_set(db, row, new_row, n);
    let db2 = db_with_row(db, row, new_row, n);
    assert(db2.len() == db.len());
    assert forall|i: int| 0 <= i < db2.len() implies #[trigger] db2[i] < pow2(log_t) by {
        if i < row * n {
            assert(db2[i] == db[i]);
        } else if i < row * n + n {
            assert(db2[i] == new_row[i - row * n]);
        } else {
            assert(db2[i] == db[i]);
        }
    }
    assert(db2[row * n + q] == db2.subrange(row * n, row * n + n)[q]);
    lemma_row_read_recovers(sk, db2, log_n, log_t, delta, new_data, g, row, m, r_mask, r_body, q);
}

/// Reading a row gives it back under a bound fixed in advance. Let the
/// columns `data` encrypt, with errors of magnitude at most `e0`, the
/// database `db` of rows of `n = 2^log_n` words scaled by
/// `delta = 2^(64 - log_t - log_n)` (as `encrypt_database_transposed` makes
/// them, with `e0 = 1`, see `lemma_fresh_column_within`, or as a row write
/// leaves them, see `lemma_write_column`), let `g` be the read query of
/// `row` (an RGSW encryption of `X^((n - row) mod n)`, as
/// `gen_row_read_query` makes it), and let the keys of the packing switch
/// the substituted keys back to `sk`. Then the error at slot `q` is at most
/// `read_noise_bound`, and while that bound stays below half of
/// `2^(64 - log_t)`, decoding the answer of `read_full_row_rotpack_cdks`
/// with `log_t` bits and recovering the row gives entry `q` of row `row`.
pub proof fn lemma_row_read_within_bound(
    sk: Seq<u64>,
    db: Seq<u64>,
    log_n: nat,
    log_t: nat,
    delta: u64,
    data: Seq<RLWECiphertext>,
    g: RGSWCiphertext,
    row: int,
    m: Map<usize, RLWEKeyswitchKey>,
    ks_base_log: usize,
    ks_level_count: usize,
    r_mask: Seq<u64>,
    r_body: Seq<u64>,
    q: int,
    e0: int,
)
    requires
        sk.len() == pow2(log_n),
        is_binary(sk),
        1 <= log_t,
        log_t + log_n <= 62,
        delta == pow2((64 - log_t - log_n) as nat),
        forall|i: int| 0 <= i < db.len() ==> #[trigger] db[i] < pow2(log_t),
        0 <= row < db.len() / sk.len(),
        row < sk.len(),
        0 <= q < sk.len(),
        data.len() == sk.len(),
        forall|j: int|
            0 <= j < data.len() ==> (#[trigger] data[j]).mask.len() == sk.len() && data[j].body.len() == sk.len()
                && column_within(sk, (data[j].mask@, data[j].body@), transposed_pt(db, delta, sk.len(), j), e0),
        0 <= e0,
        g.wf(),
        g.poly_size == sk.len(),
        rgsw_encrypts_poly(sk, g, g.base_log, monomial(sk.len(), fwd_degree(sk.len(), row), false)),
        rotation_facts(data, g),
        valid_decomposition(ks_base_log, ks_level_count),
        pack_keys(m, g.poly_size, log_n),
        pack_subs_ok(m, log_n),
        pack_keys_encrypt(m, log_n, sk, ks_base_log, ks_level_count),
        pack_digits_ok(m, log_n, log_n, 0, strided_view(rotated_cols(data, g), sk.len(), 1, sk.len() as int)),
        r_mask.len() == sk.len(),
        r_body.len() == sk.len(),
        (phase(sk, r_mask, r_body)[q] as int) % word_modulus() == (sk.len() * phase(
            sk,
            rotated_cols(data, g)[q].0,
            rotated_cols(data, g)[q].1,
        )[0] + pack_first_err(m, g.poly_size, rotated_cols(data, g), sk, q)) % word_modulus(),
        read_noise_bound(e0, sk.len() as int, g.base_log, g.level_count, ks_base_log, ks_level_count) < delta_of(
            log_t,
        ) / 2,
    ensures
        recovered(poly_decode_spec(log_t, phase(sk, r_mask, r_body)), row, pow2(log_t) as u64)[q] == db[row * sk.len()
            + q],
{
    let n = sk.len() as int;
    let bl = g.base_log;
    let lc = g.level_count;
    let bext = ext_read_bound(e0, n, bl, lc);
    let ksb = ks_bound(n, ks_base_log, ks_level_count);
    vstd::arithmetic::power2::lemma_pow2_pos(log_n);
    vstd::arithmetic::power2::lemma_pow2_pos(log_t);
    crate::codec::lemma_delta_bounds(log_t);
    vstd::arithmetic::power2::lemma_pow2_pos((64 - ks_base_log * ks_level_count) as nat);
    vstd::arithmetic::power2::lemma_pow2_pos((ks_base_log - 1) as nat);
    vstd::arithmetic::power2::lemma_pow2_pos((bl - 1) as nat);
    vstd::arithmetic::power2::lemma_pow2_pos((64 - bl * lc) as nat);
    assert(0 <= ksb && 0 <= bext) by (nonlinear_arith)
        requires
            ksb == n * (pow2((64 - ks_base_log * ks_level_count) as nat) / 2) + ks_level_count * (n * pow2(
                (ks_base_log - 1) as nat,
            )),
            bext == e0 + (n + 1) * (pow2((64 - bl * lc) as nat) / 2) + lc * (2 * (n * pow2((bl - 1) as nat))),
            e0 >= 0,
            n > 0,
            pow2((64 - ks_base_log * ks_level_count) as nat) > 0,
            pow2((ks_base_log - 1) as nat) > 0,
            pow2((64 - bl * lc) as nat) > 0,
            pow2((bl - 1) as nat) > 0,
    ;
    assert(bext <= n * bext && 0 <= (n - 1) * ksb) by (nonlinear_arith)
        requires
            n >= 1,
            bext >= 0,
            ksb >= 0,
    ;
    let e = lemma_column_front(sk, db, log_n, log_t, delta, data, g, row, q, e0);
    lemma_read_pack_err(sk, log_n, data, g, m, ks_base_log, ks_level_count, q);
    let pe = pack_first_err(m, g.poly_size, rotated_cols(data, g), sk, q);
    assert(-(n * bext) <= n * e <= n * bext) by (nonlinear_arith)
        requires
            -bext <= e <= bext,
            n >= 1,
    ;
    let w = word_modulus();
    let v = db[row * n + q];
    let sg: int = if row == 0 {
        1
    } else {
        -1
    };
    let ep0 = phase(sk, rotated_cols(data, g)[q].0, rotated_cols(data, g)[q].1)[0];
    let x = ep0 - sg * (v * delta);
    assert(x % w == e % w) by {
        lemma_cong_add(ep0 as int, sg * (v * delta) + e, -(sg * (v * delta)), -(sg * (v * delta)));
    }
    assert(wrap(x) == wrap(e));
    assert(bext < 0x4000_0000_0000_0000) by (nonlinear_arith)
        requires
            bext <= n * bext,
            n * bext + (n - 1) * ksb < delta_of(log_t) / 2,
            (n - 1) * ksb >= 0,
            delta_of(log_t) <= 0x8000_0000_0000_0000,
    ;
    lemma_signed_wrap(e);
    assert(read_front_err(sk, db, delta, data, g, row, q) == e);
    lemma_row_read_recovers(sk, db, log_n, log_t, delta, data, g, row, m, r_mask, r_body, q);
}


/// The substitution keys of the trace of size `n = 2^log_n`, as
/// `gen_all_subs_ksk` makes them for a binary key, are the keys that the
/// packing of `n` ciphertexts needs: those of `X -> X^(2^e + 1)`,
/// `1 <= e <= log_n`, which switch the substituted key (of coefficients in
/// `{0, 1, -1}`) back to the key.
pub proof fn lemma_trace_keys_pack(
    m: Map<usize, RLWEKeyswitchKey>,
    log_n: nat,
    key: Seq<u64>,
    base_log: usize,
    level_count: usize,
    modulus: u128,
)
    requires
        key.len() == pow2(log_n),
        key.len() <= usize::MAX,
        is_binary(key),
        is_native(modulus),
        trace_keys(m, key.len() as usize),
        trace_keys_encrypt(m, key.len() as usize, key, base_log, level_count, modulus),
    ensures
        pack_keys(m, key.len() as usize, log_n),
        pack_subs_ok(m, log_n),
        pack_keys_encrypt(m, log_n, key, base_log, level_count),
{
    let n = key.len() as usize;
    crate::poly::lemma_floor_log2_pow2(log_n);
    assert forall|e: nat| 1 <= e <= log_n implies trace_k(n as nat, (log_n - e + 1) as nat) == pow2(e) + 1 by {
        vstd::arithmetic::power2::lemma_pow2_subtracts((log_n - e) as nat, log_n);
        assert((log_n - (log_n - e) as nat) as nat == e);
        assert(((log_n - e + 1) as nat - 1) as nat == (log_n - e) as nat);
    }
    assert forall|e: nat| 1 <= e <= log_n implies #[trigger] crate::oram::has_subs_key(m, pow2(e) + 1int, n) by {
        assert(subs_key_ok(m, trace_k(n as nat, (log_n - e + 1) as nat), n));
    }
    assert forall|e: nat| 1 <= e <= log_n implies (#[trigger] m[(pow2(e) + 1) as usize]).subs_k == pow2(e) + 1 by {
        assert(subs_key_ok(m, trace_k(n as nat, (log_n - e + 1) as nat), n));
    }
    assert forall|e: nat|
        1 <= e <= log_n implies {
        let ksk = #[trigger] m[(pow2(e) + 1) as usize];
        &&& ksk.decomp_base_log == base_log
        &&& ksk.decomp_level_count == level_count
        &&& crate::keyswitch::ksk_encrypts(eval_x_k_spec(key, (pow2(e) + 1) as int), key, ksk.ksks@, base_log)
        &&& forall|j: int| 0 <= j < key.len() ==> #[trigger] ternary_noise(eval_x_k_spec(key, (pow2(e) + 1) as int)[j])
    } by {
        assert(subs_key_encrypts(m, key, base_log, level_count, modulus, trace_k(n as nat, (log_n - e + 1) as nat)));
        vstd::arithmetic::power2::lemma_pow2_unfold(e);
        vstd::arithmetic::power2::lemma_pow2_pos((e - 1) as nat);
        assert((pow2(e) + 1) % 2 == 1) by {
            vstd::arithmetic::div_mod::lemma_mod_multiples_vanish(pow2((e - 1) as nat) as int, 1, 2);
        }
        crate::ring::lemma_eval_x_k_binary_ternary(key, log_n, (pow2(e) + 1) as int);
        assert forall|j: int| 0 <= j < key.len() implies #[trigger] ternary_noise(
            eval_x_k_spec(key, (pow2(e) + 1) as int)[j],
        ) by {
            let c = eval_x_k_spec(key, (pow2(e) + 1) as int)[j];
            assert(c == 0 || c == 1 || c == u64::MAX);
        }
    }
}

} // verus!
