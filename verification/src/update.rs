//! What a row write of the ORAM does to the columns: each column keeps its
//! plaintext except at the written row, which takes the new entry, with an
//! error that grows by a bounded amount.
use vstd::prelude::*;

use crate::backend::{binary_noise, ternary_noise, valid_decomposition};
use crate::codec::{encode_spec, poly_encode_spec};
use crate::lwe::{
    conv_count, conv_phase, lemma_conv_row_errors_binary, lemma_lwe_phase_sub, lemma_sample_extract_phase,
    ksk_shape, lwe_phase, sample_extract_mask,
};
use crate::noise::{
    conv_noise_signed, conv_round_error, ext_prod_err, lemma_conv_noise_form, lemma_ext_prod_noise,
    lemma_signed_abs, lemma_signed_mod, lemma_signed_wrap, rounding_bound, signed,
};
use crate::oram::{add_view, conv_view, ext_prod_view, fwd_degree, transposed_pt, write_facts, write_pt, written_column};
use crate::poly::{monomial, rotate, rotate_flips, rotate_source, seq_add, seq_sub, word_modulus, wrap};
use crate::retrieval::lemma_rotate_to_front;
use crate::rgsw::{ext_prod_phase, lemma_rgsw_row_errors_binary, RGSWCiphertext};
use crate::ring::{lemma_cong_add, lemma_cong_sub, lemma_mod_sub};
use crate::rlwe::{
    encrypts_with_binary_noise, is_binary, lemma_phase_of_sum, phase, rgsw_encrypts_constant, rgsw_encrypts_poly,
    signed_abs, RLWECiphertext,
};
use vstd::arithmetic::power2::pow2;

verus! {

/// The ciphertext `col` has under `sk` the phase `pt` up to signed errors
/// of magnitude at most `e` at every coefficient.
pub open spec fn column_within(sk: Seq<u64>, col: (Seq<u64>, Seq<u64>), pt: Seq<u64>, e: int) -> bool {
    forall|k: int| 0 <= k < sk.len() ==> signed_abs(#[trigger] wrap(phase(sk, col.0, col.1)[k] - pt[k])) <= e
}

/// The database `db` of rows of `n` words with row `row` replaced by the
/// first `n` words of `new_row`.
pub open spec fn db_with_row(db: Seq<u64>, row: int, new_row: Seq<u64>, n: int) -> Seq<u64> {
    db.take(row * n) + new_row.take(n) + db.skip(row * n + n)
}

/// The constant polynomial `c` of size `n`.
pub open spec fn const_poly(n: nat, c: u64) -> Seq<u64> {
    Seq::new(n, |k: int| if k == 0 { c } else { 0u64 })
}

/// The largest error that an external product with an encryption of a
/// monomial adds: the rounding and the product noise.
pub open spec fn ext_bound(n: int, base_log: usize, level_count: usize) -> int {
    rounding_bound(n, base_log, level_count) + level_count * (2 * (n * pow2((base_log - 1) as nat)))
}

/// The largest error that the conversion of an LWE ciphertext of size `n`
/// adds: the rounding of the mask and the conversion noise.
pub open spec fn conv_bound(n: int, base_log: usize, level_count: usize) -> int {
    n * (pow2((64 - base_log * level_count) as nat) / 2) + n * (level_count * pow2((base_log - 1) as nat))
}

/// The largest error of a column after a write, when its error was at most
/// `e0`: its own error, plus the error of the rotated difference (the
/// error of the new entry, at most 1, the column's error and the forward
/// product's error, the conversion's error, and the backward product's error).
pub open spec fn write_noise_bound(
    e0: int,
    n: int,
    base_log: usize,
    level_count: usize,
    ks_base_log: usize,
    ks_level_count: usize,
) -> int {
    e0 + (1 + (e0 + ext_bound(n, base_log, level_count)) + conv_bound(n, ks_base_log, ks_level_count)) + ext_bound(
        n,
        base_log,
        level_count,
    )
}

/// A fresh encryption, with binary noise, is within 1 of its plaintext.
pub proof fn lemma_fresh_column_within(sk: Seq<u64>, ct: RLWECiphertext, pt: Seq<u64>)
    requires
        encrypts_with_binary_noise(sk, ct, pt),
    ensures
        column_within(sk, (ct.mask@, ct.body@), pt, 1),
{
    let col = (ct.mask@, ct.body@);
    assert forall|k: int| 0 <= k < sk.len() implies signed_abs(#[trigger] wrap(phase(sk, col.0, col.1)[k] - pt[k]))
        <= 1 by {
        assert(binary_noise(wrap(phase(sk, ct.mask@, ct.body@)[k] - pt[k])));
    }
}

/// A small signed integer read back from its word has its magnitude.
pub proof fn lemma_signed_abs_wrap(v: int)
    requires
        -0x8000_0000_0000_0000 < v < 0x8000_0000_0000_0000,
    ensures
        signed_abs(wrap(v)) == if v < 0 {
            -v
        } else {
            v
        },
{
    let w = word_modulus();
    if v >= 0 {
        vstd::arithmetic::div_mod::lemma_small_mod(v as nat, w as nat);
    } else {
        vstd::arithmetic::div_mod::lemma_fundamental_div_mod_converse(v, w, -1, v + w);
        assert(wrap(v) == v + w);
        vstd::arithmetic::div_mod::lemma_fundamental_div_mod_converse(-(v + w), w, -1, -v);
    }
}

/// With 64 bits, the encoding is the identity.
pub proof fn lemma_encode_64(m: Seq<u64>)
    ensures
        poly_encode_spec(64, m) == m,
        forall|k: int| 0 <= k < m.len() ==> #[trigger] encode_spec(64, m[k]) == m[k],
{
    vstd::arithmetic::power2::lemma2_to64();
    assert(crate::codec::delta_of(64) == 1);
    assert forall|k: int| 0 <= k < m.len() implies #[trigger] encode_spec(64, m[k]) == m[k] by {
        assert(m[k] * 1 == m[k]);
        vstd::arithmetic::div_mod::lemma_small_mod(m[k] as nat, word_modulus() as nat);
    }
    assert(poly_encode_spec(64, m) =~= m);
}

/// The product of the constant `c` by `X^row` (or `-X^row`) holds `c` (or
/// `-c`) at `row` and zero elsewhere.
proof fn lemma_rotate_const(n: nat, c: u64, row: int, negate: bool, k: int)
    requires
        0 <= row < n,
        0 <= k < n,
    ensures
        rotate(const_poly(n, c), row, negate)[k] == if k == row {
            if negate {
                wrap(-c)
            } else {
                c
            }
        } else {
            0u64
        },
{
    let nn = n as int;
    vstd::arithmetic::div_mod::lemma_small_mod(row as nat, n);
    let i = rotate_source(nn, row, k);
    assert(i == (k + nn - row) % nn);
    if k == row {
        vstd::arithmetic::div_mod::lemma_mod_self_0(nn);
        assert(i == 0);
        assert((0 + row) / nn == 0) by {
            vstd::arithmetic::div_mod::lemma_basic_div(row, nn);
        }
        assert(rotate_flips(nn, row, 0, negate) == negate);
    } else {
        vstd::arithmetic::div_mod::lemma_mod_bound(k + nn - row, nn);
        if k > row {
            vstd::arithmetic::div_mod::lemma_mod_add_multiples_vanish(k - row, nn);
            vstd::arithmetic::div_mod::lemma_small_mod((k - row) as nat, n);
        } else {
            vstd::arithmetic::div_mod::lemma_small_mod((k + nn - row) as nat, n);
        }
        assert(i != 0);
        assert(wrap(-0) == 0u64);
    }
}


/// The first steps of the write of column `col` (entry `j` of the new row):
/// the difference of coefficient `j` of `ct_new` and the constant
/// coefficient of the column rotated forward, both extracted as LWE
/// ciphertexts, has for phase the difference of the plaintexts up to an
/// error `ed` of magnitude at most `1 + e0 + ext_bound`.
#[verifier::spinoff_prover]
proof fn lemma_write_front(
    sk: Seq<u64>,
    n: usize,
    pt: Seq<u64>,
    wpt: Seq<u64>,
    fwd: RGSWCiphertext,
    rev: RGSWCiphertext,
    ct_new: RLWECiphertext,
    ksks: Seq<RGSWCiphertext>,
    ks_base_log: usize,
    ks_level_count: usize,
    col: (Seq<u64>, Seq<u64>),
    j: int,
    row: int,
    e0: int,
) -> (ed: int)
    requires
        sk.len() == n,
        n > 0,
        is_binary(sk),
        0 <= row < n,
        0 <= j < n,
        col.0.len() == n,
        col.1.len() == n,
        pt.len() == n,
        wpt.len() == n,
        fwd.wf(),
        fwd.poly_size == n,
        rgsw_encrypts_poly(sk, fwd, fwd.base_log, monomial(n as nat, fwd_degree(n as nat, row), false)),
        ct_new.mask.len() == n,
        ct_new.body.len() == n,
        encrypts_with_binary_noise(sk, ct_new, wpt),
        column_within(sk, col, pt, e0),
        write_facts(fwd, rev, (ct_new.mask@, ct_new.body@), ksks, ks_base_log, ks_level_count, n, col, j),
        0 <= e0,
        e0 + ext_bound(n as int, fwd.base_log, fwd.level_count) < 0x4000_0000_0000_0000,
    ensures
        (lwe_phase(
            sk,
            seq_sub(sample_extract_mask(ct_new.mask@, j), sample_extract_mask(ext_prod_view(fwd, col).0, 0)),
            wrap(ct_new.body@[j] - ext_prod_view(fwd, col).1[0]),
        ) as int) % word_modulus() == (wpt[j] - rotate(pt, fwd_degree(n as nat, row), false)[0] + ed)
            % word_modulus(),
        -(1 + e0 + ext_bound(n as int, fwd.base_log, fwd.level_count)) <= ed <= 1 + e0 + ext_bound(
            n as int,
            fwd.base_log,
            fwd.level_count,
        ),
{
    let nn = n as int;
    let w = word_modulus();
    let bl = fwd.base_log;
    let lc = fwd.level_count;
    let f = fwd_degree(n as nat, row);
    let p = monomial(n as nat, f, false);
    let r = ext_prod_view(fwd, col);
    assert(0 <= f < nn) by {
        vstd::arithmetic::div_mod::lemma_mod_bound(nn - row, nn);
    }
    lemma_rgsw_row_errors_binary(sk, fwd, p);
    assert forall|i: int| 0 <= i < nn implies #[trigger] ternary_noise(sk[i]) by {
        assert(sk[i] <= 1);
    }
    lemma_encode_64(pt);
    assert forall|k: int| 0 <= k < nn implies signed_abs(
        #[trigger] wrap(phase(sk, col.0, col.1)[k] - encode_spec(64, pt[k])),
    ) <= e0 by {
        assert(encode_spec(64, pt[k]) == pt[k]);
        assert(signed_abs(wrap(phase(sk, col.0, col.1)[k] - pt[k])) <= e0);
    }
    assert forall|i: int, t: int|
        0 <= i < nn && 0 <= t < lc implies #[trigger] crate::backend::digit_in_range(
        bl,
        crate::backend::signed_decomposition(bl, lc, col.0[i])[t],
    ) && crate::backend::digit_in_range(bl, crate::backend::signed_decomposition(bl, lc, col.1[i])[t]) by {}
    lemma_ext_prod_noise(fwd.data@, nn, bl, lc, col.0, col.1, sk, f, false, 64, pt, e0);
    let e1 = ext_prod_err(fwd.data@, nn, bl, lc, col.0, col.1, sk, f, false, 64, pt, 0);
    assert(phase(sk, r.0, r.1) == ext_prod_phase(fwd.data@, nn, bl, lc, col.0, col.1, sk, p));
    let rot0 = rotate(pt, f, false)[0];
    let ph_r0 = phase(sk, r.0, r.1)[0];
    assert(ph_r0 == wrap(rot0 + e1));
    crate::rgsw::lemma_ext_prod_acc_len(fwd.data@, nn, bl, lc, col.0, col.1, lc as int, false);
    crate::rgsw::lemma_ext_prod_acc_len(fwd.data@, nn, bl, lc, col.0, col.1, lc as int, true);
    lemma_sample_extract_phase(sk, ct_new.mask@, ct_new.body@, j);
    lemma_sample_extract_phase(sk, r.0, r.1, 0);
    let sem_new = sample_extract_mask(ct_new.mask@, j);
    let sem_r = sample_extract_mask(r.0, 0);
    lemma_lwe_phase_sub(sk, sem_new, ct_new.body@[j], sem_r, r.1[0]);
    let ph_new = phase(sk, ct_new.mask@, ct_new.body@)[j];
    let enew = wrap(ph_new - wpt[j]);
    assert(binary_noise(enew));
    let ed = enew - e1;
    // lwe_phase(d) = ph_new - ph_r0 = (wpt[j] + enew) - (rot0 + e1), modulo 2^64
    let ld = lwe_phase(sk, seq_sub(sem_new, sem_r), wrap(ct_new.body@[j] - r.1[0]));
    lemma_mod_sub(ph_new as int, ph_r0 as int);
    lemma_mod_sub(ph_new as int, wpt[j] as int);
    lemma_mod_sub(rot0 + e1, 0);
    lemma_cong_add(enew as int, ph_new - wpt[j], wpt[j] as int, wpt[j] as int);
    assert(ph_new - wpt[j] + wpt[j] == ph_new as int);
    lemma_cong_sub(ph_new as int, enew + wpt[j], ph_r0 as int, rot0 + e1);
    assert(enew + wpt[j] - (rot0 + e1) == wpt[j] - rot0 + ed);
    ed
}


/// The conversion step of the write: when the difference `(d_mask, d_body)`
/// has for LWE phase `c + ed`, `|ed| <= b`, its conversion `dl` is within
/// `b + conv_bound` of the constant polynomial `c`.
#[verifier::spinoff_prover]
proof fn lemma_write_conv(
    sk: Seq<u64>,
    n: usize,
    ksks: Seq<RGSWCiphertext>,
    ks_base_log: usize,
    ks_level_count: usize,
    modulus: u128,
    d_mask: Seq<u64>,
    d_body: u64,
    dl: (Seq<u64>, Seq<u64>),
    c: int,
    ed: int,
    b: int,
)
    requires
        sk.len() == n,
        n > 0,
        is_binary(sk),
        ksks.len() == n,
        ksk_shape(ksks, n, ks_base_log, ks_level_count, modulus),
        forall|i: int| 0 <= i < n ==> rgsw_encrypts_constant(sk, #[trigger] ksks[i], sk[i]),
        valid_decomposition(ks_base_log, ks_level_count),
        d_mask.len() == n,
        phase(sk, dl.0, dl.1) == conv_phase(
            ksks,
            d_mask,
            d_body,
            ks_base_log,
            ks_level_count,
            n as nat,
            conv_count(ksks, n),
            sk,
            sk,
        ),
        forall|i: int, t: int|
            0 <= i < n && 0 <= t < ks_level_count ==> #[trigger] crate::backend::digit_in_range(
                ks_base_log,
                crate::lwe::conv_digit(ks_base_log, ks_level_count, d_mask[i], t),
            ),
        (lwe_phase(sk, d_mask, d_body) as int) % word_modulus() == (c + ed) % word_modulus(),
        -b <= ed <= b,
        b + conv_bound(n as int, ks_base_log, ks_level_count) < 0x4000_0000_0000_0000,
    ensures
        column_within(sk, dl, const_poly(n as nat, wrap(c)), b + conv_bound(n as int, ks_base_log, ks_level_count)),
{
    let nn = n as int;
    let w = word_modulus();
    let h = pow2((64 - ks_base_log * ks_level_count) as nat) / 2;
    let cb = nn * (ks_level_count * pow2((ks_base_log - 1) as nat));
    assert(conv_count(ksks, n) == nn);
    lemma_conv_row_errors_binary(ksks, sk, sk);
    assert forall|i: int, t: int, k: int|
        0 <= i < nn && 0 <= t < ks_level_count && 0 <= k < nn implies binary_noise(
        #[trigger] crate::lwe::conv_row_error(ksks[i], sk, ks_base_log, ks_level_count, sk[i], t)[k],
    ) by {
        assert(ksks[i].base_log == ks_base_log && ksks[i].level_count == ks_level_count);
    }
    lemma_conv_noise_form(ksks, d_mask, d_body, ks_base_log, ks_level_count, sk);
    let re = conv_round_error(d_mask, sk, ks_base_log, ks_level_count, nn);
    let lp = lwe_phase(sk, d_mask, d_body);
    vstd::arithmetic::power2::lemma_pow2_pos((64 - ks_base_log * ks_level_count) as nat);
    vstd::arithmetic::power2::lemma_pow2_pos((ks_base_log - 1) as nat);
    assert(0 <= nn * h && 0 <= cb) by (nonlinear_arith)
        requires
            nn > 0,
            h >= 0,
            cb == nn * (ks_level_count * pow2((ks_base_log - 1) as nat)),
            pow2((ks_base_log - 1) as nat) > 0,
    ;
    assert forall|k: int| 0 <= k < nn implies signed_abs(
        #[trigger] wrap(phase(sk, dl.0, dl.1)[k] - const_poly(n as nat, wrap(c))[k]),
    ) <= b + conv_bound(nn, ks_base_log, ks_level_count) by {
        let ns = conv_noise_signed(ksks, d_mask, sk, ks_base_log, ks_level_count, nn, k);
        let ph = phase(sk, dl.0, dl.1)[k];
        assert(ph == conv_phase(ksks, d_mask, d_body, ks_base_log, ks_level_count, n as nat, nn, sk, sk)[k]);
        assert(-cb <= ns <= cb);
        if k == 0 {
            let e = ed + re - ns;
            lemma_mod_sub(lp + re - ns, 0);
            lemma_mod_sub(c, 0);
            lemma_cong_add(lp as int, c + ed, re - ns, re - ns);
            assert(lp + (re - ns) == lp + re - ns);
            assert(c + ed + (re - ns) == c + e);
            lemma_cong_sub(ph as int, c + e, wrap(c) as int, c);
            assert(c + e - c == e);
            lemma_mod_sub(ph as int, wrap(c) as int);
            assert(wrap(ph - wrap(c)) == wrap(e));
            lemma_signed_abs_wrap(e);
        } else {
            assert(const_poly(n as nat, wrap(c))[k] == 0);
            lemma_mod_sub(0 - ns, 0);
            assert(wrap(ph - 0) == wrap(0 - ns)) by {
                lemma_mod_sub(ph as int, 0);
            }
            lemma_signed_abs_wrap(0 - ns);
        }
    }
}


/// The last steps of the write: the conversion `dl`, within `e2` of the
/// constant `c`, multiplied by `rev` (an encryption of `X^row`, or `-X^row`
/// when `row != 0`) and added to the column `col`, within `e0` of `pt`,
/// gives a ciphertext within `e0 + e2 + ext_bound` of `pt` with `c` (or
/// `-c`) added at `row`.
#[verifier::spinoff_prover]
proof fn lemma_write_back(
    sk: Seq<u64>,
    n: usize,
    rev: RGSWCiphertext,
    row: int,
    dl: (Seq<u64>, Seq<u64>),
    c: u64,
    e2: int,
    col: (Seq<u64>, Seq<u64>),
    pt: Seq<u64>,
    e0: int,
)
    requires
        sk.len() == n,
        n > 0,
        is_binary(sk),
        0 <= row < n,
        rev.wf(),
        rev.poly_size == n,
        rgsw_encrypts_poly(sk, rev, rev.base_log, monomial(n as nat, row, row != 0)),
        dl.0.len() == n,
        dl.1.len() == n,
        col.0.len() == n,
        col.1.len() == n,
        pt.len() == n,
        phase(sk, ext_prod_view(rev, dl).0, ext_prod_view(rev, dl).1) == ext_prod_phase(
            rev.data@,
            n as int,
            rev.base_log,
            rev.level_count,
            dl.0,
            dl.1,
            sk,
            monomial(n as nat, row, row != 0),
        ),
        forall|i: int, t: int|
            0 <= i < n && 0 <= t < rev.level_count ==> #[trigger] crate::backend::digit_in_range(
                rev.base_log,
                crate::backend::signed_decomposition(rev.base_log, rev.level_count, dl.0[i])[t],
            ) && crate::backend::digit_in_range(
                rev.base_log,
                crate::backend::signed_decomposition(rev.base_log, rev.level_count, dl.1[i])[t],
            ),
        column_within(sk, dl, const_poly(n as nat, c), e2),
        column_within(sk, col, pt, e0),
        0 <= e0,
        0 <= e2,
        e0 + e2 + ext_bound(n as int, rev.base_log, rev.level_count) < 0x4000_0000_0000_0000,
    ensures
        column_within(
            sk,
            add_view(col, ext_prod_view(rev, dl)),
            pt.update(
                row,
                wrap(
                    pt[row] + (if row != 0 {
                        wrap(-c)
                    } else {
                        c
                    }),
                ),
            ),
            e0 + e2 + ext_bound(n as int, rev.base_log, rev.level_count),
        ),
{
    let nn = n as int;
    let w = word_modulus();
    let bl = rev.base_log;
    let lc = rev.level_count;
    let neg = row != 0;
    let p = monomial(n as nat, row, neg);
    let cp = const_poly(n as nat, c);
    let v = ext_prod_view(rev, dl);
    let eb = ext_bound(nn, bl, lc);
    let pt2 = pt.update(row, wrap(pt[row] + (if neg { wrap(-c) } else { c })));
    lemma_rgsw_row_errors_binary(sk, rev, p);
    assert forall|i: int| 0 <= i < nn implies #[trigger] ternary_noise(sk[i]) by {
        assert(sk[i] <= 1);
    }
    lemma_encode_64(cp);
    assert forall|k: int| 0 <= k < nn implies signed_abs(
        #[trigger] wrap(phase(sk, dl.0, dl.1)[k] - encode_spec(64, cp[k])),
    ) <= e2 by {
        assert(encode_spec(64, cp[k]) == cp[k]);
        assert(signed_abs(wrap(phase(sk, dl.0, dl.1)[k] - cp[k])) <= e2);
    }
    lemma_ext_prod_noise(rev.data@, nn, bl, lc, dl.0, dl.1, sk, row, neg, 64, cp, e2);
    crate::rgsw::lemma_ext_prod_acc_len(rev.data@, nn, bl, lc, dl.0, dl.1, lc as int, false);
    crate::rgsw::lemma_ext_prod_acc_len(rev.data@, nn, bl, lc, dl.0, dl.1, lc as int, true);
    lemma_phase_of_sum(sk, col.0, col.1, v.0, v.1);
    assert forall|k: int| 0 <= k < nn implies signed_abs(
        #[trigger] wrap(phase(sk, add_view(col, v).0, add_view(col, v).1)[k] - pt2[k]),
    ) <= e0 + e2 + eb by {
        let e3 = ext_prod_err(rev.data@, nn, bl, lc, dl.0, dl.1, sk, row, neg, 64, cp, k);
        lemma_rotate_const(n as nat, c, row, neg, k);
        let rk = rotate(cp, row, neg)[k];
        let pv = phase(sk, v.0, v.1)[k];
        assert(pv == wrap(rk + e3));
        let pc = phase(sk, col.0, col.1)[k];
        let x0 = wrap(pc - pt[k]);
        let e0k = signed(x0);
        lemma_signed_abs(x0);
        lemma_signed_mod(x0);
        lemma_mod_sub(pc as int, pt[k] as int);
        // pc = pt[k] + e0k and pv = rk + e3, modulo 2^64
        lemma_cong_add(e0k, pc - pt[k], pt[k] as int, pt[k] as int);
        assert(pc - pt[k] + pt[k] == pc as int);
        lemma_mod_sub(rk + e3, 0);
        let ps = phase(sk, add_view(col, v).0, add_view(col, v).1)[k];
        assert(ps == wrap(pc + pv));
        lemma_mod_sub(pc + pv, 0);
        lemma_cong_add(pc as int, e0k + pt[k], pv as int, rk + e3);
        // pt2[k] = pt[k] + rk, modulo 2^64
        assert((pt2[k] as int) % w == (pt[k] + rk) % w) by {
            if k == row {
                lemma_mod_sub(pt[k] + rk, 0);
            } else {
                assert(rk == 0);
            }
        }
        let e = e0k + e3;
        lemma_cong_sub(ps as int, e0k + pt[k] + (rk + e3), pt2[k] as int, pt[k] + rk);
        assert(e0k + pt[k] + (rk + e3) - (pt[k] + rk) == e);
        lemma_mod_sub(ps as int, pt2[k] as int);
        assert(wrap(ps - pt2[k]) == wrap(e));
        lemma_signed_abs_wrap(e);
    }
}


/// Writing a row replaces that row in every column and keeps the others.
/// Let `col`, column `j` of the database `db` of rows of `n` words, be
/// within `e0` of its plaintext `transposed_pt(db, delta, n, j)`, and let
/// `fwd`, `rev` and `ct_new` be the write query of `new_row` at `row` (RGSW
/// encryptions of `X^((n - row) mod n)` and of `X^row`, or `-X^row` when
/// `row != 0`, and an encryption of the scaled new row, negated when
/// `row != 0`, as `gen_row_write_query` makes them), and `ksks` the key of
/// the conversion (as `gen_lwe_to_rlwe_ksk` makes it). Then the column that
/// `write_full_row` computes is within `write_noise_bound(e0, ..)` of column
/// `j` of the database with row `row` replaced by `new_row`, while that bound
/// stays below `2^62`.
#[verifier::spinoff_prover]
pub proof fn lemma_write_column(
    sk: Seq<u64>,
    n: usize,
    db: Seq<u64>,
    new_row: Seq<u64>,
    delta: u64,
    row: int,
    fwd: RGSWCiphertext,
    rev: RGSWCiphertext,
    ct_new: RLWECiphertext,
    ksks: Seq<RGSWCiphertext>,
    ks_base_log: usize,
    ks_level_count: usize,
    modulus: u128,
    col: (Seq<u64>, Seq<u64>),
    j: int,
    e0: int,
)
    requires
        sk.len() == n,
        n > 0,
        is_binary(sk),
        0 <= row < db.len() / (n as nat),
        row < n,
        new_row.len() >= n,
        0 <= j < n,
        col.0.len() == n,
        col.1.len() == n,
        column_within(sk, col, transposed_pt(db, delta, n as nat, j), e0),
        0 <= e0,
        fwd.wf(),
        fwd.poly_size == n,
        rgsw_encrypts_poly(sk, fwd, fwd.base_log, monomial(n as nat, fwd_degree(n as nat, row), false)),
        rev.wf(),
        rev.poly_size == n,
        rev.base_log == fwd.base_log,
        rev.level_count == fwd.level_count,
        rgsw_encrypts_poly(sk, rev, rev.base_log, monomial(n as nat, row, row != 0)),
        ct_new.mask.len() == n,
        ct_new.body.len() == n,
        encrypts_with_binary_noise(sk, ct_new, write_pt(new_row, delta, row != 0, n as nat)),
        ksks.len() == n,
        ksk_shape(ksks, n, ks_base_log, ks_level_count, modulus),
        forall|i: int| 0 <= i < n ==> rgsw_encrypts_constant(sk, #[trigger] ksks[i], sk[i]),
        valid_decomposition(ks_base_log, ks_level_count),
        write_facts(fwd, rev, (ct_new.mask@, ct_new.body@), ksks, ks_base_log, ks_level_count, n, col, j),
        write_noise_bound(e0, n as int, fwd.base_log, fwd.level_count, ks_base_log, ks_level_count)
            < 0x4000_0000_0000_0000,
    ensures
        column_within(
            sk,
            written_column(fwd, rev, (ct_new.mask@, ct_new.body@), ksks, ks_base_log, ks_level_count, n, col, j),
            transposed_pt(db_with_row(db, row, new_row, n as int), delta, n as nat, j),
            write_noise_bound(e0, n as int, fwd.base_log, fwd.level_count, ks_base_log, ks_level_count),
        ),
{
    let nn = n as int;
    let w = word_modulus();
    let bl = fwd.base_log;
    let lc = fwd.level_count;
    let neg = row != 0;
    let f = fwd_degree(n as nat, row);
    let pt = transposed_pt(db, delta, n as nat, j);
    let wpt = write_pt(new_row, delta, neg, n as nat);
    let eb = ext_bound(nn, bl, lc);
    let cvb = conv_bound(nn, ks_base_log, ks_level_count);
    vstd::arithmetic::power2::lemma_pow2_pos((bl - 1) as nat);
    vstd::arithmetic::power2::lemma_pow2_pos((64 - bl * lc) as nat);
    vstd::arithmetic::power2::lemma_pow2_pos((ks_base_log - 1) as nat);
    vstd::arithmetic::power2::lemma_pow2_pos((64 - ks_base_log * ks_level_count) as nat);
    assert(0 <= eb && 0 <= cvb) by (nonlinear_arith)
        requires
            eb == (nn + 1) * (pow2((64 - bl * lc) as nat) / 2) + lc * (2 * (nn * pow2((bl - 1) as nat))),
            cvb == nn * (pow2((64 - ks_base_log * ks_level_count) as nat) / 2) + nn * (ks_level_count * pow2(
                (ks_base_log - 1) as nat,
            )),
            nn > 0,
            pow2((64 - bl * lc) as nat) > 0,
            pow2((bl - 1) as nat) > 0,
            pow2((64 - ks_base_log * ks_level_count) as nat) > 0,
            pow2((ks_base_log - 1) as nat) > 0,
    ;
    let ed = lemma_write_front(sk, n, pt, wpt, fwd, rev, ct_new, ksks, ks_base_log, ks_level_count, col, j, row, e0);
    let r = ext_prod_view(fwd, col);
    crate::rgsw::lemma_ext_prod_acc_len(fwd.data@, nn, bl, lc, col.0, col.1, lc as int, false);
    crate::rgsw::lemma_ext_prod_acc_len(fwd.data@, nn, bl, lc, col.0, col.1, lc as int, true);
    let ctv = (ct_new.mask@, ct_new.body@);
    let d_mask = seq_sub(sample_extract_mask(ctv.0, j), sample_extract_mask(r.0, 0));
    let d_body = wrap(ctv.1[j] - r.1[0]);
    let dl = conv_view(ksks, d_mask, d_body, ks_base_log, ks_level_count, n);
    assert(conv_count(ksks, n) == nn);
    assert forall|i: int, t: int|
        0 <= i < n && 0 <= t < ks_level_count implies #[trigger] crate::backend::digit_in_range(
        ks_base_log,
        crate::lwe::conv_digit(ks_base_log, ks_level_count, d_mask[i], t),
    ) by {}
    let rot0 = rotate(pt, f, false)[0];
    let c = wpt[j] - rot0;
    assert(phase(sk, dl.0, dl.1) == conv_phase(
        ksks,
        d_mask,
        d_body,
        ks_base_log,
        ks_level_count,
        n as nat,
        conv_count(ksks, n),
        sk,
        sk,
    ));
    lemma_write_conv(sk, n, ksks, ks_base_log, ks_level_count, modulus, d_mask, d_body, dl, c, ed, 1 + e0 + eb);
    let e2 = 1 + e0 + eb + cvb;
    crate::lwe::lemma_conv_acc_len(ksks, d_mask, ks_base_log, ks_level_count, n as nat, conv_count(ksks, n), false);
    crate::lwe::lemma_conv_acc_len(ksks, d_mask, ks_base_log, ks_level_count, n as nat, conv_count(ksks, n), true);
    let p = monomial(n as nat, row, neg);
    assert(phase(sk, ext_prod_view(rev, dl).0, ext_prod_view(rev, dl).1) == ext_prod_phase(
        rev.data@,
        nn,
        rev.base_log,
        rev.level_count,
        dl.0,
        dl.1,
        sk,
        p,
    ));
    lemma_write_back(sk, n, rev, row, dl, wrap(c), e2, col, pt, e0);
    assert(written_column(fwd, rev, (ct_new.mask@, ct_new.body@), ksks, ks_base_log, ks_level_count, n, col, j)
        == add_view(col, ext_prod_view(rev, dl)));
    // The updated plaintext is column `j` of the database with the new row.
    let db2 = db_with_row(db, row, new_row, nn);
    let rows = db.len() / (n as nat);
    vstd::arithmetic::div_mod::lemma_fundamental_div_mod(db.len() as int, nn);
    vstd::arithmetic::div_mod::lemma_mod_bound(db.len() as int, nn);
    assert(db.len() == nn * rows + (db.len() as int) % nn);
    assert(0 <= row * nn && (row + 1) * nn <= db.len() && row * nn + nn == (row + 1) * nn) by (nonlinear_arith)
        requires
            0 <= row < rows,
            db.len() == nn * rows + (db.len() as int) % nn,
            (db.len() as int) % nn >= 0,
            nn > 0,
    ;
    assert(db2.len() == db.len());
    let vnew = wrap(delta * new_row[j]);
    let pr = pt[row];
    assert(pr == wrap(delta * db[row * nn + j]));
    lemma_rotate_to_front(pt, row);
    let x = wrap(pr + (if neg { wrap(-wrap(c)) } else { wrap(c) }));
    assert((x as int) % w == (vnew as int) % w) by {
        lemma_mod_sub(c, 0);
        if neg {
            assert(wpt[j] == wrap(-vnew));
            assert(rot0 == wrap(-pr));
            lemma_mod_sub(0, wrap(c) as int);
            lemma_cong_sub(0, 0, wrap(c) as int, c);
            lemma_mod_sub(0, vnew as int);
            lemma_mod_sub(0, pr as int);
            lemma_cong_sub(wpt[j] as int, 0 - vnew, rot0 as int, 0 - pr);
            lemma_cong_sub(0, 0, c, 0 - vnew - (0 - pr));
            lemma_cong_add(pr as int, pr as int, wrap(-wrap(c)) as int, 0 - c);
            lemma_cong_add(pr as int, pr as int, 0 - c, 0 - (0 - vnew - (0 - pr)));
            lemma_mod_sub(pr + wrap(-wrap(c)), 0);
        } else {
            assert(wpt[j] == vnew);
            assert(rot0 == pr);
            lemma_cong_add(pr as int, pr as int, wrap(c) as int, c);
            lemma_mod_sub(pr + wrap(c), 0);
        }
    }
    vstd::arithmetic::div_mod::lemma_small_mod(x as nat, w as nat);
    vstd::arithmetic::div_mod::lemma_small_mod(vnew as nat, w as nat);
    assert forall|k: int| 0 <= k < nn implies #[trigger] pt.update(row, x)[k] == transposed_pt(
        db2,
        delta,
        n as nat,
        j,
    )[k] by {
        assert(db2.len() / (n as nat) == rows);
        if k < rows {
            assert(0 <= k * nn + j < db.len() && (k < row ==> k * nn + j < row * nn) && (k > row ==> k * nn + j
                >= row * nn + nn)) by (nonlinear_arith)
                requires
                    0 <= k < rows,
                    db.len() == nn * rows + (db.len() as int) % nn,
                    (db.len() as int) % nn >= 0,
                    0 <= j < nn,
                    nn > 0,
                    row * nn + nn == (row + 1) * nn,
            {
                if k < row {
                    assert((k + 1) * nn <= row * nn) by (nonlinear_arith)
                        requires
                            k + 1 <= row,
                            nn > 0,
                    ;
                }
                if k > row {
                    assert((row + 1) * nn <= k * nn) by (nonlinear_arith)
                        requires
                            row + 1 <= k,
                            nn > 0,
                    ;
                }
                assert((k + 1) * nn <= rows * nn) by (nonlinear_arith)
                    requires
                        k + 1 <= rows,
                        nn > 0,
                ;
            }
            if k == row {
                assert(db2[row * nn + j] == new_row[j]);
            } else if k < row {
                assert(db2[k * nn + j] == db[k * nn + j]);
            } else {
                assert(db2[k * nn + j] == db[k * nn + j]);
            }
        }
    }
    assert(pt.update(row, x) =~= transposed_pt(db2, delta, n as nat, j));
}


/// What a row write keeps: when every column of `data` is within `e0` of
/// the column of `db` it encrypts, every column that `write_full_row`
/// computes from it (`new_data`) is within `write_noise_bound(e0, ..)` of the
/// column of `db` with row `row` replaced by `new_row`. A read of the
/// written columns gives the row written: see `lemma_read_after_write` for
/// any columns whose read error is small, and `lemma_row_read_within_bound`
/// with `write_noise_bound` for a bound fixed in advance.
pub proof fn lemma_write_keeps_database(
    sk: Seq<u64>,
    n: usize,
    db: Seq<u64>,
    new_row: Seq<u64>,
    delta: u64,
    row: int,
    fwd: RGSWCiphertext,
    rev: RGSWCiphertext,
    ct_new: RLWECiphertext,
    ksks: Seq<RGSWCiphertext>,
    ks_base_log: usize,
    ks_level_count: usize,
    modulus: u128,
    data: Seq<RLWECiphertext>,
    new_data: Seq<RLWECiphertext>,
    e0: int,
)
    requires
        sk.len() == n,
        n > 0,
        is_binary(sk),
        0 <= row < db.len() / (n as nat),
        row < n,
        new_row.len() >= n,
        data.len() <= n,
        new_data.len() == data.len(),
        forall|j: int|
            0 <= j < data.len() ==> (#[trigger] data[j]).mask.len() == n && data[j].body.len() == n && column_within(
                sk,
                (data[j].mask@, data[j].body@),
                transposed_pt(db, delta, n as nat, j),
                e0,
            ),
        0 <= e0,
        fwd.wf(),
        fwd.poly_size == n,
        rgsw_encrypts_poly(sk, fwd, fwd.base_log, monomial(n as nat, fwd_degree(n as nat, row), false)),
        rev.wf(),
        rev.poly_size == n,
        rev.base_log == fwd.base_log,
        rev.level_count == fwd.level_count,
        rgsw_encrypts_poly(sk, rev, rev.base_log, monomial(n as nat, row, row != 0)),
        ct_new.mask.len() == n,
        ct_new.body.len() == n,
        encrypts_with_binary_noise(sk, ct_new, write_pt(new_row, delta, row != 0, n as nat)),
        ksks.len() == n,
        ksk_shape(ksks, n, ks_base_log, ks_level_count, modulus),
        forall|i: int| 0 <= i < n ==> rgsw_encrypts_constant(sk, #[trigger] ksks[i], sk[i]),
        valid_decomposition(ks_base_log, ks_level_count),
        forall|j: int|
            0 <= j < data.len() ==> (#[trigger] new_data[j].mask@, new_data[j].body@) == written_column(
                fwd,
                rev,
                (ct_new.mask@, ct_new.body@),
                ksks,
                ks_base_log,
                ks_level_count,
                n,
                (data[j].mask@, data[j].body@),
                j,
            ),
        forall|j: int|
            0 <= j < data.len() ==> #[trigger] write_facts(
                fwd,
                rev,
                (ct_new.mask@, ct_new.body@),
                ksks,
                ks_base_log,
                ks_level_count,
                n,
                (data[j].mask@, data[j].body@),
                j,
            ),
        write_noise_bound(e0, n as int, fwd.base_log, fwd.level_count, ks_base_log, ks_level_count)
            < 0x4000_0000_0000_0000,
    ensures
        forall|j: int|
            0 <= j < new_data.len() ==> column_within(
                sk,
                (#[trigger] new_data[j].mask@, new_data[j].body@),
                transposed_pt(db_with_row(db, row, new_row, n as int), delta, n as nat, j),
                write_noise_bound(e0, n as int, fwd.base_log, fwd.level_count, ks_base_log, ks_level_count),
            ),
{
    assert forall|j: int| 0 <= j < new_data.len() implies column_within(
        sk,
        (#[trigger] new_data[j].mask@, new_data[j].body@),
        transposed_pt(db_with_row(db, row, new_row, n as int), delta, n as nat, j),
        write_noise_bound(e0, n as int, fwd.base_log, fwd.level_count, ks_base_log, ks_level_count),
    ) by {
        let col = (data[j].mask@, data[j].body@);
        assert(write_facts(fwd, rev, (ct_new.mask@, ct_new.body@), ksks, ks_base_log, ks_level_count, n, col, j));
        lemma_write_column(
            sk,
            n,
            db,
            new_row,
            delta,
            row,
            fwd,
            rev,
            ct_new,
            ksks,
            ks_base_log,
            ks_level_count,
            modulus,
            col,
            j,
            e0,
        );
        assert((new_data[j].mask@, new_data[j].body@) == written_column(
            fwd,
            rev,
            (ct_new.mask@, ct_new.body@),
            ksks,
            ks_base_log,
            ks_level_count,
            n,
            col,
            j,
        ));
    }
}

} // verus!
