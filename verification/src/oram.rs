//! The ORAM client and server that keep a database as RLWE ciphertexts.
use vstd::prelude::*;

use crate::backend::{
    glwe_decryption, is_native, native_compatible, reduced_under, seeded_word, std_rng_from_seed, std_rng_next_u64, thread_rng, thread_rng_below, valid_modulus,
};
use crate::codec::poly_decode_spec;
use crate::context::Context;
use crate::keyswitch::{subs_body, subs_mask, RLWEKeyswitchKey};
use crate::lwe::{conv_acc, conv_body, conv_count, conv_digit, conv_lwe_to_rlwe, conv_phase, conv_ready, sample_extract_mask, LWECiphertext};
use crate::rgsw::{ext_prod_acc, ext_prod_phase};
use crate::backend::{digit_in_range, signed_decomposition};
use std::collections::HashMap;
use vstd::arithmetic::power2::pow2;
use crate::lwe::{ksk_shape, LWESecretKey, LWEtoRLWEKeyswitchKey};
use crate::params::TFHEParameters;
use crate::poly::{
    lemma_wrap_add, lemma_wrap_small, lemma_wrap_sub, lemma_wrapping_add,
    lemma_wrapping_mul, lemma_wrapping_sub, monomial, nega_partial, nega_partner, nega_term,
    negacyclic, rotate, rotate_poly, seq_add, seq_sub, wrap, zero_poly, floor_log2, log2, pow2_usize,
    slice_sub_assign, eval_x_k_spec, word_modulus,
};
use crate::rgsw::RGSWCiphertext;
use crate::packing::{pack_digits_ok, pack_err, pack_subs_ok};
use crate::keyswitch::ks_phase;
use crate::rlwe::{
    encrypts_with_binary_noise, is_binary, neg_key, phase, rgsw_encrypts_constant, rgsw_encrypts_poly,
    RLWECiphertext, RLWESecretKey,
};

verus! {

/// Exact negacyclic product in `Z_q[X]/(X^N+1)`, `q = 2^64`, of the first
/// `n` coefficients of `a` and `b`.
pub fn negacyclic_mul(a: &[u64], b: &[u64], n: usize) -> (out: Vec<u64>)
    requires
        a.len() >= n,
        b.len() >= n,
    ensures
        out@ == negacyclic(a@.take(n as int), b@.take(n as int)),
{
    let ghost sa = a@.take(n as int);
    let ghost sb = b@.take(n as int);
    let mut out: Vec<u64> = Vec::new();
    let mut z: usize = 0;
    while z < n
        invariant
            z <= n,
            out.len() == z,
            forall|k: int| 0 <= k < z ==> out@[k] == 0,
        decreases n - z,
    {
        out.push(0);
        z += 1;
    }
    let mut i: usize = 0;
    while i < n
        invariant
            i <= n,
            a.len() >= n,
            b.len() >= n,
            sa == a@.take(n as int),
            sb == b@.take(n as int),
            out.len() == n,
            forall|k: int| 0 <= k < n ==> out@[k] == wrap(nega_partial(sa, sb, n as int, k, i as int)),
        decreases n - i,
    {
        if a[i] == 0 {
            assert forall|k: int| 0 <= k < n implies out@[k] == wrap(
                nega_partial(sa, sb, n as int, k, i + 1),
            ) by {
                assert(sa[i as int] == 0);
                assert(nega_term(sa, sb, n as int, i as int, k) == 0) by (nonlinear_arith)
                    requires
                        sa[i as int] == 0,
                ;
            }
            i += 1;
            continue;
        }
        let mut j: usize = 0;
        while j < n
            invariant
                i < n,
                j <= n,
                    a.len() >= n,
                b.len() >= n,
                sa == a@.take(n as int),
                sb == b@.take(n as int),
                out.len() == n,
                forall|k: int|
                    0 <= k < n ==> out@[k] == wrap(
                        nega_partial(sa, sb, n as int, k, i as int) + (if nega_partner(
                            n as int,
                            i as int,
                            k,
                        ) < j {
                            nega_term(sa, sb, n as int, i as int, k)
                        } else {
                            0
                        }),
                    ),
            decreases n - j,
        {
            let prod = a[i].wrapping_mul(b[j]);
            proof {
                lemma_wrapping_mul(a[i as int], b[j as int]);
            }
            if j < n - i {
                let k = i + j;
                let v = out[k].wrapping_add(prod);
                proof {
                    lemma_wrapping_add(out@[k as int], prod);
                    lemma_wrap_add(
                        nega_partial(sa, sb, n as int, k as int, i as int),
                        prod as int,
                    );
                    lemma_wrap_add(
                        a[i as int] * b[j as int],
                        nega_partial(sa, sb, n as int, k as int, i as int),
                    );
                    assert(nega_partner(n as int, i as int, k as int) == j);
                }
                out.set(k, v);
            } else {
                let kk_exec = j - (n - i);
                let v = out[kk_exec].wrapping_sub(prod);
                proof {
                    let kk = kk_exec as int;
                    lemma_wrapping_sub(out@[kk], prod);
                    lemma_wrap_add(nega_partial(sa, sb, n as int, kk, i as int), -(prod as int));
                    lemma_wrap_sub(
                        a[i as int] * b[j as int],
                        nega_partial(sa, sb, n as int, kk, i as int),
                    );
                    lemma_wrap_sub(
                        nega_partial(sa, sb, n as int, kk, i as int),
                        0,
                    );
                    assert(nega_partner(n as int, i as int, kk) == j);
                    assert(wrap(out@[kk] - prod) == wrap(
                        nega_partial(sa, sb, n as int, kk, i as int) - a[i as int] * b[j as int],
                    )) by {
                        lemma_wrap_sub(nega_partial(sa, sb, n as int, kk, i as int), prod as int);
                        lemma_wrap_sub(a[i as int] * b[j as int], 0);
                        assert(wrap(out@[kk] - prod) == wrap(
                            wrap(nega_partial(sa, sb, n as int, kk, i as int)) - wrap(
                                a[i as int] * b[j as int],
                            ),
                        ));
                        lemma_wrap_sub(nega_partial(sa, sb, n as int, kk, i as int), wrap(a[i as int] * b[j as int]) as int);
                        lemma_wrap_sub(a[i as int] * b[j as int], nega_partial(sa, sb, n as int, kk, i as int));
                    }
                }
                out.set(kk_exec, v);
            }
            j += 1;
        }
        i += 1;
    }
    assert(out@ =~= negacyclic(sa, sb));
    out
}

/// The first `n` words of the stream of the `StdRng` seeded with `seed`.
pub open spec fn fixed_mask(seed: u64, n: nat) -> Seq<u64> {
    Seq::new(n, |i: int| seeded_word(seed, i as nat))
}

/// `n` words drawn from a `StdRng` seeded with `seed`: the same seed gives
/// the same mask, wherever it is drawn.
pub fn gen_fixed_mask(seed: u64, n: usize) -> (r: Vec<u64>)
    ensures
        r@ == fixed_mask(seed, n as nat),
{
    let mut rng = std_rng_from_seed(seed);
    let mut out: Vec<u64> = Vec::new();
    let mut i: usize = 0;
    while i < n
        invariant
            i <= n,
            rng.seed() == seed,
            rng.drawn() == i,
            out@ == fixed_mask(seed, i as nat),
        decreases n - i,
    {
        let w = std_rng_next_u64(&mut rng);
        out.push(w);
        i += 1;
        assert(out@ =~= fixed_mask(seed, i as nat));
    }
    out
}

/// A shorter mask of a seed is a prefix of a longer one.
pub proof fn lemma_fixed_mask_prefix(seed: u64, m: nat, n: nat)
    requires
        m <= n,
    ensures
        fixed_mask(seed, m) == fixed_mask(seed, n).take(m as int),
{
    assert(fixed_mask(seed, m) =~= fixed_mask(seed, n).take(m as int));
}

/// The plaintext of column `j` of a database of `n`-word rows: coefficient
/// `k` is `delta * db[k * n + j]` for each full row `k`, zero after.
pub open spec fn transposed_pt(db: Seq<u64>, delta: u64, n: nat, j: int) -> Seq<u64> {
    Seq::new(n, |k: int| if k < db.len() / n { wrap(delta * db[k * n + j]) } else { 0u64 })
}

/// The plaintext of a row write: coefficient `j` is `delta * new_row[j]`,
/// negated when `negate`.
pub open spec fn write_pt(new_row: Seq<u64>, delta: u64, negate: bool, n: nat) -> Seq<u64> {
    Seq::new(
        n,
        |j: int|
            {
                let v = wrap(delta * new_row[j]);
                if negate {
                    wrap(-v)
                } else {
                    v
                }
            },
    )
}

/// The degree of the forward rotation that brings coefficient `row` to the
/// constant coefficient: `X^((n - row) mod n)`.
pub open spec fn fwd_degree(n: nat, row: int) -> int {
    (n - row) % (n as int)
}

/// The ORAM client: its secret key, its context and the shape of the database.
pub struct Client {
    pub sk: RLWESecretKey,
    pub ctx: Context,
    pub rows: usize,
    pub cols: usize,
}

impl Client {
    /// A well-formed context and a binary key of the context's size.
    pub open spec fn wf(&self) -> bool {
        &&& self.ctx.wf()
        &&& self.sk.wf()
        &&& is_binary(self.sk.key@)
        &&& self.sk.key.len() == self.ctx.poly_size
    }

    /// A client with a fresh binary key for `params`. Set `rows = 1` when no
    /// batching is needed.
    pub fn new(rows: usize, cols: usize, params: TFHEParameters) -> (r: Self)
        requires
            params.wf(),
        ensures
            r.wf(),
            r.rows == rows,
            r.cols == cols,
            r.ctx.poly_size == params.polynomial_size,
            r.ctx.base_log == params.base_log,
            r.ctx.level_count == params.level_count,
            r.ctx.ks_base_log == params.key_switch_base_log,
            r.ctx.ks_level_count == params.key_switch_level_count,
            r.ctx.negs_base_log == params.negs_base_log,
            r.ctx.negs_level_count == params.negs_level_count,
            r.ctx.modulus == params.modulus,
            r.ctx.codec.pt_modulus == params.plaintext_modulus,
    {
        let mut ctx = Context::new(params);
        let sk = RLWESecretKey::generate_binary(ctx.poly_size, &mut ctx.secret_generator);
        Client { sk, ctx, rows, cols }
    }

    /// An RGSW encryption of `-s` (see `RLWESecretKey::neg_gsw`).
    pub fn gen_neg_sk(&mut self) -> (r: RGSWCiphertext)
        requires
            old(self).wf(),
            4 * old(self).ctx.negs_level_count * old(self).ctx.poly_size <= usize::MAX,
            old(self).ctx.base_log * old(self).ctx.negs_level_count < 64,
            is_native(old(self).ctx.modulus),
        ensures
            final(self).wf(),
            final(self).sk == old(self).sk,
            final(self).ctx.same_params(old(self).ctx),
            final(self).rows == old(self).rows,
            final(self).cols == old(self).cols,
            r.wf(),
            r.poly_size == old(self).ctx.poly_size,
            r.base_log == old(self).ctx.negs_base_log,
            r.level_count == old(self).ctx.negs_level_count,
            r.modulus == old(self).ctx.modulus,
            is_native(r.modulus) ==> rgsw_encrypts_poly(
                old(self).sk.key@,
                r,
                old(self).ctx.base_log,
                neg_key(old(self).sk.key@),
            ),
    {
        self.sk.neg_gsw(&mut self.ctx)
    }

    /// Encrypt the database `db` of rows of `N` words column by column:
    /// ciphertext `j` encrypts `transposed_pt(db, delta_scaled, N, j)`.
    pub fn encrypt_database_transposed(&mut self, db: &[u64], delta_scaled: u64) -> (out: Vec<RLWECiphertext>)
        requires
            is_native(old(self).ctx.modulus),
            old(self).wf(),
            db.len() / old(self).ctx.poly_size <= old(self).ctx.poly_size,
        ensures
            final(self).wf(),
            final(self).sk == old(self).sk,
            final(self).ctx.same_params(old(self).ctx),
            final(self).rows == old(self).rows,
            final(self).cols == old(self).cols,
            out.len() == old(self).ctx.poly_size,
            forall|j: int|
                0 <= j < out.len() ==> (#[trigger] out@[j]).wf() && out@[j].mask.len()
                    == old(self).ctx.poly_size && out@[j].modulus == old(self).ctx.modulus,
            forall|j: int|
                0 <= j < out.len() ==> encrypts_with_binary_noise(
                    old(self).sk.key@,
                    #[trigger] out@[j],
                    transposed_pt(db@, delta_scaled, old(self).ctx.poly_size as nat, j),
                ),
    {
        let n = self.ctx.poly_size;
        let m = db.len() / n;
        let mut out: Vec<RLWECiphertext> = Vec::new();
        let mut j: usize = 0;
        while j < n
            invariant
                self.wf(),
                is_native(self.ctx.modulus),
                self.sk == old(self).sk,
                self.ctx.same_params(old(self).ctx),
                self.rows == old(self).rows,
                self.cols == old(self).cols,
                n == self.ctx.poly_size,
                m == db.len() / n,
                m <= n,
                j <= n,
                out.len() == j,
                forall|j2: int|
                    0 <= j2 < j ==> (#[trigger] out@[j2]).wf() && out@[j2].mask.len() == n
                        && out@[j2].modulus == self.ctx.modulus,
                is_native(self.ctx.modulus) ==> forall|j2: int|
                    0 <= j2 < j ==> encrypts_with_binary_noise(
                        self.sk.key@,
                        #[trigger] out@[j2],
                        transposed_pt(db@, delta_scaled, n as nat, j2),
                    ),
            decreases n - j,
        {
            let mut pt = self.ctx.gen_zero_pt();
            let mut k: usize = 0;
            while k < m
                invariant
                    n == self.ctx.poly_size,
                    n > 0,
                    m == db.len() / n,
                    m <= n,
                    j < n,
                    k <= m,
                    pt.len() == n,
                    forall|k2: int| 0 <= k2 < k ==> pt@[k2] == transposed_pt(db@, delta_scaled, n as nat, j as int)[k2],
                    forall|k2: int| k <= k2 < n ==> pt@[k2] == 0,
                decreases m - k,
            {
                proof {
                    assert(k * n + j < db.len()) by (nonlinear_arith)
                        requires
                            k < m,
                            j < n,
                            m == db.len() / n,
                            n > 0,
                    {
                        assert(m * n <= db.len()) by {
                            vstd::arithmetic::div_mod::lemma_fundamental_div_mod(db.len() as int, n as int);
                            vstd::arithmetic::mul::lemma_mul_is_commutative(m as int, n as int);
                        }
                        assert(k * n + j < (k + 1) * n);
                        assert((k + 1) * n <= m * n) by {
                            vstd::arithmetic::mul::lemma_mul_inequality((k + 1) as int, m as int, n as int);
                        }
                    }
                }
                let v = delta_scaled.wrapping_mul(db[k * n + j]);
                proof {
                    lemma_wrapping_mul(delta_scaled, db@[k * n + j]);
                }
                pt.set(k, v);
                k += 1;
            }
            assert(pt@ =~= transposed_pt(db@, delta_scaled, n as nat, j as int));
            let mut ct = RLWECiphertext::allocate(n, self.ctx.modulus);
            self.sk.encrypt_rlwe_binary(&mut ct, &pt, &mut self.ctx.encryption_generator);
            out.push(ct);
            j += 1;
        }
        out
    }

    /// A database of `rows * cols` items drawn uniformly below the
    /// plaintext modulus.
    pub fn gen_dummy_database(&mut self) -> (db: Vec<u64>)
        requires
            old(self).wf(),
            old(self).rows * old(self).cols <= usize::MAX,
        ensures
            *final(self) == *old(self),
            db.len() == old(self).rows * old(self).cols,
            forall|i: int| 0 <= i < db.len() ==> #[trigger] db@[i] < old(self).ctx.codec.pt_modulus,
    {
        let item_count = self.rows * self.cols;
        let max_db_element = self.ctx.codec.pt_modulus();
        let mut db: Vec<u64> = Vec::new();
        let mut i: usize = 0;
        while item_count > i
            invariant
                self.wf(),
                max_db_element == self.ctx.codec.pt_modulus,
                i <= item_count,
                db.len() == i,
                forall|i2: int| 0 <= i2 < i ==> #[trigger] db@[i2] < max_db_element,
            decreases item_count - i,
        {
            proof {
                vstd::arithmetic::power2::lemma_pow2_pos(self.ctx.codec.pt_bits as nat);
            }
            let mut rng = thread_rng();
            let data_item = thread_rng_below(&mut rng, max_db_element);
            db.push(data_item);
            i += 1;
        }
        db
    }

    /// Decrypt and decode the answer of the server.
    pub fn decrypt_final_result(&mut self, query: RLWECiphertext) -> (pt: Vec<u64>)
        requires
            old(self).wf(),
            query.mask.len() == old(self).ctx.poly_size,
            query.body.len() == old(self).ctx.poly_size,
            valid_modulus(query.modulus),
            reduced_under(query.modulus, old(self).sk.key@),
            reduced_under(query.modulus, query.mask@),
            reduced_under(query.modulus, query.body@),
        ensures
            *final(self) == *old(self),
            pt.len() == old(self).ctx.poly_size,
            pt@ == poly_decode_spec(
                old(self).ctx.codec.pt_bits as nat,
                glwe_decryption(old(self).sk.key@, query.mask@, query.body@, query.modulus),
            ),
            is_native(query.modulus) ==> pt@ == poly_decode_spec(
                old(self).ctx.codec.pt_bits as nat,
                phase(old(self).sk.key@, query.mask@, query.body@),
            ),
    {
        let mut pt = self.ctx.gen_zero_pt();
        self.sk.decrypt_decode_rlwe(&mut pt, &query, &self.ctx);
        pt
    }

    /// The key that lets the server move an extracted LWE coefficient back
    /// to an RLWE ciphertext: the client's key seen as an LWE key.
    pub fn gen_lwe_to_rlwe_ksk(&mut self) -> (ksk: LWEtoRLWEKeyswitchKey)
        requires
            old(self).wf(),
            4 * old(self).ctx.ks_level_count * old(self).ctx.poly_size <= usize::MAX,
            is_native(old(self).ctx.modulus),
        ensures
            final(self).wf(),
            final(self).sk == old(self).sk,
            final(self).ctx.same_params(old(self).ctx),
            final(self).rows == old(self).rows,
            final(self).cols == old(self).cols,
            ksk.inner.len() == old(self).ctx.poly_size,
            ksk_shape(
                ksk.inner@,
                old(self).ctx.poly_size,
                old(self).ctx.ks_base_log,
                old(self).ctx.ks_level_count,
                old(self).ctx.modulus,
            ),
            is_native(old(self).ctx.modulus) ==> forall|i: int|
                0 <= i < old(self).ctx.poly_size ==> rgsw_encrypts_constant(
                    old(self).sk.key@,
                    #[trigger] ksk.inner@[i],
                    old(self).sk.key@[i],
                ),
    {
        let lwe_sk = LWESecretKey { key: self.sk.key.clone() };
        let mut ksk = LWEtoRLWEKeyswitchKey::allocate(&self.ctx);
        ksk.fill_with_keyswitching_key(&lwe_sk, &mut self.ctx);
        ksk
    }

    /// The write query for row `row`: RGSW encryptions of the forward
    /// rotation `X^((N - row) mod N)` and of its inverse (`1` when
    /// `row == 0`, `-X^row` otherwise), and an encryption of the new row
    /// scaled by `delta_scaled`, negated when `row != 0`.
    pub fn gen_row_write_query(&mut self, row: usize, new_row: &[u64], delta_scaled: u64) -> (r: (
        RGSWCiphertext,
        RGSWCiphertext,
        RLWECiphertext,
    ))
        requires
            old(self).wf(),
            row < old(self).ctx.poly_size,
            new_row.len() >= old(self).ctx.poly_size,
            4 * old(self).ctx.level_count * old(self).ctx.poly_size <= usize::MAX,
            is_native(old(self).ctx.modulus),
        ensures
            final(self).wf(),
            final(self).sk == old(self).sk,
            final(self).ctx.same_params(old(self).ctx),
            final(self).rows == old(self).rows,
            final(self).cols == old(self).cols,
            r.0.wf(),
            r.0.poly_size == old(self).ctx.poly_size,
            r.0.base_log == old(self).ctx.base_log,
            r.0.level_count == old(self).ctx.level_count,
            r.0.modulus == old(self).ctx.modulus,
            r.1.wf(),
            r.1.poly_size == old(self).ctx.poly_size,
            r.1.base_log == old(self).ctx.base_log,
            r.1.level_count == old(self).ctx.level_count,
            r.1.modulus == old(self).ctx.modulus,
            r.2.wf(),
            r.2.mask.len() == old(self).ctx.poly_size,
            r.2.modulus == old(self).ctx.modulus,
            is_native(old(self).ctx.modulus) ==> rgsw_encrypts_poly(
                old(self).sk.key@,
                r.0,
                old(self).ctx.base_log,
                monomial(old(self).ctx.poly_size as nat, fwd_degree(old(self).ctx.poly_size as nat, row as int), false),
            ),
            is_native(old(self).ctx.modulus) ==> rgsw_encrypts_poly(
                old(self).sk.key@,
                r.1,
                old(self).ctx.base_log,
                monomial(old(self).ctx.poly_size as nat, row as int, row != 0),
            ),
            is_native(old(self).ctx.modulus) ==> encrypts_with_binary_noise(
                old(self).sk.key@,
                r.2,
                write_pt(new_row@, delta_scaled, row != 0, old(self).ctx.poly_size as nat),
            ),
    {
        let n = self.ctx.poly_size;
        let s_neg = row != 0;
        let fwd_deg = (n - row) % n;
        let mut fwd_pt = self.ctx.gen_zero_pt();
        fwd_pt.set(fwd_deg, 1);
        assert(fwd_pt@ =~= monomial(n as nat, fwd_deg as int, false));
        proof {
            assert(4 * self.ctx.level_count <= 4 * self.ctx.level_count * self.ctx.poly_size) by (nonlinear_arith)
                requires
                    self.ctx.poly_size >= 1,
            ;
        }
        let mut fwd = RGSWCiphertext::allocate(n, self.ctx.base_log, self.ctx.level_count, self.ctx.modulus);
        self.sk.encrypt_rgsw(&mut fwd, &fwd_pt, &mut self.ctx);

        let mut rev_pt = self.ctx.gen_zero_pt();
        if row == 0 {
            rev_pt.set(0, 1);
        } else {
            rev_pt.set(row, u64::MAX);
        }
        assert(rev_pt@ =~= monomial(n as nat, row as int, s_neg));
        let mut rev = RGSWCiphertext::allocate(n, self.ctx.base_log, self.ctx.level_count, self.ctx.modulus);
        self.sk.encrypt_rgsw(&mut rev, &rev_pt, &mut self.ctx);

        let mut pt = self.ctx.gen_zero_pt();
        let mut j: usize = 0;
        while j < n
            invariant
                n == self.ctx.poly_size,
                new_row.len() >= n,
                pt.len() == n,
                j <= n,
                forall|j2: int| 0 <= j2 < j ==> pt@[j2] == write_pt(new_row@, delta_scaled, s_neg, n as nat)[j2],
            decreases n - j,
        {
            let v = delta_scaled.wrapping_mul(new_row[j]);
            proof {
                lemma_wrapping_mul(delta_scaled, new_row@[j as int]);
            }
            let w = if s_neg {
                proof {
                    lemma_wrapping_sub(0, v);
                }
                0u64.wrapping_sub(v)
            } else {
                v
            };
            pt.set(j, w);
            j += 1;
        }
        assert(pt@ =~= write_pt(new_row@, delta_scaled, s_neg, n as nat));
        let mut ct_new = RLWECiphertext::allocate(n, self.ctx.modulus);
        self.sk.encrypt_rlwe_binary(&mut ct_new, &pt, &mut self.ctx.encryption_generator);
        (fwd, rev, ct_new)
    }
}

/// The two rotations of a write query undo each other: the forward
/// rotation `X^((N - row) mod N)` times the reverse one (`1` when `row == 0`,
/// `-X^row` otherwise) is `1` in `Z_q[X]/(X^N + 1)`.
pub proof fn lemma_write_rotations_inverse(n: nat, row: int)
    requires
        0 <= row < n,
    ensures
        negacyclic(monomial(n, fwd_degree(n, row), false), monomial(n, row, row != 0)) == monomial(n, 0, false),
{
    let f = fwd_degree(n, row);
    let a = monomial(n, f, false);
    vstd::arithmetic::div_mod::lemma_mod_bound(n - row, n as int);
    crate::poly::lemma_rotate_is_monomial_product(a, row, row != 0);
    let r = rotate(a, row, row != 0);
    assert forall|j: int| 0 <= j < n implies r[j] == monomial(n, 0, false)[j] by {
        vstd::arithmetic::div_mod::lemma_mod_bound(j + n - row % (n as int), n as int);
        vstd::arithmetic::div_mod::lemma_small_mod(row as nat, n);
        let i = crate::poly::rotate_source(n as int, row, j);
        if row == 0 {
            vstd::arithmetic::div_mod::lemma_small_mod(j as nat, n);
            vstd::arithmetic::div_mod::lemma_mod_self_0(n as int);
            vstd::arithmetic::div_mod::lemma_fundamental_div_mod_converse(j + n, n as int, 1, j);
            assert(i == j);
            assert(f == 0);
            vstd::arithmetic::div_mod::lemma_fundamental_div_mod_converse(j, n as int, 0, j);
        } else {
            vstd::arithmetic::div_mod::lemma_small_mod((n - row) as nat, n);
            if j == 0 {
                vstd::arithmetic::div_mod::lemma_small_mod((n - row) as nat, n);
                assert(i == n - row);
                vstd::arithmetic::div_mod::lemma_fundamental_div_mod_converse(n - row + row, n as int, 1, 0);
            } else {
                if j < row {
                    vstd::arithmetic::div_mod::lemma_small_mod((j + n - row) as nat, n);
                } else {
                    vstd::arithmetic::div_mod::lemma_fundamental_div_mod_converse(j + n - row, n as int, 1, j - row);
                }
                assert(i != n - row);
                lemma_wrap_small(0);
                assert(wrap(-0int) == 0);
            }
        }
    }
    assert(r =~= monomial(n, 0, false));
}

/// The mask and the body of each ciphertext (their modulus is stated apart).
pub open spec fn cts_view(cts: Seq<RLWECiphertext>) -> Seq<(Seq<u64>, Seq<u64>)> {
    cts.map_values(|c: RLWECiphertext| (c.mask@, c.body@))
}

/// A ciphertext `(mask, body)` multiplied by `X^shift` (by `-X^shift` when `negate`).
pub open spec fn rotate_view(c: (Seq<u64>, Seq<u64>), shift: int, negate: bool) -> (Seq<u64>, Seq<u64>) {
    (rotate(c.0, shift, negate), rotate(c.1, shift, negate))
}

/// The sum of two ciphertexts.
pub open spec fn add_view(a: (Seq<u64>, Seq<u64>), b: (Seq<u64>, Seq<u64>)) -> (Seq<u64>, Seq<u64>) {
    (seq_add(a.0, b.0), seq_add(a.1, b.1))
}

/// The external product of `g` with the ciphertext `c`.
pub open spec fn ext_prod_view(g: RGSWCiphertext, c: (Seq<u64>, Seq<u64>)) -> (Seq<u64>, Seq<u64>) {
    (
        ext_prod_acc(g.data@, g.poly_size as int, g.base_log, g.level_count, c.0, c.1, g.level_count as int, false),
        ext_prod_acc(g.data@, g.poly_size as int, g.base_log, g.level_count, c.0, c.1, g.level_count as int, true),
    )
}

/// The CDKS packing of `2^ell` ciphertexts taken from `cts` from `start` on
/// with stride `2^(log_n - ell)`: the packings of the even and of the odd
/// halves are combined as `(e + X^step o) + subs_(2^ell + 1)(e - X^step o)`.
pub open spec fn pack_spec(
    m: Map<usize, RLWEKeyswitchKey>,
    log_n: nat,
    ell: nat,
    start: int,
    cts: Seq<(Seq<u64>, Seq<u64>)>,
) -> (Seq<u64>, Seq<u64>)
    decreases ell,
{
    if ell == 0 {
        cts[start]
    } else {
        let step = pow2((log_n - ell) as nat) as int;
        let even = pack_spec(m, log_n, (ell - 1) as nat, start, cts);
        let odd = pack_spec(m, log_n, (ell - 1) as nat, start + step, cts);
        let diff = add_view(even, rotate_view(odd, step, true));
        let sum = add_view(even, rotate_view(odd, step, false));
        let ksk = m[(pow2(ell) + 1) as usize];
        add_view(sum, (subs_mask(ksk, diff.0), subs_body(ksk, diff.0, diff.1)))
    }
}

/// `m` holds under `k` a well-formed key switching key of size `n`.
pub open spec fn has_subs_key(m: Map<usize, RLWEKeyswitchKey>, k: int, n: usize) -> bool {
    &&& m.contains_key(k as usize)
    &&& m[k as usize].wf()
    &&& m[k as usize].polynomial_size == n
}

/// `m` holds the keys of the substitutions `X -> X^(2^e + 1)`, `1 <= e <= ell`.
pub open spec fn pack_keys(m: Map<usize, RLWEKeyswitchKey>, n: usize, ell: nat) -> bool {
    forall|e: nat| 1 <= e <= ell ==> #[trigger] has_subs_key(m, pow2(e) + 1int, n)
}

/// How far past `start` a packing of level `ell` reads.
pub open spec fn pack_span(log_n: nat, ell: nat) -> int {
    pow2(log_n) - pow2((log_n - ell) as nat)
}

fn copy_ct(c: &RLWECiphertext) -> (r: RLWECiphertext)
    ensures
        r.mask@ == c.mask@,
        r.body@ == c.body@,
        r.modulus == c.modulus,
{
    RLWECiphertext { mask: c.mask.clone(), body: c.body.clone(), modulus: c.modulus }
}

/// `ct` multiplied by `X^shift`, or by `-X^shift` when `negate`.
fn monomial_mul(ct: &RLWECiphertext, shift: usize, negate: bool, ctx: &Context) -> (out: RLWECiphertext)
    requires
        ctx.poly_size > 0,
        ct.mask.len() == ctx.poly_size,
        ct.body.len() == ctx.poly_size,
        shift <= usize::MAX - ctx.poly_size,
    ensures
        out.mask@ == rotate(ct.mask@, shift as int, negate),
        out.body@ == rotate(ct.body@, shift as int, negate),
        out.mask.len() == ctx.poly_size,
        out.body.len() == ctx.poly_size,
        out.modulus == ctx.modulus,
{
    let n = ctx.poly_size;
    let mut out = RLWECiphertext::allocate(n, ctx.modulus);
    rotate_poly(&mut out.mask, ct.mask.as_slice(), shift, negate, n);
    rotate_poly(&mut out.body, ct.body.as_slice(), shift, negate, n);
    assert(out.mask@ =~= out.mask@.take(n as int));
    assert(out.body@ =~= out.body@.take(n as int));
    assert(ct.mask@ =~= ct.mask@.take(n as int));
    assert(ct.body@ =~= ct.body@.take(n as int));
    out
}

/// CDKS packing: the constant coefficient of ciphertext `start + k * 2^(log N - ell)`
/// lands, multiplied by `2^ell`, in coefficient `k * 2^(log N - ell)` of the
/// result, and the other coefficients are cancelled.
fn pack_lwes_cdks(
    ctx: &Context,
    ell: usize,
    start_idx: usize,
    rlwe_cts: &[RLWECiphertext],
    subs_ksk_map: &HashMap<usize, RLWEKeyswitchKey>,
) -> (out: RLWECiphertext)
    requires
        ctx.poly_size > 0,
        ctx.poly_size <= usize::MAX / 2,
        ell <= floor_log2(ctx.poly_size as nat),
        start_idx + pack_span(floor_log2(ctx.poly_size as nat), ell as nat) < rlwe_cts.len(),
        forall|i: int|
            0 <= i < rlwe_cts.len() ==> (#[trigger] rlwe_cts@[i]).mask.len() == ctx.poly_size
                && rlwe_cts@[i].body.len() == ctx.poly_size,
        pack_keys(subs_ksk_map@, ctx.poly_size, ell as nat),
    ensures
        (out.mask@, out.body@) == pack_spec(
            subs_ksk_map@,
            floor_log2(ctx.poly_size as nat),
            ell as nat,
            start_idx as int,
            cts_view(rlwe_cts@),
        ),
        out.mask.len() == ctx.poly_size,
        out.body.len() == ctx.poly_size,
        out.modulus == rlwe_cts@[start_idx as int].modulus,
        forall|sk: Seq<u64>, q: int|
            #![trigger pack_err(subs_ksk_map@, floor_log2(ctx.poly_size as nat), ell as nat, start_idx as int, cts_view(rlwe_cts@), sk, q)]
            sk.len() == ctx.poly_size && pow2(floor_log2(ctx.poly_size as nat)) == ctx.poly_size && 0 <= q < pow2(
                ell as nat,
            ) && pack_subs_ok(subs_ksk_map@, ell as nat) ==> (phase(sk, out.mask@, out.body@)[q * pow2(
                (floor_log2(ctx.poly_size as nat) - ell) as nat,
            )] as int) % word_modulus() == (pow2(ell as nat) * phase(
                sk,
                cts_view(rlwe_cts@)[start_idx + q * pow2((floor_log2(ctx.poly_size as nat) - ell) as nat)].0,
                cts_view(rlwe_cts@)[start_idx + q * pow2((floor_log2(ctx.poly_size as nat) - ell) as nat)].1,
            )[0] + pack_err(
                subs_ksk_map@,
                floor_log2(ctx.poly_size as nat),
                ell as nat,
                start_idx as int,
                cts_view(rlwe_cts@),
                sk,
                q,
            )) % word_modulus(),
        pack_digits_ok(
            subs_ksk_map@,
            floor_log2(ctx.poly_size as nat),
            ell as nat,
            start_idx as int,
            cts_view(rlwe_cts@),
        ),
    decreases ell,
{
    broadcast use vstd::std_specs::hash::group_hash_axioms;

    let n = ctx.poly_size;
    let log_n = log2(n);
    proof {
        crate::poly::lemma_pow2_floor_log2_le(n as nat);
        vstd::arithmetic::power2::lemma_pow2_pos((log_n - ell) as nat);
    }
    if ell == 0 {
        let out = copy_ct(&rlwe_cts[start_idx]);
        proof {
            vstd::arithmetic::power2::lemma2_to64();
            assert forall|sk: Seq<u64>, q: int|
                sk.len() == n && 0 <= q < pow2(ell as nat) implies (phase(sk, out.mask@, out.body@)[q * pow2(
                (log_n - ell) as nat,
            )] as int) % word_modulus() == (pow2(ell as nat) * phase(
                sk,
                cts_view(rlwe_cts@)[start_idx + q * pow2((log_n - ell) as nat)].0,
                cts_view(rlwe_cts@)[start_idx + q * pow2((log_n - ell) as nat)].1,
            )[0] + #[trigger] pack_err(subs_ksk_map@, log_n as nat, ell as nat, start_idx as int, cts_view(rlwe_cts@), sk, q))
                % word_modulus() by {
                assert(q == 0);
                assert(pow2(0) == 1);
            }
            assert(pack_digits_ok(subs_ksk_map@, log_n as nat, 0, start_idx as int, cts_view(rlwe_cts@)));
        }
        return out;
    }
    proof {
        vstd::arithmetic::power2::lemma_pow2_unfold((log_n - ell + 1) as nat);
        if log_n - ell < log_n {
            vstd::arithmetic::power2::lemma_pow2_strictly_increases((log_n - ell) as nat, log_n as nat);
        }
        if ell < log_n {
            vstd::arithmetic::power2::lemma_pow2_strictly_increases(ell as nat, log_n as nat);
        }
        if log_n - ell + 1 < log_n {
            vstd::arithmetic::power2::lemma_pow2_strictly_increases((log_n - ell + 1) as nat, log_n as nat);
        }
        assert(has_subs_key(subs_ksk_map@, pow2(ell as nat) + 1int, n));
    }
    let step = pow2_usize(log_n - ell, n);
    let mut ct_even = pack_lwes_cdks(ctx, ell - 1, start_idx, rlwe_cts, subs_ksk_map);
    let ct_odd = pack_lwes_cdks(ctx, ell - 1, start_idx + step, rlwe_cts, subs_ksk_map);

    let y_times_ct_odd = monomial_mul(&ct_odd, step, false, ctx);
    let neg_y_times_ct_odd = monomial_mul(&ct_odd, step, true, ctx);

    let mut ct_sum_1 = copy_ct(&ct_even);
    ct_sum_1.update_with_add(&neg_y_times_ct_odd);
    ct_even.update_with_add(&y_times_ct_odd);

    let k = pow2_usize(ell, n) + 1;
    let ksk = subs_ksk_map.get(&k).expect("missing subs_ksk");
    let mut ct_auto = RLWECiphertext::allocate(n, ctx.modulus);
    ksk.subs(&mut ct_auto, &ct_sum_1);
    let ghost sum_mask = ct_even.mask@;
    let ghost sum_body = ct_even.body@;
    ct_even.update_with_add(&ct_auto);
    proof {
        let m = subs_ksk_map@;
        let cts = cts_view(rlwe_cts@);
        let ln = log_n as nat;
        assert forall|sk: Seq<u64>, q: int|
            sk.len() == n && pow2(ln) == n && 0 <= q < pow2(ell as nat) && pack_subs_ok(m, ell as nat) implies (phase(
            sk,
            ct_even.mask@,
            ct_even.body@,
        )[q * pow2((ln - ell) as nat)] as int) % word_modulus() == (pow2(ell as nat) * phase(
            sk,
            cts[start_idx + q * pow2((ln - ell) as nat)].0,
            cts[start_idx + q * pow2((ln - ell) as nat)].1,
        )[0] + #[trigger] pack_err(m, ln, ell as nat, start_idx as int, cts, sk, q)) % word_modulus() by {
            let kk = ksk.subs_k as int;
            assert(pack_subs_ok(m, (ell - 1) as nat));
            assert(phase(sk, ct_auto.mask@, ct_auto.body@) == ks_phase(
                ksk.ksks@,
                ksk.decomp_base_log,
                ksk.decomp_level_count,
                eval_x_k_spec(ct_sum_1.mask@, kk),
                eval_x_k_spec(ct_sum_1.body@, kk),
                sk,
                eval_x_k_spec(sk, kk),
            ));
            let step2 = 2 * (step as int);
            assert forall|q2: int| 0 <= q2 < pow2((ell - 1) as nat) implies (#[trigger] phase(
                sk,
                pack_spec(m, ln, (ell - 1) as nat, start_idx as int, cts).0,
                pack_spec(m, ln, (ell - 1) as nat, start_idx as int, cts).1,
            )[q2 * step2] as int) % word_modulus() == (pow2((ell - 1) as nat) * phase(
                sk,
                cts[start_idx + q2 * step2].0,
                cts[start_idx + q2 * step2].1,
            )[0] + pack_err(m, ln, (ell - 1) as nat, start_idx as int, cts, sk, q2)) % word_modulus() by {
                assert(pow2((ln - (ell - 1) as nat) as nat) == step2);
                assert(pack_err(m, ln, (ell - 1) as nat, start_idx as int, cts, sk, q2) == pack_err(
                    m,
                    ln,
                    (ell - 1) as nat,
                    start_idx as int,
                    cts,
                    sk,
                    q2,
                ));
            }
            assert forall|q2: int| 0 <= q2 < pow2((ell - 1) as nat) implies (#[trigger] phase(
                sk,
                pack_spec(m, ln, (ell - 1) as nat, start_idx + step, cts).0,
                pack_spec(m, ln, (ell - 1) as nat, start_idx + step, cts).1,
            )[q2 * step2] as int) % word_modulus() == (pow2((ell - 1) as nat) * phase(
                sk,
                cts[start_idx + step + q2 * step2].0,
                cts[start_idx + step + q2 * step2].1,
            )[0] + pack_err(m, ln, (ell - 1) as nat, start_idx + step, cts, sk, q2)) % word_modulus() by {
                assert(pow2((ln - (ell - 1) as nat) as nat) == step2);
                assert(pack_err(m, ln, (ell - 1) as nat, start_idx + step, cts, sk, q2) == pack_err(
                    m,
                    ln,
                    (ell - 1) as nat,
                    start_idx + step,
                    cts,
                    sk,
                    q2,
                ));
            }
            crate::packing::lemma_pack_level(m, ln, ell as nat, start_idx as int, cts, sk, q, ct_auto.mask@, ct_auto.body@);
        }
        assert(pack_digits_ok(m, ln, ell as nat, start_idx as int, cts));
    }
    ct_even
}

/// Ciphertexts written once for all queries: the packing of the masks.
pub struct PackOfflineData {
    pub o: RLWECiphertext,
}

/// `n` zero ciphertexts in which `inputs[k]` is put at position `k * s`,
/// `k = 0..count`, in that order.
pub open spec fn strided_view(inputs: Seq<(Seq<u64>, Seq<u64>)>, n: nat, s: int, count: int) -> Seq<(Seq<u64>, Seq<u64>)>
    decreases count,
{
    if count <= 0 {
        Seq::new(n, |p: int| (zero_poly(n), zero_poly(n)))
    } else {
        strided_view(inputs, n, s, count - 1).update((count - 1) * s, inputs[count - 1])
    }
}

/// Input `k` sits at position `k * s` of its strided layout, which has `n` slots.
pub proof fn lemma_strided_at(inputs: Seq<(Seq<u64>, Seq<u64>)>, n: nat, s: int, count: int, k: int)
    requires
        s > 0,
        0 <= k < count,
        count * s <= n,
    ensures
        strided_view(inputs, n, s, count).len() == n,
        strided_view(inputs, n, s, count)[k * s] == inputs[k],
    decreases count,
{
    lemma_strided_len(inputs, n, s, count);
    assert(0 <= (count - 1) * s < n && (count - 1) * s <= n) by (nonlinear_arith)
        requires
            count * s <= n,
            count > 0,
            s > 0,
    ;
    lemma_strided_len(inputs, n, s, count - 1);
    if k < count - 1 {
        assert(k * s < (count - 1) * s) by (nonlinear_arith)
            requires
                k < count - 1,
                s > 0,
        ;
        assert(0 <= k * s) by (nonlinear_arith)
            requires
                0 <= k,
                s > 0,
        ;
        lemma_strided_at(inputs, n, s, count - 1, k);
    }
}

/// A strided layout has `n` slots.
pub proof fn lemma_strided_len(inputs: Seq<(Seq<u64>, Seq<u64>)>, n: nat, s: int, count: int)
    requires
        s > 0,
        count * s <= n,
    ensures
        strided_view(inputs, n, s, count).len() == n,
    decreases count,
{
    if count > 0 {
        assert(0 <= (count - 1) * s < n && (count - 1) * s <= n) by (nonlinear_arith)
            requires
                count * s <= n,
                count > 0,
                s > 0,
        ;
        lemma_strided_len(inputs, n, s, count - 1);
    }
}

/// The slots of a strided layout of ciphertexts of size `n` have size `n`.
pub proof fn lemma_strided_entries(inputs: Seq<(Seq<u64>, Seq<u64>)>, n: nat, s: int, count: int)
    requires
        s > 0,
        count * s <= n,
        forall|k: int| 0 <= k < count ==> (#[trigger] inputs[k]).0.len() == n && inputs[k].1.len() == n,
    ensures
        forall|i: int|
            0 <= i < n ==> (#[trigger] strided_view(inputs, n, s, count)[i]).0.len() == n && strided_view(
                inputs,
                n,
                s,
                count,
            )[i].1.len() == n,
    decreases count,
{
    lemma_strided_len(inputs, n, s, count);
    if count > 0 {
        assert(0 <= (count - 1) * s < n && (count - 1) * s <= n) by (nonlinear_arith)
            requires
                count * s <= n,
                count > 0,
                s > 0,
        ;
        lemma_strided_entries(inputs, n, s, count - 1);
        lemma_strided_len(inputs, n, s, count - 1);
    }
}

/// The columns `data` after the external product with `g`.
pub open spec fn rotated_cols(data: Seq<RLWECiphertext>, g: RGSWCiphertext) -> Seq<(Seq<u64>, Seq<u64>)> {
    Seq::new(data.len(), |j: int| ext_prod_view(g, (data[j].mask@, data[j].body@)))
}

/// What the external products of the columns `data` with `g` give: the
/// phase of each result under `key` is `ext_prod_phase` for every plaintext
/// `p`, and the digits of the columns are balanced.
pub open spec fn rotation_facts(data: Seq<RLWECiphertext>, g: RGSWCiphertext) -> bool {
    &&& forall|j: int, key: Seq<u64>, p: Seq<u64>|
        #![trigger ext_prod_phase(g.data@, g.poly_size as int, g.base_log, g.level_count, data[j].mask@, data[j].body@, key, p)]
        0 <= j < data.len() && key.len() == g.poly_size && p.len() == g.poly_size ==> phase(
            key,
            rotated_cols(data, g)[j].0,
            rotated_cols(data, g)[j].1,
        ) == ext_prod_phase(g.data@, g.poly_size as int, g.base_log, g.level_count, data[j].mask@, data[j].body@, key, p)
    &&& forall|j: int, i: int, t: int|
        0 <= j < data.len() && 0 <= i < g.poly_size && 0 <= t < g.level_count ==> #[trigger] digit_in_range(
            g.base_log,
            signed_decomposition(g.base_log, g.level_count, data[j].mask@[i])[t],
        ) && digit_in_range(g.base_log, signed_decomposition(g.base_log, g.level_count, data[j].body@[i])[t])
}

/// The error that the substitutions of `pack_first_coeffs_cdks` add at the
/// coefficient of input `q` of the phase under `sk`.
pub open spec fn pack_first_err(
    m: Map<usize, RLWEKeyswitchKey>,
    n: usize,
    inputs: Seq<(Seq<u64>, Seq<u64>)>,
    sk: Seq<u64>,
    q: int,
) -> int {
    let g = inputs.len();
    pack_err(m, floor_log2(n as nat), floor_log2(g), 0, strided_view(inputs, n as nat, (n as nat / g) as int, g as int), sk, q)
}

/// What `pack_first_coeffs_cdks` computes from the ciphertexts `inputs` of size `n`.
pub open spec fn pack_first_spec(
    m: Map<usize, RLWEKeyswitchKey>,
    n: usize,
    inputs: Seq<(Seq<u64>, Seq<u64>)>,
) -> (Seq<u64>, Seq<u64>) {
    let g = inputs.len();
    pack_spec(m, floor_log2(n as nat), floor_log2(g), 0, strided_view(inputs, n as nat, (n as nat / g) as int, g as int))
}

/// The ORAM server: the encrypted database (one ciphertext per column), the
/// encryption of `-s` and a context.
pub struct Server {
    pub data_enc: Vec<RLWECiphertext>,
    pub neg_s: RGSWCiphertext,
    pub ctx: Context,
}

impl Server {
    /// A well-formed context and columns of the context's size and modulus.
    pub open spec fn wf(&self) -> bool {
        &&& self.ctx.wf()
        &&& forall|j: int|
            0 <= j < self.data_enc.len() ==> (#[trigger] self.data_enc@[j]).mask.len() == self.ctx.poly_size
                && self.data_enc@[j].body.len() == self.ctx.poly_size && self.data_enc@[j].modulus
                == self.ctx.modulus
    }

    /// A server that stores the ciphertexts `data_enc`.
    pub fn new(data_enc: Vec<RLWECiphertext>, neg_s: RGSWCiphertext, params: TFHEParameters) -> (r: Self)
        requires
            params.wf(),
        ensures
            r.data_enc == data_enc,
            r.neg_s == neg_s,
            r.ctx.wf(),
            r.ctx.poly_size == params.polynomial_size,
            r.ctx.base_log == params.base_log,
            r.ctx.level_count == params.level_count,
            r.ctx.ks_base_log == params.key_switch_base_log,
            r.ctx.ks_level_count == params.key_switch_level_count,
            r.ctx.negs_base_log == params.negs_base_log,
            r.ctx.negs_level_count == params.negs_level_count,
            r.ctx.modulus == params.modulus,
            r.ctx.codec.pt_modulus == params.plaintext_modulus,
    {
        Server { data_enc, neg_s, ctx: Context::new(params) }
    }

    fn rows(&self) -> (r: usize)
        ensures
            r == self.data_enc.len(),
    {
        self.data_enc.len()
    }

    fn cols(&self) -> (r: usize)
        ensures
            r == self.data_enc.len(),
    {
        self.data_enc.len()
    }

    /// The external product of `idx_rgsw_ct` (an RGSW encryption of a
    /// rotation `X^(N - i)`) with `packed_ct`.
    pub fn rlwe_ct_rotation(&self, packed_ct: &RLWECiphertext, idx_rgsw_ct: &RGSWCiphertext) -> (r: RLWECiphertext)
        requires
            idx_rgsw_ct.wf(),
            idx_rgsw_ct.poly_size == self.ctx.poly_size,
            packed_ct.mask.len() == self.ctx.poly_size,
            packed_ct.body.len() == self.ctx.poly_size,
        ensures
            (r.mask@, r.body@) == ext_prod_view(*idx_rgsw_ct, (packed_ct.mask@, packed_ct.body@)),
            r.mask.len() == self.ctx.poly_size,
            r.body.len() == self.ctx.poly_size,
            r.modulus == self.ctx.modulus,
            forall|key: Seq<u64>, p: Seq<u64>|
                #![trigger ext_prod_phase(idx_rgsw_ct.data@, idx_rgsw_ct.poly_size as int, idx_rgsw_ct.base_log, idx_rgsw_ct.level_count, packed_ct.mask@, packed_ct.body@, key, p)]
                key.len() == idx_rgsw_ct.poly_size && p.len() == idx_rgsw_ct.poly_size ==> phase(key, r.mask@, r.body@)
                    == ext_prod_phase(
                    idx_rgsw_ct.data@,
                    idx_rgsw_ct.poly_size as int,
                    idx_rgsw_ct.base_log,
                    idx_rgsw_ct.level_count,
                    packed_ct.mask@,
                    packed_ct.body@,
                    key,
                    p,
                ),
            forall|i: int, t: int|
                0 <= i < idx_rgsw_ct.poly_size && 0 <= t < idx_rgsw_ct.level_count ==> #[trigger] digit_in_range(
                    idx_rgsw_ct.base_log,
                    signed_decomposition(idx_rgsw_ct.base_log, idx_rgsw_ct.level_count, packed_ct.mask@[i])[t],
                ) && digit_in_range(
                    idx_rgsw_ct.base_log,
                    signed_decomposition(idx_rgsw_ct.base_log, idx_rgsw_ct.level_count, packed_ct.body@[i])[t],
                ),
    {
        let mut result = RLWECiphertext::allocate(self.ctx.poly_size, self.ctx.modulus);
        idx_rgsw_ct.external_product(&mut result, packed_ct);
        result
    }

    /// Pack the constant coefficients of `g` ciphertexts (`g` a power of
    /// two) into one: input `k` is placed at position `k * N / g` of `N`
    /// slots, the rest are zero ciphertexts, and the slots are packed.
    pub fn pack_first_coeffs_cdks(
        &self,
        input_rlwe_cts: &[RLWECiphertext],
        subs_ksk_map: &HashMap<usize, RLWEKeyswitchKey>,
    ) -> (r: RLWECiphertext)
        requires
            self.ctx.wf(),
            self.ctx.poly_size <= usize::MAX / 2,
            input_rlwe_cts.len() >= 1,
            floor_log2(input_rlwe_cts.len() as nat) <= floor_log2(self.ctx.poly_size as nat),
            forall|i: int|
                0 <= i < input_rlwe_cts.len() ==> (#[trigger] input_rlwe_cts@[i]).mask.len()
                    == self.ctx.poly_size && input_rlwe_cts@[i].body.len() == self.ctx.poly_size,
            pack_keys(subs_ksk_map@, self.ctx.poly_size, floor_log2(input_rlwe_cts.len() as nat)),
        ensures
            (r.mask@, r.body@) == pack_first_spec(subs_ksk_map@, self.ctx.poly_size, cts_view(input_rlwe_cts@)),
            r.mask.len() == self.ctx.poly_size,
            r.body.len() == self.ctx.poly_size,
            (forall|i: int| 0 <= i < input_rlwe_cts.len() ==> (#[trigger] input_rlwe_cts@[i]).modulus == self.ctx.modulus)
                ==> r.modulus == self.ctx.modulus,
            forall|sk: Seq<u64>, q: int|
                #![trigger pack_first_err(subs_ksk_map@, self.ctx.poly_size, cts_view(input_rlwe_cts@), sk, q)]
                sk.len() == self.ctx.poly_size && pow2(floor_log2(self.ctx.poly_size as nat))
                    == self.ctx.poly_size && pow2(floor_log2(input_rlwe_cts.len() as nat)) == input_rlwe_cts.len()
                    && 0 <= q < input_rlwe_cts.len() && pack_subs_ok(
                    subs_ksk_map@,
                    floor_log2(input_rlwe_cts.len() as nat),
                ) ==> (phase(sk, r.mask@, r.body@)[q * (self.ctx.poly_size / input_rlwe_cts.len()) as int] as int)
                    % word_modulus() == (input_rlwe_cts.len() * phase(
                    sk,
                    input_rlwe_cts@[q].mask@,
                    input_rlwe_cts@[q].body@,
                )[0] + pack_first_err(subs_ksk_map@, self.ctx.poly_size, cts_view(input_rlwe_cts@), sk, q))
                    % word_modulus(),
            pack_digits_ok(
                subs_ksk_map@,
                floor_log2(self.ctx.poly_size as nat),
                floor_log2(input_rlwe_cts.len() as nat),
                0,
                strided_view(
                    cts_view(input_rlwe_cts@),
                    self.ctx.poly_size as nat,
                    (self.ctx.poly_size / input_rlwe_cts.len()) as int,
                    input_rlwe_cts.len() as int,
                ),
            ),
    {
        let n = self.ctx.poly_size;
        let g = input_rlwe_cts.len();
        let s = n / g;
        let log_g = log2(g);
        let ghost inputs = cts_view(input_rlwe_cts@);
        let mut cts: Vec<RLWECiphertext> = Vec::new();
        let mut p: usize = 0;
        while p < n
            invariant
                p <= n,
                cts.len() == p,
                forall|i: int|
                    0 <= i < p ==> (#[trigger] cts@[i]).mask@ == zero_poly(n as nat) && cts@[i].body@
                        == zero_poly(n as nat) && cts@[i].modulus == self.ctx.modulus,
            decreases n - p,
        {
            cts.push(RLWECiphertext::allocate(n, self.ctx.modulus));
            p += 1;
        }
        assert(cts_view(cts@) =~= strided_view(inputs, n as nat, s as int, 0));
        let mut k: usize = 0;
        while k < g
            invariant
                n == self.ctx.poly_size,
                n > 0,
                g == input_rlwe_cts.len(),
                g >= 1,
                s == n / g,
                inputs == cts_view(input_rlwe_cts@),
                forall|i: int|
                    0 <= i < input_rlwe_cts.len() ==> (#[trigger] input_rlwe_cts@[i]).mask.len() == n
                        && input_rlwe_cts@[i].body.len() == n,
                k <= g,
                cts.len() == n,
                forall|i: int| 0 <= i < n ==> (#[trigger] cts@[i]).mask.len() == n && cts@[i].body.len() == n,
                cts_view(cts@) == strided_view(inputs, n as nat, s as int, k as int),
                (forall|i: int| 0 <= i < g ==> (#[trigger] input_rlwe_cts@[i]).modulus == self.ctx.modulus)
                    ==> forall|i: int| 0 <= i < n ==> (#[trigger] cts@[i]).modulus == self.ctx.modulus,
            decreases g - k,
        {
            proof {
                assert(k * s < n) by (nonlinear_arith)
                    requires
                        k < g,
                        s == n / g,
                        g >= 1,
                        n > 0,
                {
                    vstd::arithmetic::div_mod::lemma_fundamental_div_mod(n as int, g as int);
                    vstd::arithmetic::mul::lemma_mul_inequality(k as int, (g - 1) as int, s as int);
                    if s > 0 {
                        assert((g - 1) * s < g * s);
                    }
                }
            }
            let c = copy_ct(&input_rlwe_cts[k]);
            let ghost before = cts@;
            cts.set(k * s, c);
            proof {
                assert(cts_view(cts@) =~= cts_view(before).update((k * s) as int, inputs[k as int]));
            }
            k += 1;
        }
        proof {
            crate::poly::lemma_pow2_floor_log2_le(n as nat);
            vstd::arithmetic::power2::lemma_pow2_pos((floor_log2(n as nat) - log_g) as nat);
            if log_g > 0 {
                crate::poly::lemma_pow2_floor_log2_le(g as nat);
            }
        }
        let out = pack_lwes_cdks(&self.ctx, log_g, 0, cts.as_slice(), subs_ksk_map);
        proof {
            let m = subs_ksk_map@;
            let ln = floor_log2(n as nat);
            let strided = strided_view(inputs, n as nat, s as int, g as int);
            assert(cts_view(cts@) == strided);
            assert forall|sk: Seq<u64>, q: int|
                sk.len() == n && pow2(ln) == n && pow2(log_g as nat) == g && 0 <= q < g && pack_subs_ok(
                    m,
                    log_g as nat,
                ) implies (phase(sk, out.mask@, out.body@)[q * (n / g) as int] as int) % word_modulus() == (g
                * phase(sk, input_rlwe_cts@[q].mask@, input_rlwe_cts@[q].body@)[0] + #[trigger] pack_first_err(
                m,
                n,
                inputs,
                sk,
                q,
            )) % word_modulus() by {
                vstd::arithmetic::power2::lemma_pow2_subtracts(log_g as nat, ln);
                assert(pow2((ln - log_g) as nat) == s);
                vstd::arithmetic::power2::lemma_pow2_pos((ln - log_g) as nat);
                assert(g * s <= n) by (nonlinear_arith)
                    requires
                        s == n / g,
                        g >= 1,
                {
                    vstd::arithmetic::div_mod::lemma_fundamental_div_mod(n as int, g as int);
                }
                lemma_strided_at(inputs, n as nat, s as int, g as int, q);
                assert(strided[0 + q * s] == inputs[q]);
                assert(pack_first_err(m, n, inputs, sk, q) == pack_err(m, ln, log_g as nat, 0, strided, sk, q));
            }
        }
        out
    }

    /// Read a full row of the database from its transposed encryption:
    /// every column is rotated by `row_rgsw_ct` (an RGSW encryption of
    /// `X^(N - r)`), then the columns are packed.
    #[verifier::spinoff_prover]
    #[verifier::rlimit(30)]
    pub fn read_full_row_rotpack_cdks(
        &self,
        row_rgsw_ct: &RGSWCiphertext,
        subs_ksk_map: &HashMap<usize, RLWEKeyswitchKey>,
    ) -> (r: RLWECiphertext)
        requires
            self.wf(),
            self.ctx.poly_size <= usize::MAX / 2,
            row_rgsw_ct.wf(),
            row_rgsw_ct.poly_size == self.ctx.poly_size,
            self.data_enc.len() >= 1,
            floor_log2(self.data_enc.len() as nat) <= floor_log2(self.ctx.poly_size as nat),
            pack_keys(subs_ksk_map@, self.ctx.poly_size, floor_log2(self.data_enc.len() as nat)),
        ensures
            (r.mask@, r.body@) == pack_first_spec(
                subs_ksk_map@,
                self.ctx.poly_size,
                rotated_cols(self.data_enc@, *row_rgsw_ct),
            ),
            r.mask.len() == self.ctx.poly_size,
            r.body.len() == self.ctx.poly_size,
            r.modulus == self.ctx.modulus,
            forall|sk: Seq<u64>, q: int|
                #![trigger pack_first_err(subs_ksk_map@, self.ctx.poly_size, rotated_cols(self.data_enc@, *row_rgsw_ct), sk, q)]
                sk.len() == self.ctx.poly_size && pow2(floor_log2(self.ctx.poly_size as nat))
                    == self.ctx.poly_size && pow2(floor_log2(self.data_enc.len() as nat)) == self.data_enc.len()
                    && 0 <= q < self.data_enc.len() && pack_subs_ok(
                    subs_ksk_map@,
                    floor_log2(self.data_enc.len() as nat),
                ) ==> (phase(sk, r.mask@, r.body@)[q * (self.ctx.poly_size / self.data_enc.len()) as int] as int)
                    % word_modulus() == (self.data_enc.len() * phase(
                    sk,
                    rotated_cols(self.data_enc@, *row_rgsw_ct)[q].0,
                    rotated_cols(self.data_enc@, *row_rgsw_ct)[q].1,
                )[0] + pack_first_err(
                    subs_ksk_map@,
                    self.ctx.poly_size,
                    rotated_cols(self.data_enc@, *row_rgsw_ct),
                    sk,
                    q,
                )) % word_modulus(),
            rotation_facts(self.data_enc@, *row_rgsw_ct),
            pack_digits_ok(
                subs_ksk_map@,
                floor_log2(self.ctx.poly_size as nat),
                floor_log2(self.data_enc.len() as nat),
                0,
                strided_view(
                    rotated_cols(self.data_enc@, *row_rgsw_ct),
                    self.ctx.poly_size as nat,
                    (self.ctx.poly_size / self.data_enc.len()) as int,
                    self.data_enc.len() as int,
                ),
            ),
    {
        let n = self.ctx.poly_size;
        let mut rotated: Vec<RLWECiphertext> = Vec::new();
        let mut j: usize = 0;
        while j < self.data_enc.len()
            invariant
                self.wf(),
                n == self.ctx.poly_size,
                row_rgsw_ct.wf(),
                row_rgsw_ct.poly_size == n,
                j <= self.data_enc.len(),
                rotated.len() == j,
                forall|i: int|
                    0 <= i < j ==> (#[trigger] rotated@[i]).mask.len() == n && rotated@[i].body.len() == n
                        && rotated@[i].modulus == self.ctx.modulus
                        && (rotated@[i].mask@, rotated@[i].body@) == ext_prod_view(
                        *row_rgsw_ct,
                        (self.data_enc@[i].mask@, self.data_enc@[i].body@),
                    ),
                forall|j2: int, key: Seq<u64>, p: Seq<u64>|
                    #![trigger ext_prod_phase(row_rgsw_ct.data@, row_rgsw_ct.poly_size as int, row_rgsw_ct.base_log, row_rgsw_ct.level_count, self.data_enc@[j2].mask@, self.data_enc@[j2].body@, key, p)]
                    0 <= j2 < j && key.len() == n && p.len() == n ==> phase(key, rotated@[j2].mask@, rotated@[j2].body@)
                        == ext_prod_phase(
                        row_rgsw_ct.data@,
                        row_rgsw_ct.poly_size as int,
                        row_rgsw_ct.base_log,
                        row_rgsw_ct.level_count,
                        self.data_enc@[j2].mask@,
                        self.data_enc@[j2].body@,
                        key,
                        p,
                    ),
                forall|j2: int, i: int, t: int|
                    0 <= j2 < j && 0 <= i < n && 0 <= t < row_rgsw_ct.level_count ==> #[trigger] digit_in_range(
                        row_rgsw_ct.base_log,
                        signed_decomposition(row_rgsw_ct.base_log, row_rgsw_ct.level_count, self.data_enc@[j2].mask@[i])[t],
                    ) && digit_in_range(
                        row_rgsw_ct.base_log,
                        signed_decomposition(row_rgsw_ct.base_log, row_rgsw_ct.level_count, self.data_enc@[j2].body@[i])[t],
                    ),
            decreases self.data_enc.len() - j,
        {
            let r_j = self.rlwe_ct_rotation(&self.data_enc[j], row_rgsw_ct);
            let ghost j0 = j as int;
            let ghost lc = row_rgsw_ct.level_count;
            let ghost bl = row_rgsw_ct.base_log;
            proof {
                assert forall|j2: int, i: int, t: int|
                    0 <= j2 < j0 + 1 && 0 <= i < n && 0 <= t < lc implies #[trigger] digit_in_range(
                    bl,
                    signed_decomposition(bl, lc, self.data_enc@[j2].mask@[i])[t],
                ) && digit_in_range(bl, signed_decomposition(bl, lc, self.data_enc@[j2].body@[i])[t]) by {
                    if j2 == j0 {
                        assert(digit_in_range(bl, signed_decomposition(bl, lc, self.data_enc@[j2].mask@[i])[t]));
                    }
                }
            }
            rotated.push(r_j);
            j += 1;
        }
        assert(cts_view(rotated@) =~= rotated_cols(self.data_enc@, *row_rgsw_ct));
        proof {
            let cols = rotated_cols(self.data_enc@, *row_rgsw_ct);
            assert forall|j2: int, key: Seq<u64>, p: Seq<u64>|
                0 <= j2 < self.data_enc.len() && key.len() == n && p.len() == n implies phase(key, cols[j2].0, cols[j2].1)
                == #[trigger] ext_prod_phase(
                row_rgsw_ct.data@,
                row_rgsw_ct.poly_size as int,
                row_rgsw_ct.base_log,
                row_rgsw_ct.level_count,
                self.data_enc@[j2].mask@,
                self.data_enc@[j2].body@,
                key,
                p,
            ) by {
                assert(cols[j2] == (rotated@[j2].mask@, rotated@[j2].body@));
            }
        }
        let out = self.pack_first_coeffs_cdks(rotated.as_slice(), subs_ksk_map);
        proof {
            let cols = rotated_cols(self.data_enc@, *row_rgsw_ct);
            assert forall|sk: Seq<u64>, q: int|
                sk.len() == n && pow2(floor_log2(n as nat)) == n && pow2(floor_log2(self.data_enc.len() as nat))
                    == self.data_enc.len() && 0 <= q < self.data_enc.len() && pack_subs_ok(
                    subs_ksk_map@,
                    floor_log2(self.data_enc.len() as nat),
                ) implies (phase(sk, out.mask@, out.body@)[q * (n / self.data_enc.len()) as int] as int)
                % word_modulus() == (self.data_enc.len() * phase(sk, cols[q].0, cols[q].1)[0]
                + #[trigger] pack_first_err(subs_ksk_map@, n, cols, sk, q)) % word_modulus() by {
                assert(pack_first_err(subs_ksk_map@, n, cts_view(rotated@), sk, q) == pack_first_err(
                    subs_ksk_map@,
                    n,
                    cols,
                    sk,
                    q,
                ));
                assert(rotated@[q].mask@ == cols[q].0);
            }
        }
        out
    }
}

/// The RLWE ciphertext of size `n` that the LWE ciphertext `(mask, body)`
/// is switched to by the key `ksks`.
pub open spec fn conv_view(
    ksks: Seq<RGSWCiphertext>,
    mask: Seq<u64>,
    body: u64,
    base_log: usize,
    level_count: usize,
    n: usize,
) -> (Seq<u64>, Seq<u64>) {
    let count = conv_count(ksks, n);
    let b = conv_acc(ksks, mask, base_log, level_count, n as nat, count, true);
    (conv_acc(ksks, mask, base_log, level_count, n as nat, count, false), b.update(0, wrap(b[0] + body)))
}

/// Column `col` after the write of row `fwd` rotates to the constant
/// coefficient: the difference between coefficient `j` of `ct_new` and the
/// rotated column's constant coefficient is extracted as an LWE ciphertext,
/// switched back to RLWE, rotated back by `rev` and added to the column.
pub open spec fn written_column(
    fwd: RGSWCiphertext,
    rev: RGSWCiphertext,
    ct_new: (Seq<u64>, Seq<u64>),
    ksks: Seq<RGSWCiphertext>,
    base_log: usize,
    level_count: usize,
    n: usize,
    col: (Seq<u64>, Seq<u64>),
    j: int,
) -> (Seq<u64>, Seq<u64>) {
    let r = ext_prod_view(fwd, col);
    let d_mask = seq_sub(sample_extract_mask(ct_new.0, j), sample_extract_mask(r.0, 0));
    let d_body = wrap(ct_new.1[j] - r.1[0]);
    let delta = conv_view(ksks, d_mask, d_body, base_log, level_count, n);
    add_view(col, ext_prod_view(rev, delta))
}

/// What the steps of the write of column `col` (index `j`) give, besides
/// the values: the phases of the two external products are
/// `ext_prod_phase` for every plaintext, the phase of the conversion is
/// `conv_phase` for every key, and the digits of the three decompositions
/// are balanced.
pub open spec fn write_facts(
    fwd: RGSWCiphertext,
    rev: RGSWCiphertext,
    ct_new: (Seq<u64>, Seq<u64>),
    ksks: Seq<RGSWCiphertext>,
    base_log: usize,
    level_count: usize,
    n: usize,
    col: (Seq<u64>, Seq<u64>),
    j: int,
) -> bool {
    let r = ext_prod_view(fwd, col);
    let d_mask = seq_sub(sample_extract_mask(ct_new.0, j), sample_extract_mask(r.0, 0));
    let d_body = wrap(ct_new.1[j] - r.1[0]);
    let dl = conv_view(ksks, d_mask, d_body, base_log, level_count, n);
    let v = ext_prod_view(rev, dl);
    &&& forall|key: Seq<u64>, p: Seq<u64>|
        #![trigger ext_prod_phase(fwd.data@, n as int, fwd.base_log, fwd.level_count, col.0, col.1, key, p)]
        key.len() == n && p.len() == n ==> phase(key, r.0, r.1) == ext_prod_phase(
            fwd.data@,
            n as int,
            fwd.base_log,
            fwd.level_count,
            col.0,
            col.1,
            key,
            p,
        )
    &&& forall|i: int, t: int|
        0 <= i < n && 0 <= t < fwd.level_count ==> #[trigger] digit_in_range(
            fwd.base_log,
            signed_decomposition(fwd.base_log, fwd.level_count, col.0[i])[t],
        ) && digit_in_range(fwd.base_log, signed_decomposition(fwd.base_log, fwd.level_count, col.1[i])[t])
    &&& forall|key: Seq<u64>, msgs: Seq<u64>|
        #![trigger conv_phase(ksks, d_mask, d_body, base_log, level_count, n as nat, conv_count(ksks, n), key, msgs)]
        key.len() == n && msgs.len() == ksks.len() ==> phase(key, dl.0, dl.1) == conv_phase(
            ksks,
            d_mask,
            d_body,
            base_log,
            level_count,
            n as nat,
            conv_count(ksks, n),
            key,
            msgs,
        )
    &&& forall|i: int, t: int|
        0 <= i < conv_count(ksks, n) && 0 <= t < level_count ==> #[trigger] digit_in_range(
            base_log,
            conv_digit(base_log, level_count, d_mask[i], t),
        )
    &&& forall|key: Seq<u64>, p: Seq<u64>|
        #![trigger ext_prod_phase(rev.data@, n as int, rev.base_log, rev.level_count, dl.0, dl.1, key, p)]
        key.len() == n && p.len() == n ==> phase(key, v.0, v.1) == ext_prod_phase(
            rev.data@,
            n as int,
            rev.base_log,
            rev.level_count,
            dl.0,
            dl.1,
            key,
            p,
        )
    &&& forall|i: int, t: int|
        0 <= i < n && 0 <= t < rev.level_count ==> #[trigger] digit_in_range(
            rev.base_log,
            signed_decomposition(rev.base_log, rev.level_count, dl.0[i])[t],
        ) && digit_in_range(rev.base_log, signed_decomposition(rev.base_log, rev.level_count, dl.1[i])[t])
}

impl Server {
    /// Write a full row: for every column `j`, the constant coefficient of
    /// the column rotated by `fwd_rgsw` is replaced by coefficient `j` of
    /// `ct_new`, through the difference of the two, switched from LWE to
    /// RLWE and rotated back by `rev_rgsw`. The modulus is the native one or
    /// a power of two: under another modulus `q`, `tfhe`'s sample extraction
    /// negates words as `q - x`, and the words of the external product are
    /// not kept below `q`.
    #[verifier::spinoff_prover]
    #[verifier::rlimit(30)]
    pub fn write_full_row(
        &mut self,
        fwd_rgsw: &RGSWCiphertext,
        rev_rgsw: &RGSWCiphertext,
        ct_new: &RLWECiphertext,
        lwe_rlwe_ksk: &LWEtoRLWEKeyswitchKey,
    )
        requires
            old(self).wf(),
            old(self).data_enc.len() <= old(self).ctx.poly_size,
            old(self).ctx.poly_size < usize::MAX,
            fwd_rgsw.wf(),
            fwd_rgsw.poly_size == old(self).ctx.poly_size,
            rev_rgsw.wf(),
            rev_rgsw.poly_size == old(self).ctx.poly_size,
            ct_new.mask.len() == old(self).ctx.poly_size,
            ct_new.body.len() == old(self).ctx.poly_size,
            ct_new.modulus == old(self).ctx.modulus,
            conv_ready(lwe_rlwe_ksk.inner@, old(self).ctx.poly_size, old(self).ctx.ks_level_count),
            native_compatible(old(self).ctx.modulus),
        ensures
            final(self).wf(),
            final(self).ctx == old(self).ctx,
            final(self).neg_s == old(self).neg_s,
            final(self).data_enc.len() == old(self).data_enc.len(),
            forall|j: int|
                0 <= j < old(self).data_enc.len() ==> (#[trigger] final(self).data_enc@[j]).modulus
                    == old(self).data_enc@[j].modulus,
            forall|j: int|
                0 <= j < old(self).data_enc.len() ==> (#[trigger] final(self).data_enc@[j].mask@,
                final(self).data_enc@[j].body@) == written_column(
                    *fwd_rgsw,
                    *rev_rgsw,
                    (ct_new.mask@, ct_new.body@),
                    lwe_rlwe_ksk.inner@,
                    old(self).ctx.ks_base_log,
                    old(self).ctx.ks_level_count,
                    old(self).ctx.poly_size,
                    (old(self).data_enc@[j].mask@, old(self).data_enc@[j].body@),
                    j,
                ),
            forall|j: int|
                0 <= j < old(self).data_enc.len() ==> #[trigger] write_facts(
                    *fwd_rgsw,
                    *rev_rgsw,
                    (ct_new.mask@, ct_new.body@),
                    lwe_rlwe_ksk.inner@,
                    old(self).ctx.ks_base_log,
                    old(self).ctx.ks_level_count,
                    old(self).ctx.poly_size,
                    (old(self).data_enc@[j].mask@, old(self).data_enc@[j].body@),
                    j,
                ),
    {
        let n = self.ctx.poly_size;
        let lwe_size = n + 1;
        let cols = self.data_enc.len();
        let mut j: usize = 0;
        while j < cols
            invariant
                self.wf(),
                self.ctx == old(self).ctx,
                self.neg_s == old(self).neg_s,
                n == self.ctx.poly_size,
                lwe_size == n + 1,
                cols == self.data_enc.len(),
                cols == old(self).data_enc.len(),
                cols <= n,
                fwd_rgsw.wf(),
                fwd_rgsw.poly_size == n,
                rev_rgsw.wf(),
                rev_rgsw.poly_size == n,
                ct_new.mask.len() == n,
                ct_new.body.len() == n,
                ct_new.modulus == self.ctx.modulus,
                conv_ready(lwe_rlwe_ksk.inner@, n, self.ctx.ks_level_count),
                native_compatible(self.ctx.modulus),
                j <= cols,
                forall|i: int| j <= i < cols ==> #[trigger] self.data_enc@[i] == old(self).data_enc@[i],
                forall|i: int| 0 <= i < cols ==> (#[trigger] self.data_enc@[i]).modulus == old(self).data_enc@[i].modulus,
                forall|i: int|
                    0 <= i < j ==> (#[trigger] self.data_enc@[i].mask@, self.data_enc@[i].body@)
                        == written_column(
                        *fwd_rgsw,
                        *rev_rgsw,
                        (ct_new.mask@, ct_new.body@),
                        lwe_rlwe_ksk.inner@,
                        self.ctx.ks_base_log,
                        self.ctx.ks_level_count,
                        n,
                        (old(self).data_enc@[i].mask@, old(self).data_enc@[i].body@),
                        i,
                    ),
                forall|i: int|
                    0 <= i < j ==> #[trigger] write_facts(
                        *fwd_rgsw,
                        *rev_rgsw,
                        (ct_new.mask@, ct_new.body@),
                        lwe_rlwe_ksk.inner@,
                        self.ctx.ks_base_log,
                        self.ctx.ks_level_count,
                        n,
                        (old(self).data_enc@[i].mask@, old(self).data_enc@[i].body@),
                        i,
                    ),
            decreases cols - j,
        {
            let mut r_j = RLWECiphertext::allocate(n, self.ctx.modulus);
            fwd_rgsw.external_product(&mut r_j, &self.data_enc[j]);

            let mut old_lwe = LWECiphertext::new(lwe_size, self.ctx.modulus);
            old_lwe.fill_with_sample_extract(&r_j, 0);
            let mut new_lwe = LWECiphertext::new(lwe_size, self.ctx.modulus);
            new_lwe.fill_with_sample_extract(ct_new, j);

            slice_sub_assign(&mut new_lwe.mask, old_lwe.mask.as_slice());
            let nb = new_lwe.body.wrapping_sub(old_lwe.body);
            proof {
                lemma_wrapping_sub(new_lwe.body, old_lwe.body);
            }
            new_lwe.body = nb;
            let delta = conv_lwe_to_rlwe(lwe_rlwe_ksk, &new_lwe, &self.ctx);

            let mut v_j = RLWECiphertext::allocate(n, self.ctx.modulus);
            rev_rgsw.external_product(&mut v_j, &delta);

            proof {
                let c = (old(self).data_enc@[j as int].mask@, old(self).data_enc@[j as int].body@);
                assert(self.data_enc@[j as int] == old(self).data_enc@[j as int]);
                let r = ext_prod_view(*fwd_rgsw, c);
                assert(r == (r_j.mask@, r_j.body@));
                let d_mask = seq_sub(sample_extract_mask(ct_new.mask@, j as int), sample_extract_mask(r.0, 0));
                let d_body = wrap(ct_new.body@[j as int] - r.1[0]);
                assert(new_lwe.mask@ == d_mask);
                assert(new_lwe.body == d_body);
                assert(conv_body(new_lwe, n) == d_body);
                let dl = conv_view(lwe_rlwe_ksk.inner@, d_mask, d_body, self.ctx.ks_base_log, self.ctx.ks_level_count, n);
                assert(dl == (delta.mask@, delta.body@));
                assert(ext_prod_view(*rev_rgsw, dl) == (v_j.mask@, v_j.body@));
                assert forall|i: int, t: int|
                    0 <= i < n && 0 <= t < fwd_rgsw.level_count implies #[trigger] digit_in_range(
                    fwd_rgsw.base_log,
                    signed_decomposition(fwd_rgsw.base_log, fwd_rgsw.level_count, c.0[i])[t],
                ) && digit_in_range(fwd_rgsw.base_log, signed_decomposition(fwd_rgsw.base_log, fwd_rgsw.level_count, c.1[i])[t]) by {
                    assert(digit_in_range(fwd_rgsw.base_log, signed_decomposition(fwd_rgsw.base_log, fwd_rgsw.level_count, self.data_enc@[j as int].mask@[i])[t]));
                }
                assert forall|i: int, t: int|
                    0 <= i < n && 0 <= t < rev_rgsw.level_count implies #[trigger] digit_in_range(
                    rev_rgsw.base_log,
                    signed_decomposition(rev_rgsw.base_log, rev_rgsw.level_count, dl.0[i])[t],
                ) && digit_in_range(rev_rgsw.base_log, signed_decomposition(rev_rgsw.base_log, rev_rgsw.level_count, dl.1[i])[t]) by {
                    assert(digit_in_range(rev_rgsw.base_log, signed_decomposition(rev_rgsw.base_log, rev_rgsw.level_count, delta.mask@[i])[t]));
                }
                assert(write_facts(
                    *fwd_rgsw,
                    *rev_rgsw,
                    (ct_new.mask@, ct_new.body@),
                    lwe_rlwe_ksk.inner@,
                    self.ctx.ks_base_log,
                    self.ctx.ks_level_count,
                    n,
                    c,
                    j as int,
                ));
            }
            let mut col = copy_ct(&self.data_enc[j]);
            col.update_with_add(&v_j);
            let ghost before = self.data_enc@;
            self.data_enc.set(j, col);
            proof {
                assert forall|i: int| 0 <= i < cols implies (#[trigger] self.data_enc@[i]).mask.len() == n
                    && self.data_enc@[i].body.len() == n && self.data_enc@[i].modulus == self.ctx.modulus by {
                    if i != j {
                        assert(self.data_enc@[i] == before[i]);
                    }
                }
                assert forall|i: int| 0 <= i < j + 1 implies (#[trigger] self.data_enc@[i].mask@,
                self.data_enc@[i].body@) == written_column(
                    *fwd_rgsw,
                    *rev_rgsw,
                    (ct_new.mask@, ct_new.body@),
                    lwe_rlwe_ksk.inner@,
                    self.ctx.ks_base_log,
                    self.ctx.ks_level_count,
                    n,
                    (old(self).data_enc@[i].mask@, old(self).data_enc@[i].body@),
                    i,
                ) by {
                    if i != j {
                        assert(self.data_enc@[i] == before[i]);
                    }
                }
            }
            j += 1;
        }
    }
}

/// The scale `2^(64 - log_t - log_n)` of the database entries: the codec's
/// delta divided by `N`, so that one packing of `N` slots brings the entries
/// back to the codec's scale.
pub fn delta_scaled(log_t: usize, log_n: usize) -> (r: u64)
    requires
        1 <= log_t,
        log_t + log_n <= 64,
    ensures
        r == pow2((64 - log_t - log_n) as nat),
{
    let shift: u64 = (64 - log_t - log_n) as u64;
    proof {
        vstd::arithmetic::power2::lemma2_to64_rest();
        vstd::arithmetic::power2::lemma2_to64();
        if shift < 63 {
            vstd::arithmetic::power2::lemma_pow2_strictly_increases(shift as nat, 63);
        }
        vstd::bits::lemma_u64_shl_is_mul(1, shift);
    }
    1u64 << shift
}

/// A client with a fresh key and a random database of `rows * cols` items,
/// and a server holding the database encrypted column by column at the
/// scale `delta_scaled`, with the encryption of `-s`.
pub fn setup_random_oram_row_retrieval(rows: usize, cols: usize, params: TFHEParameters) -> (r: (Client, Server, Vec<u64>))
    requires
        params.wf(),
        rows * cols <= usize::MAX,
        (rows * cols) as int / (params.polynomial_size as int) <= params.polynomial_size,
        4 * params.negs_level_count * params.polynomial_size <= usize::MAX,
        params.base_log * params.negs_level_count < 64,
        is_native(params.modulus),
        floor_log2(params.plaintext_modulus as nat) + floor_log2(params.polynomial_size as nat) <= 64,
    ensures
        r.0.wf(),
        r.0.rows == rows,
        r.0.cols == cols,
        r.0.ctx.poly_size == params.polynomial_size,
        r.1.ctx.poly_size == params.polynomial_size,
        r.1.ctx.modulus == params.modulus,
        r.2.len() == rows * cols,
        forall|i: int| 0 <= i < r.2.len() ==> #[trigger] r.2@[i] < params.plaintext_modulus,
        r.1.data_enc.len() == params.polynomial_size,
        r.1.wf(),
        r.1.neg_s.wf(),
        r.1.neg_s.poly_size == params.polynomial_size,
        r.1.neg_s.base_log == params.negs_base_log,
        r.1.neg_s.level_count == params.negs_level_count,
        is_native(params.modulus) ==> rgsw_encrypts_poly(r.0.sk.key@, r.1.neg_s, params.base_log, neg_key(r.0.sk.key@)),
        is_native(params.modulus) ==> forall|j: int|
            0 <= j < params.polynomial_size ==> encrypts_with_binary_noise(
                r.0.sk.key@,
                #[trigger] r.1.data_enc@[j],
                transposed_pt(
                    r.2@,
                    pow2((64 - r.0.ctx.codec.pt_bits - floor_log2(params.polynomial_size as nat)) as nat) as u64,
                    params.polynomial_size as nat,
                    j,
                ),
            ),
{
    let mut client = Client::new(rows, cols, params);
    let neg_sk_ct = client.gen_neg_sk();
    let db = client.gen_dummy_database();
    let n = client.ctx.poly_size;
    let log_n = log2(n);
    let log_t = client.ctx.codec.pt_modulus_bits();
    proof {
        crate::poly::lemma_floor_log2_pow2(client.ctx.codec.pt_bits as nat);
    }
    let delta = delta_scaled(log_t, log_n);
    let db_enc = client.encrypt_database_transposed(db.as_slice(), delta);
    let server = Server::new(db_enc, neg_sk_ct, params);
    (client, server, db)
}

impl Client {
    /// The read query for row `row`: an RGSW encryption of the rotation
    /// `X^((N - row) mod N)` that brings coefficient `row` of every column
    /// to the constant coefficient.
    pub fn gen_row_read_query(&mut self, row: usize) -> (r: RGSWCiphertext)
        requires
            old(self).wf(),
            row < old(self).ctx.poly_size,
            4 * old(self).ctx.level_count * old(self).ctx.poly_size <= usize::MAX,
            is_native(old(self).ctx.modulus),
        ensures
            final(self).wf(),
            final(self).sk == old(self).sk,
            final(self).ctx.same_params(old(self).ctx),
            final(self).rows == old(self).rows,
            final(self).cols == old(self).cols,
            r.wf(),
            r.poly_size == old(self).ctx.poly_size,
            r.base_log == old(self).ctx.base_log,
            r.level_count == old(self).ctx.level_count,
            r.modulus == old(self).ctx.modulus,
            is_native(old(self).ctx.modulus) ==> rgsw_encrypts_poly(
                old(self).sk.key@,
                r,
                old(self).ctx.base_log,
                monomial(old(self).ctx.poly_size as nat, fwd_degree(old(self).ctx.poly_size as nat, row as int), false),
            ),
    {
        let n = self.ctx.poly_size;
        let rot_deg = (n - row) % n;
        let mut rot_pt = self.ctx.gen_zero_pt();
        rot_pt.set(rot_deg, 1);
        assert(rot_pt@ =~= monomial(n as nat, rot_deg as int, false));
        proof {
            assert(4 * self.ctx.level_count <= 4 * self.ctx.level_count * self.ctx.poly_size) by (nonlinear_arith)
                requires
                    self.ctx.poly_size >= 1,
            ;
        }
        let mut row_rgsw = RGSWCiphertext::allocate(n, self.ctx.base_log, self.ctx.level_count, self.ctx.modulus);
        self.sk.encrypt_rgsw(&mut row_rgsw, &rot_pt, &mut self.ctx);
        row_rgsw
    }
}

/// The entries of a row read back from the decoded answer: a rotation by
/// `X^(N - row)` negates the entries when `row != 0` (`X^N = -1`), so the
/// sign is undone, and every entry is reduced modulo `t`.
pub open spec fn recovered(dec: Seq<u64>, row: int, t: u64) -> Seq<u64> {
    Seq::new(dec.len(), |j: int| if row != 0 { (wrap(-dec[j]) % t) as u64 } else { dec[j] % t })
}

/// Undo the sign of the rotation on the decoded answer and reduce modulo `t`.
pub fn recover_row(dec: &[u64], row_idx: usize, t: u64) -> (r: Vec<u64>)
    requires
        t > 0,
    ensures
        r@ == recovered(dec@, row_idx as int, t),
{
    let mut out: Vec<u64> = Vec::new();
    let mut j: usize = 0;
    while j < dec.len()
        invariant
            t > 0,
            j <= dec.len(),
            out.len() == j,
            forall|i: int| 0 <= i < j ==> out@[i] == recovered(dec@, row_idx as int, t)[i],
        decreases dec.len() - j,
    {
        let c = dec[j];
        let v = if row_idx != 0 {
            proof {
                lemma_wrapping_sub(0, c);
            }
            0u64.wrapping_sub(c) % t
        } else {
            c % t
        };
        out.push(v);
        j += 1;
    }
    assert(out@ =~= recovered(dec@, row_idx as int, t));
    out
}

/// Row `row` of a database of rows of `n` words.
pub fn db_row(db: &[u64], row: usize, n: usize) -> (r: Vec<u64>)
    requires
        (row + 1) * n <= db.len(),
    ensures
        r@ == db@.subrange(row * n, row * n + n),
{
    proof {
        assert((row + 1) * n == row * n + n) by (nonlinear_arith);
    }
    let start = row * n;
    let mut out: Vec<u64> = Vec::new();
    let mut j: usize = 0;
    while j < n
        invariant
            start == row * n,
            start + n <= db.len(),
            j <= n,
            out.len() == j,
            forall|i: int| 0 <= i < j ==> out@[i] == db@[start + i],
        decreases n - j,
    {
        out.push(db[start + j]);
        j += 1;
    }
    assert(out@ =~= db@.subrange(row * n, row * n + n));
    out
}

/// Overwrite row `row` of a database of rows of `n` words with `new_row`.
pub fn set_db_row(db: &mut Vec<u64>, row: usize, new_row: &[u64], n: usize)
    requires
        (row + 1) * n <= old(db).len(),
        new_row.len() >= n,
    ensures
        final(db)@ == old(db)@.take(row * n) + new_row@.take(n as int) + old(db)@.skip(row * n + n),
{
    proof {
        assert((row + 1) * n == row * n + n) by (nonlinear_arith);
    }
    let start = row * n;
    let mut j: usize = 0;
    while j < n
        invariant
            start == row * n,
            start + n <= db.len(),
            db.len() == old(db).len(),
            new_row.len() >= n,
            j <= n,
            forall|i: int| 0 <= i < j ==> db@[start + i] == new_row@[i],
            forall|i: int| 0 <= i < db.len() && !(start <= i < start + j) ==> db@[i] == old(db)@[i],
        decreases n - j,
    {
        db.set(start + j, new_row[j]);
        j += 1;
    }
    assert(db@ =~= old(db)@.take(row * n) + new_row@.take(n as int) + old(db)@.skip(row * n + n));
}

/// Reading back a row just written gives the written entries.
pub proof fn lemma_db_row_after_set(db: Seq<u64>, row: int, new_row: Seq<u64>, n: int)
    requires
        0 <= row,
        0 <= n,
        (row + 1) * n <= db.len(),
        new_row.len() >= n,
    ensures
        ({
            let written = db.take(row * n) + new_row.take(n) + db.skip(row * n + n);
            &&& written.len() == db.len()
            &&& written.subrange(row * n, row * n + n) == new_row.take(n)
        }),
{
    assert((row + 1) * n == row * n + n) by (nonlinear_arith);
    assert(0 <= row * n) by (nonlinear_arith)
        requires
            0 <= row,
            0 <= n,
    ;
    let written = db.take(row * n) + new_row.take(n) + db.skip(row * n + n);
    assert(written.subrange(row * n, row * n + n) =~= new_row.take(n));
}

} // verus!
