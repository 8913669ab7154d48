//! LWE ciphertexts, LWE secret keys, and the key switching from LWE to RLWE.
use vstd::prelude::*;

use crate::backend::{
    binary_noise, closest_representable, closest_representable_spec, decompose, decrypt_lwe, digit_in_range,
    encrypt_lwe_binary, extract_lwe_sample, generate_binary_lwe_key, is_native, native_compatible, recompose, recompose_acc,
    signed_decomposition,
    valid_decomposition, valid_modulus, EncryptionGenerator, SecretGenerator,
};
use crate::codec::{decode_spec, encode_spec, lemma_decode_encode};
use crate::context::Context;
use crate::poly::{lemma_wrapping_add, mul_const, negacyclic, seq_scale, seq_sub, word_modulus, wrap, zero_poly};
use crate::rgsw::{ggsw_row_message, RGSWCiphertext};
use crate::ring::{lemma_cong_add, lemma_cong_sub, lemma_mod_sub, lemma_negacyclic_lin};
use vstd::arithmetic::power2::pow2;
use crate::rlwe::{is_binary, phase, rgsw_encrypts_constant, RLWECiphertext, RLWESecretKey};

verus! {

/// `sum_i a[i] * s[i]` over the first `s.len()` entries of `a`.
pub open spec fn dot(a: Seq<u64>, s: Seq<u64>, m: int) -> int
    decreases m,
{
    if m <= 0 {
        0
    } else {
        dot(a, s, m - 1) + a[m - 1] * s[m - 1]
    }
}

/// The phase `body - <mask, key>` of an LWE ciphertext.
pub open spec fn lwe_phase(key: Seq<u64>, mask: Seq<u64>, body: u64) -> u64 {
    wrap(body - dot(mask, key, key.len() as int))
}

/// The mask of the LWE ciphertext that holds coefficient `nth` of the
/// plaintext of the RLWE ciphertext of mask `mask`: `mask[nth - j]` for
/// `j <= nth`, `-mask[N + nth - j]` after (its body is `body[nth]`).
pub open spec fn sample_extract_mask(mask: Seq<u64>, nth: int) -> Seq<u64> {
    let n = mask.len() as int;
    Seq::new(
        n as nat,
        |j: int|
            if j <= nth {
                mask[nth - j]
            } else {
                wrap(-mask[n + nth - j])
            },
    )
}

/// `dot(a, s, m)` is the sum of the products `a[i] * s[i]`, `i < m`.
proof fn lemma_dot_is_sum(a: Seq<u64>, s: Seq<u64>, m: int)
    ensures
        dot(a, s, m) == crate::ring::sum(|i: int| a[i] * s[i], m),
    decreases m,
{
    if m > 0 {
        lemma_dot_is_sum(a, s, m - 1);
    }
}

/// Sample extraction keeps the phase: the LWE ciphertext
/// `(sample_extract_mask(mask, nth), body[nth])` has under `key` (the RLWE
/// key read as an LWE key) the phase that `(mask, body)` has at
/// coefficient `nth`.
pub proof fn lemma_sample_extract_phase(key: Seq<u64>, mask: Seq<u64>, body: Seq<u64>, nth: int)
    requires
        mask.len() == key.len(),
        body.len() == key.len(),
        0 <= nth < key.len(),
    ensures
        lwe_phase(key, sample_extract_mask(mask, nth), body[nth]) == phase(key, mask, body)[nth],
{
    let n = key.len() as int;
    let w = word_modulus();
    let sem = sample_extract_mask(mask, nth);
    let f = |j: int| sem[j] * key[j];
    let g = |j: int| crate::ring::col_term(mask, key, n, j, nth);
    crate::ring::lemma_negacyclic_by_columns(mask, key, nth);
    lemma_dot_is_sum(sem, key, n);
    assert forall|j: int| 0 <= j < n implies #[trigger] f(j) % w == g(j) % w by {
        if j > nth {
            let x = mask[n + nth - j] as int;
            lemma_mod_sub(0, x);
            crate::ring::lemma_cong_scale(key[j] as int, wrap(0 - x) as int, -x);
            assert(f(j) == key[j] * wrap(0 - x)) by (nonlinear_arith)
                requires
                    f(j) == sem[j] * key[j],
                    sem[j] == wrap(0 - x),
            ;
            assert(g(j) == key[j] * (-x)) by (nonlinear_arith)
                requires
                    g(j) == -(x * key[j]),
            ;
        }
    }
    crate::ring::lemma_sum_ext(|j: int| sem[j] * key[j], f, n);
    crate::ring::lemma_sum_congruent(f, g, n);
    let d = dot(sem, key, n);
    let sg = crate::ring::sum(g, n);
    lemma_mod_sub(sg, 0);
    lemma_cong_sub(body[nth] as int, body[nth] as int, d, negacyclic(mask, key)[nth] as int);
    lemma_mod_sub(body[nth] as int, d);
    lemma_mod_sub(body[nth] as int, negacyclic(mask, key)[nth] as int);
    vstd::arithmetic::div_mod::lemma_small_mod(lwe_phase(key, sem, body[nth]) as nat, w as nat);
    vstd::arithmetic::div_mod::lemma_small_mod(phase(key, mask, body)[nth] as nat, w as nat);
}

/// The inner product with the difference of two masks is the difference of
/// the inner products, modulo `2^64`.
proof fn lemma_dot_sub(x: Seq<u64>, y: Seq<u64>, s: Seq<u64>, m: int)
    requires
        0 <= m <= x.len(),
        x.len() == y.len(),
    ensures
        dot(seq_sub(x, y), s, m) % word_modulus() == (dot(x, s, m) - dot(y, s, m)) % word_modulus(),
    decreases m,
{
    if m > 0 {
        lemma_dot_sub(x, y, s, m - 1);
        let i = m - 1;
        let d = seq_sub(x, y)[i] as int;
        lemma_mod_sub(x[i] as int, y[i] as int);
        crate::ring::lemma_cong_scale(s[i] as int, d, x[i] - y[i]);
        assert(d * s[i] == s[i] * d && s[i] * (x[i] - y[i]) == x[i] * s[i] - y[i] * s[i]) by (nonlinear_arith);
        lemma_cong_add(
            dot(seq_sub(x, y), s, m - 1),
            dot(x, s, m - 1) - dot(y, s, m - 1),
            d * s[i],
            x[i] * s[i] - y[i] * s[i],
        );
    }
}

/// The phase of the difference of two LWE ciphertexts is the difference of
/// their phases.
pub proof fn lemma_lwe_phase_sub(key: Seq<u64>, m1: Seq<u64>, b1: u64, m2: Seq<u64>, b2: u64)
    requires
        m1.len() == key.len(),
        m2.len() == key.len(),
    ensures
        lwe_phase(key, seq_sub(m1, m2), wrap(b1 - b2)) == wrap(lwe_phase(key, m1, b1) - lwe_phase(key, m2, b2)),
{
    let n = key.len() as int;
    let w = word_modulus();
    lemma_dot_sub(m1, m2, key, n);
    let d = dot(seq_sub(m1, m2), key, n);
    let d1 = dot(m1, key, n);
    let d2 = dot(m2, key, n);
    lemma_mod_sub(b1 as int, b2 as int);
    lemma_cong_sub(wrap(b1 - b2) as int, b1 - b2, d, d1 - d2);
    lemma_mod_sub(wrap(b1 - b2) as int, d);
    lemma_mod_sub(b1 as int, d1);
    lemma_mod_sub(b2 as int, d2);
    lemma_cong_sub(lwe_phase(key, m1, b1) as int, b1 - d1, lwe_phase(key, m2, b2) as int, b2 - d2);
    assert(b1 - b2 - (d1 - d2) == (b1 - d1) - (b2 - d2));
    lemma_mod_sub(lwe_phase(key, m1, b1) as int, lwe_phase(key, m2, b2) as int);
    vstd::arithmetic::div_mod::lemma_small_mod(lwe_phase(key, seq_sub(m1, m2), wrap(b1 - b2)) as nat, w as nat);
    vstd::arithmetic::div_mod::lemma_small_mod(
        wrap(lwe_phase(key, m1, b1) - lwe_phase(key, m2, b2)) as nat,
        w as nat,
    );
}

/// An LWE ciphertext: its mask, its body and the ciphertext modulus it is
/// meant for (`2^64` is the native one).
#[derive(Clone, Debug)]
pub struct LWECiphertext {
    pub mask: Vec<u64>,
    pub body: u64,
    pub modulus: u128,
}

impl LWECiphertext {
    /// A ciphertext of `size` words (a mask of `size - 1` words and a body),
    /// all zero.
    pub fn new(size: usize, ciphertext_modulus: u128) -> (r: Self)
        requires
            size > 0,
        ensures
            r.mask@ == zero_poly((size - 1) as nat),
            r.body == 0,
            r.modulus == ciphertext_modulus,
    {
        let mut mask: Vec<u64> = Vec::new();
        let mut i: usize = 1;
        while i < size
            invariant
                1 <= i <= size,
                mask@ == zero_poly((i - 1) as nat),
            decreases size - i,
        {
            mask.push(0);
            i += 1;
            assert(mask@ =~= zero_poly((i - 1) as nat));
        }
        LWECiphertext { mask, body: 0, modulus: ciphertext_modulus }
    }

    /// The size of the mask plus one for the body.
    pub fn lwe_size(&self) -> (r: usize)
        requires
            self.mask.len() < usize::MAX,
        ensures
            r == self.mask.len() + 1,
    {
        self.mask.len() + 1
    }

    /// The body.
    pub fn get_body(&self) -> (r: u64)
        ensures
            r == self.body,
    {
        self.body
    }

    /// The mask.
    pub fn get_mask(&self) -> (r: &[u64])
        ensures
            r@ == self.mask@,
    {
        self.mask.as_slice()
    }

    /// The mask, to be modified in place.
    pub fn get_mut_mask(&mut self) -> (r: &mut Vec<u64>)
        ensures
            *r == old(self).mask,
            final(self).mask == *final(r),
            final(self).body == old(self).body,
            final(self).modulus == old(self).modulus,
    {
        &mut self.mask
    }

    /// The body, to be modified in place.
    pub fn get_mut_body(&mut self) -> (r: &mut u64)
        ensures
            *r == old(self).body,
            final(self).body == *final(r),
            final(self).mask == old(self).mask,
            final(self).modulus == old(self).modulus,
    {
        &mut self.body
    }

    /// Set every word to zero.
    pub fn clear(&mut self)
        ensures
            final(self).mask@ == zero_poly(old(self).mask.len() as nat),
            final(self).body == 0,
            final(self).modulus == old(self).modulus,
    {
        let n = self.mask.len();
        let mut i: usize = 0;
        while i < n
            invariant
                n == self.mask.len(),
                i <= n,
                self.modulus == old(self).modulus,
                forall|j: int| 0 <= j < i ==> self.mask@[j] == 0,
            decreases n - i,
        {
            self.mask.set(i, 0);
            i += 1;
        }
        self.body = 0;
        assert(self.mask@ =~= zero_poly(n as nat));
    }

    /// The LWE ciphertext of coefficient `n_th` of the plaintext of `c`:
    /// with the native modulus or a power of two its body is `c`'s body at
    /// `n_th` and its mask is `sample_extract_mask(c.mask, n_th)`.
    pub fn fill_with_sample_extract(&mut self, c: &RLWECiphertext, n_th: usize)
        requires
            c.wf(),
            old(self).mask.len() == c.mask.len(),
            n_th < c.mask.len(),
            c.modulus == old(self).modulus,
            valid_modulus(c.modulus),
            native_compatible(c.modulus) || forall|i: int| 0 <= i < c.mask.len() ==> #[trigger] c.mask@[i] <= c.modulus,
        ensures
            final(self).mask.len() == old(self).mask.len(),
            final(self).modulus == old(self).modulus,
            native_compatible(c.modulus) ==> final(self).mask@ == sample_extract_mask(c.mask@, n_th as int)
                && final(self).body == c.body@[n_th as int],
            native_compatible(c.modulus) ==> forall|key: Seq<u64>|
                #![trigger lwe_phase(key, final(self).mask@, final(self).body)]
                key.len() == c.mask.len() ==> lwe_phase(key, final(self).mask@, final(self).body) == phase(
                    key,
                    c.mask@,
                    c.body@,
                )[n_th as int],
    {
        extract_lwe_sample(
            c.mask.as_slice(),
            c.body.as_slice(),
            n_th,
            c.modulus,
            &mut self.mask,
            &mut self.body,
        );
        proof {
            if native_compatible(c.modulus) {
                assert forall|key: Seq<u64>| key.len() == c.mask.len() implies #[trigger] lwe_phase(
                    key,
                    self.mask@,
                    self.body,
                ) == phase(key, c.mask@, c.body@)[n_th as int] by {
                    lemma_sample_extract_phase(key, c.mask@, c.body@, n_th as int);
                }
            }
        }
    }

    /// The LWE ciphertext of the constant coefficient of the plaintext of `c`.
    pub fn fill_with_const_sample_extract(&mut self, c: &RLWECiphertext)
        requires
            c.wf(),
            old(self).mask.len() == c.mask.len(),
            c.modulus == old(self).modulus,
            valid_modulus(c.modulus),
            native_compatible(c.modulus) || forall|i: int| 0 <= i < c.mask.len() ==> #[trigger] c.mask@[i] <= c.modulus,
        ensures
            final(self).mask.len() == old(self).mask.len(),
            final(self).modulus == old(self).modulus,
            native_compatible(c.modulus) ==> final(self).mask@ == sample_extract_mask(c.mask@, 0)
                && final(self).body == c.body@[0],
            native_compatible(c.modulus) ==> forall|key: Seq<u64>|
                #![trigger lwe_phase(key, final(self).mask@, final(self).body)]
                key.len() == c.mask.len() ==> lwe_phase(key, final(self).mask@, final(self).body) == phase(
                    key,
                    c.mask@,
                    c.body@,
                )[0],
    {
        self.fill_with_sample_extract(c, 0);
    }
}

/// An LWE secret key: a vector of binary coefficients.
#[derive(Clone, Debug)]
pub struct LWESecretKey {
    pub key: Vec<u64>,
}

impl LWESecretKey {
    /// A key of positive dimension with binary coefficients.
    pub open spec fn wf(&self) -> bool {
        &&& self.key.len() > 0
        &&& is_binary(self.key@)
    }

    /// A secret key of dimension `lwe_dimension` with uniformly random
    /// binary coefficients.
    pub fn generate_new_binary(lwe_dimension: usize, generator: &mut SecretGenerator) -> (r: Self)
        requires
            lwe_dimension > 0,
        ensures
            r.wf(),
            r.key.len() == lwe_dimension,
    {
        LWESecretKey { key: generate_binary_lwe_key(lwe_dimension, generator) }
    }

    /// Encrypt `pt` with binary noise under the native modulus:
    /// `body - <mask, key>` is `pt` or `pt + 1`.
    pub fn encrypt_lwe_binary(&self, output: &mut LWECiphertext, pt: u64, generator: &mut EncryptionGenerator)
        requires
            self.wf(),
            old(output).mask.len() == self.key.len(),
            is_native(old(output).modulus),
        ensures
            final(output).mask.len() == self.key.len(),
            final(output).modulus == old(output).modulus,
            binary_noise(
                wrap(lwe_phase(self.key@, final(output).mask@, final(output).body) - pt),
            ),
    {
        encrypt_lwe_binary(
            self.key.as_slice(),
            &mut output.mask,
            &mut output.body,
            pt,
            output.modulus,
            generator,
        );
    }

    /// Encode `pt` with the context's codec, then encrypt it.
    pub fn encode_encrypt_lwe(&self, output: &mut LWECiphertext, pt: u64, ctx: &mut Context)
        requires
            self.wf(),
            old(ctx).wf(),
            old(output).mask.len() == self.key.len(),
            is_native(old(output).modulus),
        ensures
            final(output).mask.len() == self.key.len(),
            final(output).modulus == old(output).modulus,
            final(ctx).same_params(*old(ctx)),
            binary_noise(
                wrap(
                    lwe_phase(self.key@, final(output).mask@, final(output).body) - encode_spec(
                        old(ctx).codec.pt_bits as nat,
                        pt,
                    ),
                ),
            ),
    {
        let mut encoded_pt = pt;
        ctx.codec.encode(&mut encoded_pt);
        self.encrypt_lwe_binary(output, encoded_pt, &mut ctx.encryption_generator);
    }

    /// Decrypt: with the native modulus, `body - <mask, key>`.
    pub fn decrypt_lwe(&self, output: &mut u64, ct: &LWECiphertext)
        requires
            self.wf(),
            ct.mask.len() == self.key.len(),
            valid_modulus(ct.modulus),
        ensures
            is_native(ct.modulus) ==> *final(output) == lwe_phase(self.key@, ct.mask@, ct.body),
    {
        *output = decrypt_lwe(self.key.as_slice(), ct.mask.as_slice(), ct.body, ct.modulus);
    }

    /// Decrypt, then decode with the context's codec.
    pub fn decode_decrypt_lwe(&self, pt: &mut u64, encrypted: &LWECiphertext, ctx: &Context)
        requires
            self.wf(),
            ctx.wf(),
            encrypted.mask.len() == self.key.len(),
            valid_modulus(encrypted.modulus),
        ensures
            *final(pt) < ctx.codec.pt_modulus,
            is_native(encrypted.modulus) ==> *final(pt) == decode_spec(
                ctx.codec.pt_bits as nat,
                lwe_phase(self.key@, encrypted.mask@, encrypted.body),
            ),
    {
        self.decrypt_lwe(pt, encrypted);
        ctx.codec.decode(pt);
    }

    /// The RLWE secret key whose polynomial has the coefficients of this key.
    pub fn to_rlwe_sk(&self) -> (r: RLWESecretKey)
        ensures
            r.key@ == self.key@,
    {
        let mut sk = RLWESecretKey::zero(self.key.len());
        sk.fill_with_slice(self.key.as_slice());
        sk
    }

    /// The dimension of the key.
    pub fn key_size(&self) -> (r: usize)
        ensures
            r == self.key.len(),
    {
        self.key.len()
    }
}

/// Decoding the decryption of an encryption of an encoded plaintext gives
/// the plaintext back: the binary noise is removed by the rounding.
pub proof fn lemma_lwe_decrypt_decode_encode(bits: nat, key: Seq<u64>, mask: Seq<u64>, body: u64, m: u64)
    requires
        1 <= bits <= 62,
        m < vstd::arithmetic::power2::pow2(bits),
        binary_noise(wrap(lwe_phase(key, mask, body) - encode_spec(bits, m))),
    ensures
        decode_spec(bits, lwe_phase(key, mask, body)) == m,
{
    let ph = lwe_phase(key, mask, body) as int;
    let enc = encode_spec(bits, m) as int;
    let e = wrap(ph - enc) as int;
    crate::codec::lemma_delta_bounds(bits);
    crate::poly::lemma_wrap_small(ph);
    crate::poly::lemma_wrap_add(enc, e);
    crate::poly::lemma_wrap_sub(ph, enc);
    crate::poly::lemma_wrap_add(enc, ph - enc);
    lemma_decode_encode(bits, m, e);
}

/// An LWE to RLWE key switching key: one RGSW ciphertext per coefficient
/// `s_i` of the LWE key, an encryption of the constant `s_i` under the RLWE
/// key with the same coefficients.
#[derive(Clone, Debug)]
pub struct LWEtoRLWEKeyswitchKey {
    pub inner: Vec<RGSWCiphertext>,
}

/// Every RGSW ciphertext of `inner` is well formed, of size `n`, with the
/// decomposition and modulus given.
pub open spec fn ksk_shape(inner: Seq<RGSWCiphertext>, n: usize, base_log: usize, level_count: usize, modulus: u128) -> bool {
    forall|i: int|
        0 <= i < inner.len() ==> {
            &&& (#[trigger] inner[i]).wf()
            &&& inner[i].poly_size == n
            &&& inner[i].base_log == base_log
            &&& inner[i].level_count == level_count
            &&& inner[i].modulus == modulus
        }
}

impl LWEtoRLWEKeyswitchKey {
    /// `N` zero RGSW ciphertexts with the context's key switching decomposition.
    pub fn allocate(ctx: &Context) -> (r: Self)
        requires
            4 * ctx.ks_level_count * ctx.poly_size <= usize::MAX,
            ctx.poly_size > 0,
        ensures
            r.inner.len() == ctx.poly_size,
            forall|i: int|
                0 <= i < ctx.poly_size ==> {
                    &&& (#[trigger] r.inner@[i]).data@ == zero_poly((4 * ctx.ks_level_count * ctx.poly_size) as nat)
                    &&& r.inner@[i].poly_size == ctx.poly_size
                    &&& r.inner@[i].base_log == ctx.ks_base_log
                    &&& r.inner@[i].level_count == ctx.ks_level_count
                    &&& r.inner@[i].modulus == ctx.modulus
                },
    {
        proof {
            assert(4 * ctx.ks_level_count <= 4 * ctx.ks_level_count * ctx.poly_size) by (nonlinear_arith)
                requires
                    ctx.poly_size >= 1,
            ;
        }
        let mut inner: Vec<RGSWCiphertext> = Vec::new();
        let mut i: usize = 0;
        while i < ctx.poly_size
            invariant
                4 * ctx.ks_level_count <= usize::MAX,
                4 * ctx.ks_level_count * ctx.poly_size <= usize::MAX,
                i <= ctx.poly_size,
                inner.len() == i,
                forall|j: int|
                    0 <= j < i ==> {
                        &&& (#[trigger] inner@[j]).data@ == zero_poly((4 * ctx.ks_level_count * ctx.poly_size) as nat)
                        &&& inner@[j].poly_size == ctx.poly_size
                        &&& inner@[j].base_log == ctx.ks_base_log
                        &&& inner@[j].level_count == ctx.ks_level_count
                        &&& inner@[j].modulus == ctx.modulus
                    },
            decreases ctx.poly_size - i,
        {
            inner.push(RGSWCiphertext::allocate(ctx.poly_size, ctx.ks_base_log, ctx.ks_level_count, ctx.modulus));
            i += 1;
        }
        LWEtoRLWEKeyswitchKey { inner }
    }

    /// Fill the key from the LWE key `sk`: ciphertext `i` is an RGSW
    /// encryption of the constant `sk[i]` under `sk` seen as an RLWE key.
    pub fn fill_with_keyswitching_key(&mut self, sk: &LWESecretKey, ctx: &mut Context)
        requires
            sk.wf(),
            old(ctx).wf(),
            old(ctx).poly_size == sk.key.len(),
            4 * old(ctx).ks_level_count * old(ctx).poly_size <= usize::MAX,
            is_native(old(ctx).modulus),
        ensures
            final(self).inner.len() == sk.key.len(),
            ksk_shape(final(self).inner@, old(ctx).poly_size, old(ctx).ks_base_log, old(ctx).ks_level_count, old(ctx).modulus),
            is_native(old(ctx).modulus) ==> forall|i: int|
                0 <= i < sk.key.len() ==> rgsw_encrypts_constant(sk.key@, #[trigger] final(self).inner@[i], sk.key@[i]),
            final(ctx).same_params(*old(ctx)),
    {
        let rlwe_sk = sk.to_rlwe_sk();
        let n = ctx.poly_size;
        self.inner = Vec::new();
        proof {
            assert(4 * ctx.ks_level_count <= 4 * ctx.ks_level_count * ctx.poly_size) by (nonlinear_arith)
                requires
                    ctx.poly_size >= 1,
            ;
        }
        let mut i: usize = 0;
        while i < n
            invariant
                rlwe_sk.wf(),
                rlwe_sk.key@ == sk.key@,
                n == sk.key.len(),
                ctx.wf(),
                ctx.same_params(*old(ctx)),
                n == ctx.poly_size,
                4 * ctx.ks_level_count <= usize::MAX,
                4 * ctx.ks_level_count * ctx.poly_size <= usize::MAX,
                is_native(ctx.modulus),
                i <= n,
                self.inner.len() == i,
                ksk_shape(self.inner@, n, ctx.ks_base_log, ctx.ks_level_count, ctx.modulus),
                is_native(ctx.modulus) ==> forall|j: int|
                    0 <= j < i ==> rgsw_encrypts_constant(sk.key@, #[trigger] self.inner@[j], sk.key@[j]),
            decreases n - i,
        {
            let mut rgsw_ct = RGSWCiphertext::allocate(n, ctx.ks_base_log, ctx.ks_level_count, ctx.modulus);
            rlwe_sk.encrypt_constant_rgsw(&mut rgsw_ct, sk.key[i], ctx);
            self.inner.push(rgsw_ct);
            i += 1;
        }
    }
}

/// Every RGSW ciphertext of `inner` is well formed, of size `n` and with
/// `level_count` levels.
pub open spec fn conv_ready(inner: Seq<RGSWCiphertext>, n: usize, level_count: usize) -> bool {
    forall|i: int|
        0 <= i < inner.len() ==> (#[trigger] inner[i]).wf() && inner[i].poly_size == n
            && inner[i].level_count == level_count
}

/// The digit of the `t`-th term (level `level_count - t`) of the signed
/// decomposition of `a` rounded to the closest representable value.
pub open spec fn conv_digit(base_log: usize, level_count: usize, a: u64, t: int) -> u64 {
    signed_decomposition(base_log, level_count, closest_representable_spec(base_log, level_count, a))[t]
}

/// The mask (`body == false`) or the body of row `r` of `ct`.
pub open spec fn row_part(ct: RGSWCiphertext, r: int, body: bool) -> Seq<u64> {
    if body {
        ct.row_body_spec(r)
    } else {
        ct.row_mask_spec(r)
    }
}

/// `start` after subtracting, for the first `tt` decomposition terms of `a`,
/// the body row of the term's level in `ksk` scaled by the term's digit.
/// `encrypt_constant_rgsw` stores the level `l` in the rows `2 (lc - l)` and
/// `2 (lc - l) + 1`, so the term `t` (level `lc - t`) takes the row `2 t + 1`,
/// an encryption of the key coefficient times `2^(64 - base_log * (lc - t))`.
pub open spec fn conv_one(
    start: Seq<u64>,
    ksk: RGSWCiphertext,
    base_log: usize,
    level_count: usize,
    a: u64,
    tt: int,
    body: bool,
) -> Seq<u64>
    decreases tt,
{
    if tt <= 0 {
        start
    } else {
        let t = tt - 1;
        seq_sub(
            conv_one(start, ksk, base_log, level_count, a, t, body),
            seq_scale(row_part(ksk, 2 * t + 1, body), conv_digit(base_log, level_count, a, t)),
        )
    }
}

/// The mask or the body of the RLWE ciphertext of size `n` after the
/// first `m` coefficients of `mask` have been switched with `ksks`.
pub open spec fn conv_acc(
    ksks: Seq<RGSWCiphertext>,
    mask: Seq<u64>,
    base_log: usize,
    level_count: usize,
    n: nat,
    m: int,
    body: bool,
) -> Seq<u64>
    decreases m,
{
    if m <= 0 {
        zero_poly(n)
    } else {
        conv_one(
            conv_acc(ksks, mask, base_log, level_count, n, m - 1, body),
            ksks[m - 1],
            base_log,
            level_count,
            mask[m - 1],
            level_count as int,
            body,
        )
    }
}

/// The body that `conv_lwe_to_rlwe` adds: the word after the first `n`
/// mask words where there is one, else the body of `lwe`.
pub open spec fn conv_body(lwe: LWECiphertext, n: usize) -> u64 {
    if lwe.mask.len() > n {
        lwe.mask@[n as int]
    } else {
        lwe.body
    }
}

/// The number of coefficients that `conv_lwe_to_rlwe` switches.
pub open spec fn conv_count(ksks: Seq<RGSWCiphertext>, n: usize) -> int {
    if ksks.len() < n {
        ksks.len() as int
    } else {
        n as int
    }
}

/// Switch the LWE ciphertext `lwe` (read as `N` mask words and a body) to an
/// RLWE ciphertext under the RLWE key of the same coefficients:
/// `-sum_i a_i * RLWE(s_i)` through the decomposition of each `a_i`, with
/// the body `b` added to the constant coefficient.
pub fn conv_lwe_to_rlwe(ksks: &LWEtoRLWEKeyswitchKey, lwe: &LWECiphertext, ctx: &Context) -> (out: RLWECiphertext)
    requires
        ctx.wf(),
        lwe.mask.len() >= ctx.poly_size,
        conv_ready(ksks.inner@, ctx.poly_size, ctx.ks_level_count),
    ensures
        out.mask@ == conv_acc(
            ksks.inner@,
            lwe.mask@,
            ctx.ks_base_log,
            ctx.ks_level_count,
            ctx.poly_size as nat,
            conv_count(ksks.inner@, ctx.poly_size),
            false,
        ),
        out.body@ == {
            let b = conv_acc(
                ksks.inner@,
                lwe.mask@,
                ctx.ks_base_log,
                ctx.ks_level_count,
                ctx.poly_size as nat,
                conv_count(ksks.inner@, ctx.poly_size),
                true,
            );
            b.update(0, wrap(b[0] + conv_body(*lwe, ctx.poly_size)))
        },
        out.mask.len() == ctx.poly_size,
        out.body.len() == ctx.poly_size,
        out.modulus == ctx.modulus,
        forall|key: Seq<u64>, msgs: Seq<u64>|
            #![trigger conv_phase(ksks.inner@, lwe.mask@, conv_body(*lwe, ctx.poly_size), ctx.ks_base_log, ctx.ks_level_count, ctx.poly_size as nat, conv_count(ksks.inner@, ctx.poly_size), key, msgs)]
            key.len() == ctx.poly_size && msgs.len() == ksks.inner.len() ==> phase(key, out.mask@, out.body@)
                == conv_phase(
                ksks.inner@,
                lwe.mask@,
                conv_body(*lwe, ctx.poly_size),
                ctx.ks_base_log,
                ctx.ks_level_count,
                ctx.poly_size as nat,
                conv_count(ksks.inner@, ctx.poly_size),
                key,
                msgs,
            ),
        forall|i: int, t: int|
            0 <= i < conv_count(ksks.inner@, ctx.poly_size) && 0 <= t < ctx.ks_level_count ==> #[trigger] digit_in_range(
                ctx.ks_base_log,
                conv_digit(ctx.ks_base_log, ctx.ks_level_count, lwe.mask@[i], t),
            ),
{
    let n = ctx.poly_size;
    let bl = ctx.ks_base_log;
    let lc = ctx.ks_level_count;
    let mut out = RLWECiphertext::allocate(n, ctx.modulus);
    let body = if lwe.mask.len() > n {
        lwe.mask[n]
    } else {
        lwe.body
    };
    proof {
        assert(lc <= bl * lc) by (nonlinear_arith)
            requires
                bl >= 1,
        ;
    }
    let count = if ksks.inner.len() < n {
        ksks.inner.len()
    } else {
        n
    };
    let mut i: usize = 0;
    while i < count
        invariant
            ctx.wf(),
            n == ctx.poly_size,
            bl == ctx.ks_base_log,
            lc == ctx.ks_level_count,
            count == conv_count(ksks.inner@, n),
            count <= ksks.inner.len(),
            count <= lwe.mask.len(),
            conv_ready(ksks.inner@, n, lc),
            lc < 64,
            i <= count,
            out.mask.len() == n,
            out.body.len() == n,
            out.modulus == ctx.modulus,
            out.mask@ == conv_acc(ksks.inner@, lwe.mask@, bl, lc, n as nat, i as int, false),
            out.body@ == conv_acc(ksks.inner@, lwe.mask@, bl, lc, n as nat, i as int, true),
            valid_decomposition(bl, lc),
            forall|j: int| 0 <= j < i ==> #[trigger] recomposes(bl, lc, lwe.mask@[j]),
            forall|j: int, t: int|
                0 <= j < i && 0 <= t < lc ==> #[trigger] digit_in_range(bl, conv_digit(bl, lc, lwe.mask@[j], t)),
        decreases count - i,
    {
        let ksk = &ksks.inner[i];
        let a = lwe.mask[i];
        let closest = closest_representable(bl, lc, a);
        let terms = decompose(bl, lc, closest);
        proof {
            crate::keyswitch::lemma_closest_idempotent(bl, lc, a);
            assert(recomposes(bl, lc, a));
            assert forall|t: int| 0 <= t < lc implies #[trigger] digit_in_range(bl, conv_digit(bl, lc, a, t)) by {
                assert(terms@.map_values(|p: (usize, u64)| p.1)[t] == terms@[t].1);
            }
        }
        let ghost start_mask = out.mask@;
        let ghost start_body = out.body@;
        let mut t: usize = 0;
        while t < lc
            invariant
                valid_decomposition(bl, lc),
                lc < 64,
                ksk.wf(),
                ksk.poly_size == n,
                ksk.level_count == lc,
                terms.len() == lc,
                forall|t2: int| 0 <= t2 < lc ==> #[trigger] terms@[t2].0 == lc - t2,
                terms@.map_values(|p: (usize, u64)| p.1) == signed_decomposition(bl, lc, closest),
                closest == closest_representable_spec(bl, lc, a),
                t <= lc,
                out.mask.len() == n,
                out.body.len() == n,
                out.modulus == ctx.modulus,
                out.mask@ == conv_one(start_mask, *ksk, bl, lc, a, t as int, false),
                out.body@ == conv_one(start_body, *ksk, bl, lc, a, t as int, true),
                a == lwe.mask@[i as int],
                forall|j: int| 0 <= j <= i ==> #[trigger] recomposes(bl, lc, lwe.mask@[j]),
                forall|j: int, t2: int|
                    0 <= j <= i && 0 <= t2 < lc ==> #[trigger] digit_in_range(bl, conv_digit(bl, lc, lwe.mask@[j], t2)),
            decreases lc - t,
        {
            let (ell, value) = terms[t];
            assert(terms@.map_values(|p: (usize, u64)| p.1)[t as int] == value);
            assert(ell == lc - t);
            let mut row = ksk.get_nth_row(2 * (lc - ell) + 1);
            mul_const(&mut row.mask, value);
            mul_const(&mut row.body, value);
            out.update_with_sub(&row);
            t += 1;
        }
        i += 1;
    }
    let b0 = out.body[0];
    let v = b0.wrapping_add(body);
    proof {
        lemma_wrapping_add(b0, body);
    }
    out.body.set(0, v);
    proof {
        assert forall|key: Seq<u64>, msgs: Seq<u64>|
            key.len() == n && msgs.len() == ksks.inner.len() implies phase(key, out.mask@, out.body@)
            == #[trigger] conv_phase(
            ksks.inner@,
            lwe.mask@,
            conv_body(*lwe, n),
            bl,
            lc,
            n as nat,
            conv_count(ksks.inner@, n),
            key,
            msgs,
        ) by {
            lemma_conv_phase(ksks.inner@, lwe.mask@, body, bl, lc, count as int, key, msgs);
        }
    }
    out
}


/// The error of row `2 t + 1` of `ksk` read as a row of a constant GGSW
/// encryption of `msg` under `key`: its phase minus the row message.
pub open spec fn conv_row_error(
    ksk: RGSWCiphertext,
    key: Seq<u64>,
    base_log: usize,
    level_count: usize,
    msg: u64,
    t: int,
) -> Seq<u64> {
    seq_sub(
        phase(key, ksk.row_mask_spec(2 * t + 1), ksk.row_body_spec(2 * t + 1)),
        ggsw_row_message(key, base_log, level_count, msg, 2 * t + 1),
    )
}

/// Coefficient `k` of `sum_{t < tt} D_t(a) * E_t`: the digits of `a` times
/// the errors of the rows of `ksk` they scale.
pub open spec fn conv_noise_one(
    ksk: RGSWCiphertext,
    key: Seq<u64>,
    base_log: usize,
    level_count: usize,
    a: u64,
    msg: u64,
    tt: int,
    k: int,
) -> int
    decreases tt,
{
    if tt <= 0 {
        0
    } else {
        conv_noise_one(ksk, key, base_log, level_count, a, msg, tt - 1, k) + conv_digit(
            base_log,
            level_count,
            a,
            tt - 1,
        ) * conv_row_error(ksk, key, base_log, level_count, msg, tt - 1)[k]
    }
}

/// Coefficient `k` of the noise of switching the first `m` mask words.
pub open spec fn conv_noise(
    ksks: Seq<RGSWCiphertext>,
    mask: Seq<u64>,
    key: Seq<u64>,
    base_log: usize,
    level_count: usize,
    msgs: Seq<u64>,
    m: int,
    k: int,
) -> int
    decreases m,
{
    if m <= 0 {
        0
    } else {
        conv_noise(ksks, mask, key, base_log, level_count, msgs, m - 1, k) + conv_noise_one(
            ksks[m - 1],
            key,
            base_log,
            level_count,
            mask[m - 1],
            msgs[m - 1],
            level_count as int,
            k,
        )
    }
}

/// `sum_{i < m} msgs[i] * R(mask[i])`, with `R` the rounding to the closest
/// representable value.
pub open spec fn conv_dot(mask: Seq<u64>, base_log: usize, level_count: usize, msgs: Seq<u64>, m: int) -> int
    decreases m,
{
    if m <= 0 {
        0
    } else {
        conv_dot(mask, base_log, level_count, msgs, m - 1) + msgs[m - 1] * closest_representable_spec(
            base_log,
            level_count,
            mask[m - 1],
        )
    }
}

/// The phase under `key` of the conversion of the first `count` mask words
/// and the body `lwe_body`, when the RGSW ciphertexts are read as constant
/// encryptions of `msgs`: the constant coefficient is the LWE phase
/// `lwe_body - sum_i msgs[i] * R(mask[i])`, and every coefficient loses the
/// digits times the row errors.
pub open spec fn conv_phase(
    ksks: Seq<RGSWCiphertext>,
    mask: Seq<u64>,
    lwe_body: u64,
    base_log: usize,
    level_count: usize,
    n: nat,
    count: int,
    key: Seq<u64>,
    msgs: Seq<u64>,
) -> Seq<u64> {
    Seq::new(
        n,
        |k: int|
            wrap(
                (if k == 0 {
                    lwe_body - conv_dot(mask, base_log, level_count, msgs, count)
                } else {
                    0
                }) - conv_noise(ksks, mask, key, base_log, level_count, msgs, count, k),
            ),
    )
}

proof fn lemma_conv_one_len(
    start: Seq<u64>,
    ksk: RGSWCiphertext,
    base_log: usize,
    level_count: usize,
    a: u64,
    tt: int,
    body: bool,
)
    ensures
        conv_one(start, ksk, base_log, level_count, a, tt, body).len() == start.len(),
    decreases tt,
{
    if tt > 0 {
        lemma_conv_one_len(start, ksk, base_log, level_count, a, tt - 1, body);
    }
}

proof fn lemma_cong_scale(c: int, x: int, y: int)
    requires
        x % word_modulus() == y % word_modulus(),
    ensures
        (c * x) % word_modulus() == (c * y) % word_modulus(),
{
    vstd::arithmetic::div_mod::lemma_mul_mod_noop_right(c, x, word_modulus());
    vstd::arithmetic::div_mod::lemma_mul_mod_noop_right(c, y, word_modulus());
}

#[verifier::spinoff_prover]
#[verifier::rlimit(30)]
proof fn lemma_conv_step_arith(
    ph: int,
    bk: int,
    mk: int,
    bp: int,
    rb: int,
    mpk: int,
    rmk: int,
    php: int,
    x: int,
    rp: int,
    e: int,
    mr: int,
    d: int,
    z: int,
    noise_p: int,
)
    requires
        ph % word_modulus() == (bk - mk) % word_modulus(),
        bk % word_modulus() == (bp - d * rb) % word_modulus(),
        mk % word_modulus() == (1 * mpk + (-d) * rmk) % word_modulus(),
        php % word_modulus() == (bp - mpk) % word_modulus(),
        php % word_modulus() == (x - noise_p) % word_modulus(),
        rp % word_modulus() == (rb - rmk) % word_modulus(),
        e % word_modulus() == (rp - mr) % word_modulus(),
        mr % word_modulus() == z % word_modulus(),
    ensures
        ph % word_modulus() == (x - d * z - (noise_p + d * e)) % word_modulus(),
{
    let w = word_modulus();
    lemma_cong_sub(bk, bp - d * rb, mk, 1 * mpk + (-d) * rmk);
    assert(bp - d * rb - (1 * mpk + (-d) * rmk) == (bp - mpk) - d * (rb - rmk)) by (nonlinear_arith);
    assert(ph % w == ((bp - mpk) - d * (rb - rmk)) % w);
    lemma_cong_scale(d, rp, rb - rmk);
    lemma_cong_sub(bp - mpk, x - noise_p, d * (rb - rmk), d * rp);
    assert(ph % w == ((x - noise_p) - d * rp) % w);
    // rp = e + mr, so d * rp = d * e + d * z
    lemma_cong_add(e, rp - mr, mr, z);
    assert(rp - mr + mr == rp);
    lemma_cong_scale(d, e + z, rp);
    assert(d * (e + z) == d * e + d * z) by (nonlinear_arith);
    lemma_cong_sub(x - noise_p, x - noise_p, d * rp, d * e + d * z);
    assert(x - noise_p - (d * e + d * z) == x - d * z - (noise_p + d * e));
}

/// The phase of `conv_one` after `tt` terms: the phase of the start minus,
/// in the constant coefficient, `msg` times the value of the first `tt`
/// digits, minus the digits times the row errors.
proof fn lemma_conv_one_phase(
    sm: Seq<u64>,
    sb: Seq<u64>,
    ksk: RGSWCiphertext,
    base_log: usize,
    level_count: usize,
    a: u64,
    key: Seq<u64>,
    msg: u64,
    tt: int,
)
    requires
        valid_decomposition(base_log, level_count),
        0 <= tt <= level_count,
        ksk.wf(),
        ksk.poly_size == key.len(),
        ksk.level_count == level_count,
        sm.len() == key.len(),
        sb.len() == key.len(),
    ensures
        forall|k: int|
            0 <= k < key.len() ==> (#[trigger] phase(
                key,
                conv_one(sm, ksk, base_log, level_count, a, tt, false),
                conv_one(sb, ksk, base_log, level_count, a, tt, true),
            )[k] as int) % word_modulus() == (phase(key, sm, sb)[k] - (if k == 0 {
                msg * recompose_acc(
                    base_log,
                    level_count,
                    signed_decomposition(base_log, level_count, closest_representable_spec(base_log, level_count, a)),
                    tt,
                )
            } else {
                0
            }) - conv_noise_one(ksk, key, base_log, level_count, a, msg, tt, k)) % word_modulus(),
    decreases tt,
{
    let n = key.len() as int;
    let w = word_modulus();
    let digs = signed_decomposition(base_log, level_count, closest_representable_spec(base_log, level_count, a));
    lemma_conv_one_len(sm, ksk, base_log, level_count, a, tt, false);
    lemma_conv_one_len(sb, ksk, base_log, level_count, a, tt, true);
    if tt > 0 {
        lemma_conv_one_phase(sm, sb, ksk, base_log, level_count, a, key, msg, tt - 1);
        let t = tt - 1;
        let r = 2 * t + 1;
        crate::rgsw::lemma_row_in_bounds(level_count as int, n, r);
        crate::rgsw::lemma_gadget_exact(base_log, level_count, t);
        let gg = pow2((64 - base_log * (level_count - t)) as nat);
        assert(r / 2 == t && r % 2 == 1);
        let d = conv_digit(base_log, level_count, a, t);
        assert(d == digs[t]);
        let rm = ksk.row_mask_spec(r);
        let rb = ksk.row_body_spec(r);
        let mp = conv_one(sm, ksk, base_log, level_count, a, t, false);
        let bp = conv_one(sb, ksk, base_log, level_count, a, t, true);
        lemma_conv_one_len(sm, ksk, base_log, level_count, a, t, false);
        lemma_conv_one_len(sb, ksk, base_log, level_count, a, t, true);
        let mm = conv_one(sm, ksk, base_log, level_count, a, tt, false);
        let bb = conv_one(sb, ksk, base_log, level_count, a, tt, true);
        assert(mm == seq_sub(mp, seq_scale(rm, d)));
        assert(bb == seq_sub(bp, seq_scale(rb, d)));
        assert forall|i: int| 0 <= i < n implies #[trigger] (mm[i] as int) % w == (1 * mp[i] + (-d) * rm[i]) % w by {
            lemma_mod_sub(mp[i] as int, seq_scale(rm, d)[i] as int);
            vstd::arithmetic::div_mod::lemma_mod_twice(rm[i] * d, w);
            lemma_cong_sub(mp[i] as int, mp[i] as int, seq_scale(rm, d)[i] as int, rm[i] * d);
            assert(mp[i] - rm[i] * d == 1 * mp[i] + (-d) * rm[i]) by (nonlinear_arith);
        }
        lemma_negacyclic_lin(mm, mp, rm, key, 1, -d);
        let rp = phase(key, rm, rb);
        let mr = ggsw_row_message(key, base_log, level_count, msg, r);
        let e = conv_row_error(ksk, key, base_log, level_count, msg, t);
        assert forall|k: int| 0 <= k < n implies (#[trigger] phase(key, mm, bb)[k] as int) % w == (phase(
            key,
            sm,
            sb,
        )[k] - (if k == 0 {
            msg * recompose_acc(base_log, level_count, digs, tt)
        } else {
            0
        }) - conv_noise_one(ksk, key, base_log, level_count, a, msg, tt, k)) % w by {
            let x = phase(key, sm, sb)[k] - (if k == 0 {
                msg * recompose_acc(base_log, level_count, digs, t)
            } else {
                0
            });
            let z = if k == 0 {
                msg * gg
            } else {
                0
            };
            lemma_mod_sub(bb[k] as int, negacyclic(mm, key)[k] as int);
            lemma_mod_sub(bp[k] as int, seq_scale(rb, d)[k] as int);
            vstd::arithmetic::div_mod::lemma_mod_twice(rb[k] * d, w);
            lemma_cong_sub(bp[k] as int, bp[k] as int, seq_scale(rb, d)[k] as int, rb[k] * d);
            assert(rb[k] * d == d * rb[k]) by (nonlinear_arith);
            lemma_mod_sub(bp[k] as int, negacyclic(mp, key)[k] as int);
            lemma_mod_sub(rb[k] as int, negacyclic(rm, key)[k] as int);
            lemma_mod_sub(rp[k] as int, mr[k] as int);
            // the row message is `msg * 2^(64 - base_log * (level_count - t))` in the constant coefficient
            if k == 0 {
                let g = wrap(-msg * gg);
                lemma_mod_sub(0, g as int);
                lemma_mod_sub(0, -msg * gg);
                lemma_cong_sub(0, 0, g as int, -msg * gg);
                assert(0 - (-msg * gg) == msg * gg) by (nonlinear_arith);
            } else {
                vstd::arithmetic::div_mod::lemma_small_mod(0, w as nat);
            }
            lemma_conv_step_arith(
                phase(key, mm, bb)[k] as int,
                bb[k] as int,
                negacyclic(mm, key)[k] as int,
                bp[k] as int,
                rb[k] as int,
                negacyclic(mp, key)[k] as int,
                negacyclic(rm, key)[k] as int,
                phase(key, mp, bp)[k] as int,
                x,
                rp[k] as int,
                e[k] as int,
                mr[k] as int,
                d as int,
                z,
                conv_noise_one(ksk, key, base_log, level_count, a, msg, t, k),
            );
            if k == 0 {
                assert(recompose_acc(base_log, level_count, digs, tt) == recompose_acc(base_log, level_count, digs, t)
                    + digs[t] * gg);
                assert(msg * recompose_acc(base_log, level_count, digs, tt) == msg * recompose_acc(
                    base_log,
                    level_count,
                    digs,
                    t,
                ) + d * (msg * gg)) by (nonlinear_arith)
                    requires
                        recompose_acc(base_log, level_count, digs, tt) == recompose_acc(base_log, level_count, digs, t)
                            + digs[t] * gg,
                        d == digs[t],
                ;
            }
        }
    }
}


/// A partial conversion of size `n` has `n` coefficients.
pub proof fn lemma_conv_acc_len(
    ksks: Seq<RGSWCiphertext>,
    mask: Seq<u64>,
    base_log: usize,
    level_count: usize,
    n: nat,
    m: int,
    body: bool,
)
    ensures
        conv_acc(ksks, mask, base_log, level_count, n, m, body).len() == n,
    decreases m,
{
    if m > 0 {
        lemma_conv_acc_len(ksks, mask, base_log, level_count, n, m - 1, body);
        lemma_conv_one_len(
            conv_acc(ksks, mask, base_log, level_count, n, m - 1, body),
            ksks[m - 1],
            base_log,
            level_count,
            mask[m - 1],
            level_count as int,
            body,
        );
    }
}

/// The digits of the rounded `a` recompose to it.
pub open spec fn recomposes(base_log: usize, level_count: usize, a: u64) -> bool {
    recompose(
        base_log,
        level_count,
        signed_decomposition(base_log, level_count, closest_representable_spec(base_log, level_count, a)),
    ) == closest_representable_spec(base_log, level_count, a)
}

/// The phase of the conversion of the first `m` mask words: minus
/// `conv_dot` in the constant coefficient, minus `conv_noise` everywhere.
proof fn lemma_conv_acc_phase(
    ksks: Seq<RGSWCiphertext>,
    mask: Seq<u64>,
    base_log: usize,
    level_count: usize,
    key: Seq<u64>,
    msgs: Seq<u64>,
    m: int,
)
    requires
        valid_decomposition(base_log, level_count),
        0 <= m <= ksks.len(),
        m <= mask.len(),
        m <= msgs.len(),
        conv_ready(ksks, key.len() as usize, level_count),
        key.len() <= usize::MAX,
        forall|i: int| 0 <= i < m ==> #[trigger] recomposes(base_log, level_count, mask[i]),
    ensures
        forall|k: int|
            0 <= k < key.len() ==> (#[trigger] phase(
                key,
                conv_acc(ksks, mask, base_log, level_count, key.len(), m, false),
                conv_acc(ksks, mask, base_log, level_count, key.len(), m, true),
            )[k] as int) % word_modulus() == ((if k == 0 {
                0 - conv_dot(mask, base_log, level_count, msgs, m)
            } else {
                0
            }) - conv_noise(ksks, mask, key, base_log, level_count, msgs, m, k)) % word_modulus(),
    decreases m,
{
    let n = key.len();
    let w = word_modulus();
    lemma_conv_acc_len(ksks, mask, base_log, level_count, n, m, false);
    lemma_conv_acc_len(ksks, mask, base_log, level_count, n, m, true);
    if m == 0 {
        let z = zero_poly(n);
        lemma_negacyclic_lin(z, z, z, key, 0, 0);
        assert forall|k: int| 0 <= k < n implies (#[trigger] phase(key, z, z)[k] as int) % w == ((if k == 0 {
            0 - conv_dot(mask, base_log, level_count, msgs, m)
        } else {
            0
        }) - conv_noise(ksks, mask, key, base_log, level_count, msgs, m, k)) % w by {
            lemma_mod_sub(0, negacyclic(z, key)[k] as int);
            lemma_cong_sub(0, 0, negacyclic(z, key)[k] as int, 0);
        }
    } else {
        lemma_conv_acc_phase(ksks, mask, base_log, level_count, key, msgs, m - 1);
        let i = m - 1;
        let sm = conv_acc(ksks, mask, base_log, level_count, n, m - 1, false);
        let sb = conv_acc(ksks, mask, base_log, level_count, n, m - 1, true);
        lemma_conv_acc_len(ksks, mask, base_log, level_count, n, m - 1, false);
        lemma_conv_acc_len(ksks, mask, base_log, level_count, n, m - 1, true);
        assert(ksks[i].wf() && ksks[i].poly_size == n && ksks[i].level_count == level_count);
        lemma_conv_one_phase(sm, sb, ksks[i], base_log, level_count, mask[i], key, msgs[i], level_count as int);
        let c = closest_representable_spec(base_log, level_count, mask[i]);
        let digs = signed_decomposition(base_log, level_count, c);
        let racc = recompose_acc(base_log, level_count, digs, level_count as int);
        assert(recomposes(base_log, level_count, mask[i]));
        // the digits stand for the rounded word, modulo 2^64
        assert(racc % w == (c as int) % w) by {
            vstd::arithmetic::div_mod::lemma_mod_twice(racc, w);
            vstd::arithmetic::div_mod::lemma_small_mod(c as nat, w as nat);
        }
        lemma_cong_scale(msgs[i] as int, racc, c as int);
        assert forall|k: int| 0 <= k < n implies (#[trigger] phase(
            key,
            conv_acc(ksks, mask, base_log, level_count, n, m, false),
            conv_acc(ksks, mask, base_log, level_count, n, m, true),
        )[k] as int) % w == ((if k == 0 {
            0 - conv_dot(mask, base_log, level_count, msgs, m)
        } else {
            0
        }) - conv_noise(ksks, mask, key, base_log, level_count, msgs, m, k)) % w by {
            let prev = phase(key, sm, sb)[k] as int;
            let dp = if k == 0 {
                0 - conv_dot(mask, base_log, level_count, msgs, m - 1)
            } else {
                0
            };
            let np = conv_noise(ksks, mask, key, base_log, level_count, msgs, m - 1, k);
            let no = conv_noise_one(ksks[i], key, base_log, level_count, mask[i], msgs[i], level_count as int, k);
            let u = if k == 0 {
                msgs[i] * racc
            } else {
                0
            };
            let v = if k == 0 {
                msgs[i] * c
            } else {
                0
            };
            lemma_cong_sub(prev, dp - np, u, v);
            lemma_cong_sub(prev - u, dp - np - v, no, no);
            assert(dp - np - v - no == (if k == 0 {
                0 - conv_dot(mask, base_log, level_count, msgs, m)
            } else {
                0
            }) - (np + no));
        }
    }
}

/// The phase of `conv_lwe_to_rlwe`'s result, once the conversion of the
/// first `count` words and the body addition are known.
proof fn lemma_conv_phase(
    ksks: Seq<RGSWCiphertext>,
    mask: Seq<u64>,
    lwe_body: u64,
    base_log: usize,
    level_count: usize,
    count: int,
    key: Seq<u64>,
    msgs: Seq<u64>,
)
    requires
        valid_decomposition(base_log, level_count),
        key.len() > 0,
        0 <= count <= ksks.len(),
        count <= mask.len(),
        msgs.len() == ksks.len(),
        conv_ready(ksks, key.len() as usize, level_count),
        key.len() <= usize::MAX,
        forall|i: int| 0 <= i < count ==> #[trigger] recomposes(base_log, level_count, mask[i]),
    ensures
        ({
            let b = conv_acc(ksks, mask, base_log, level_count, key.len(), count, true);
            phase(
                key,
                conv_acc(ksks, mask, base_log, level_count, key.len(), count, false),
                b.update(0, wrap(b[0] + lwe_body)),
            )
        }) == conv_phase(ksks, mask, lwe_body, base_log, level_count, key.len(), count, key, msgs),
{
    let n = key.len();
    let w = word_modulus();
    lemma_conv_acc_phase(ksks, mask, base_log, level_count, key, msgs, count);
    let mm = conv_acc(ksks, mask, base_log, level_count, n, count, false);
    let b = conv_acc(ksks, mask, base_log, level_count, n, count, true);
    lemma_conv_acc_len(ksks, mask, base_log, level_count, n, count, false);
    lemma_conv_acc_len(ksks, mask, base_log, level_count, n, count, true);
    let bb = b.update(0, wrap(b[0] + lwe_body));
    let lhs = phase(key, mm, bb);
    let rhs = conv_phase(ksks, mask, lwe_body, base_log, level_count, n, count, key, msgs);
    assert forall|k: int| 0 <= k < n implies #[trigger] lhs[k] == rhs[k] by {
        let mk = negacyclic(mm, key)[k] as int;
        let prev = phase(key, mm, b)[k] as int;
        let dp = if k == 0 {
            0 - conv_dot(mask, base_log, level_count, msgs, count)
        } else {
            0
        };
        let nn = conv_noise(ksks, mask, key, base_log, level_count, msgs, count, k);
        lemma_mod_sub(b[k] as int, mk);
        lemma_mod_sub(bb[k] as int, mk);
        let extra = if k == 0 {
            lwe_body as int
        } else {
            0
        };
        if k == 0 {
            lemma_mod_sub(b[0] + lwe_body, 0);
        }
        // bb[k] = b[k] + extra modulo 2^64
        assert((bb[k] as int) % w == (b[k] + extra) % w);
        lemma_cong_sub(bb[k] as int, b[k] + extra, mk, mk);
        lemma_cong_sub(b[k] as int, b[k] as int, mk, mk);
        lemma_cong_add(prev, dp - nn, extra, extra);
        lemma_cong_add(b[k] - mk, prev, extra, extra);
        assert(b[k] + extra - mk == b[k] - mk + extra);
        assert(dp - nn + extra == (if k == 0 {
            lwe_body - conv_dot(mask, base_log, level_count, msgs, count)
        } else {
            0
        }) - nn);
        lemma_mod_sub(
            (if k == 0 {
                lwe_body - conv_dot(mask, base_log, level_count, msgs, count)
            } else {
                0
            }) - nn,
            0,
        );
        vstd::arithmetic::div_mod::lemma_small_mod(lhs[k] as nat, w as nat);
        vstd::arithmetic::div_mod::lemma_small_mod(rhs[k] as nat, w as nat);
    }
    assert(lhs =~= rhs);
}


/// The rows of constant RGSW encryptions of `msgs` with binary noise have
/// binary errors, so that the noise of the conversion is the digits times
/// binary values.
pub proof fn lemma_conv_row_errors_binary(ksks: Seq<RGSWCiphertext>, key: Seq<u64>, msgs: Seq<u64>)
    requires
        msgs.len() == ksks.len(),
        forall|i: int|
            0 <= i < ksks.len() ==> (#[trigger] ksks[i]).wf() && ksks[i].poly_size == key.len()
                && rgsw_encrypts_constant(key, ksks[i], msgs[i]),
    ensures
        forall|i: int, t: int, k: int|
            0 <= i < ksks.len() && 0 <= t < ksks[i].level_count && 0 <= k < key.len() ==> binary_noise(
                #[trigger] conv_row_error(ksks[i], key, ksks[i].base_log, ksks[i].level_count, msgs[i], t)[k],
            ),
{
    assert forall|i: int, t: int, k: int|
        0 <= i < ksks.len() && 0 <= t < ksks[i].level_count && 0 <= k < key.len() implies binary_noise(
        #[trigger] conv_row_error(ksks[i], key, ksks[i].base_log, ksks[i].level_count, msgs[i], t)[k],
    ) by {
        let ct = ksks[i];
        crate::rgsw::lemma_row_in_bounds(ct.level_count as int, ct.poly_size as int, 2 * t + 1);
        assert(binary_noise(
            wrap(
                phase(key, ct.row_mask_spec(2 * t + 1), ct.row_body_spec(2 * t + 1))[k] - ggsw_row_message(
                    key,
                    ct.base_log,
                    ct.level_count,
                    msgs[i],
                    2 * t + 1,
                )[k],
            ),
        ));
    }
}

} // verus!
