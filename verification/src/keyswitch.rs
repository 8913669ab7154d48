//! Key switching between RLWE secret keys, and the substitution
//! `X -> X^k` that is built on it.
use vstd::arithmetic::power2::pow2;
use vstd::prelude::*;

use crate::backend::{
    closest_representable, closest_representable_spec, digit_in_range, is_native, valid_decomposition,
    valid_modulus, EncryptionGenerator,
};
use crate::oram::negacyclic_mul;
use crate::poly::{eval_x_k, eval_x_k_spec, mul_const, negacyclic, seq_scale, seq_sub, zero_poly};
use crate::rgsw::{
    decompose_all, digit_poly, digits_at, gadget, lemma_gadget_exact, lemma_recomp_step, recomp_seq, rounded_poly,
};
use crate::context::Context;
use crate::poly::{floor_log2, log2, seq_add};
use crate::rgsw::{ext_prod_acc, ext_prod_phase, RGSWCiphertext};
use crate::rlwe::{encrypts_with_binary_noise, phase, RLWECiphertext, RLWESecretKey};
use crate::backend::{recompose, signed_decomposition};
use crate::poly::{wrap, word_modulus};
use crate::ring::{
    lemma_cong_add, lemma_cong_sub, lemma_lin_right, lemma_mod_sub, lemma_negacyclic_assoc, lemma_negacyclic_comm,
    lemma_negacyclic_lin,
};
use std::collections::HashMap;

verus! {



/// The mask (`body == false`) or the body of the key switching ciphertext `j`.
pub open spec fn ksk_part(ksks: Seq<RLWECiphertext>, j: int, body: bool) -> Seq<u64> {
    if body {
        ksks[j].body@
    } else {
        ksks[j].mask@
    }
}

/// The mask (`body == false`) or the body of a key switching after the first
/// `m` decomposition terms of `d`, starting from `start`: the term `t`
/// (level `level_count - t`) multiplies the ciphertext `level_count - 1 - t`,
/// and the product is subtracted.
pub open spec fn ks_acc(
    ksks: Seq<RLWECiphertext>,
    base_log: usize,
    level_count: usize,
    d: Seq<u64>,
    start: Seq<u64>,
    m: int,
    body: bool,
) -> Seq<u64>
    decreases m,
{
    if m <= 0 {
        start
    } else {
        seq_sub(
            ks_acc(ksks, base_log, level_count, d, start, m - 1, body),
            negacyclic(ksk_part(ksks, level_count - m, body), digit_poly(base_log, level_count, d, m - 1)),
        )
    }
}

/// With the native modulus, ciphertext `j` encrypts `before * 2^(64 - base_log * (j + 1))`
/// under `after` with binary noise, for every level.
pub open spec fn ksk_encrypts(
    before: Seq<u64>,
    after: Seq<u64>,
    ksks: Seq<RLWECiphertext>,
    base_log: usize,
) -> bool {
    forall|j: int|
        0 <= j < ksks.len() ==> encrypts_with_binary_noise(
            after,
            #[trigger] ksks[j],
            seq_scale(before, gadget(base_log, j + 1)),
        )
}

/// The mask of the substitution of the ciphertext of mask `mask` by `ksk`.
pub open spec fn subs_mask(ksk: RLWEKeyswitchKey, mask: Seq<u64>) -> Seq<u64> {
    ks_acc(
        ksk.ksks@,
        ksk.decomp_base_log,
        ksk.decomp_level_count,
        rounded_poly(ksk.decomp_base_log, ksk.decomp_level_count, eval_x_k_spec(mask, ksk.subs_k as int)),
        zero_poly(ksk.polynomial_size as nat),
        ksk.decomp_level_count as int,
        false,
    )
}

/// The body of the substitution of the ciphertext `(mask, body)` by `ksk`.
pub open spec fn subs_body(ksk: RLWEKeyswitchKey, mask: Seq<u64>, body: Seq<u64>) -> Seq<u64> {
    ks_acc(
        ksk.ksks@,
        ksk.decomp_base_log,
        ksk.decomp_level_count,
        rounded_poly(ksk.decomp_base_log, ksk.decomp_level_count, eval_x_k_spec(mask, ksk.subs_k as int)),
        eval_x_k_spec(body, ksk.subs_k as int),
        ksk.decomp_level_count as int,
        true,
    )
}

/// An RLWE key switching key: one RLWE ciphertext per decomposition level,
/// and the `k` of the substitution it serves (`0` for a plain key switch).
#[derive(Clone, Debug)]
pub struct RLWEKeyswitchKey {
    pub ksks: Vec<RLWECiphertext>,
    pub decomp_base_log: usize,
    pub decomp_level_count: usize,
    pub polynomial_size: usize,
    pub subs_k: usize,
    pub modulus: u128,
}

impl RLWEKeyswitchKey {
    /// One ciphertext of size `polynomial_size` per level, all under the key's modulus.
    pub open spec fn wf(&self) -> bool {
        &&& self.polynomial_size > 0
        &&& valid_decomposition(self.decomp_base_log, self.decomp_level_count)
        &&& self.ksks.len() == self.decomp_level_count
        &&& forall|j: int|
            0 <= j < self.ksks.len() ==> (#[trigger] self.ksks@[j]).mask.len() == self.polynomial_size
                && self.ksks@[j].body.len() == self.polynomial_size && self.ksks@[j].modulus
                == self.modulus
    }

    /// The same decomposition, size and modulus as `other`.
    pub open spec fn same_shape(&self, other: RLWEKeyswitchKey) -> bool {
        &&& self.decomp_base_log == other.decomp_base_log
        &&& self.decomp_level_count == other.decomp_level_count
        &&& self.polynomial_size == other.polynomial_size
        &&& self.modulus == other.modulus
    }

    /// A key of `decomp_level_count` zero ciphertexts.
    pub fn allocate(
        decomp_base_log: usize,
        decomp_level_count: usize,
        polynomial_size: usize,
        modulus: u128,
    ) -> (r: Self)
        ensures
            r.ksks.len() == decomp_level_count,
            forall|j: int|
                0 <= j < decomp_level_count ==> (#[trigger] r.ksks@[j]).mask@ == zero_poly(
                    polynomial_size as nat,
                ) && r.ksks@[j].body@ == zero_poly(polynomial_size as nat) && r.ksks@[j].modulus
                    == modulus,
            r.decomp_base_log == decomp_base_log,
            r.decomp_level_count == decomp_level_count,
            r.polynomial_size == polynomial_size,
            r.subs_k == 0,
            r.modulus == modulus,
    {
        let mut ksks: Vec<RLWECiphertext> = Vec::new();
        let mut j: usize = 0;
        while j < decomp_level_count
            invariant
                j <= decomp_level_count,
                ksks.len() == j,
                forall|i: int|
                    0 <= i < j ==> (#[trigger] ksks@[i]).mask@ == zero_poly(polynomial_size as nat)
                        && ksks@[i].body@ == zero_poly(polynomial_size as nat) && ksks@[i].modulus
                        == modulus,
            decreases decomp_level_count - j,
        {
            ksks.push(RLWECiphertext::allocate(polynomial_size, modulus));
            j += 1;
        }
        RLWEKeyswitchKey {
            ksks,
            decomp_base_log,
            decomp_level_count,
            polynomial_size,
            subs_k: 0,
            modulus,
        }
    }

    /// The base logarithm of the decomposition.
    pub fn decomposition_base_log(&self) -> (r: usize)
        ensures
            r == self.decomp_base_log,
    {
        self.decomp_base_log
    }

    /// The number of levels of the decomposition.
    pub fn decomposition_level_count(&self) -> (r: usize)
        ensures
            r == self.decomp_level_count,
    {
        self.decomp_level_count
    }

    /// The polynomial size `N`.
    pub fn polynomial_size(&self) -> (r: usize)
        ensures
            r == self.polynomial_size,
    {
        self.polynomial_size
    }

    /// The key switching ciphertexts, one per level.
    pub fn get_keyswitch_key(&self) -> (r: &Vec<RLWECiphertext>)
        ensures
            r == &self.ksks,
    {
        &self.ksks
    }

    /// The `k` of the substitution `X -> X^k` this key serves.
    pub fn get_subs_k(&self) -> (r: usize)
        ensures
            r == self.subs_k,
    {
        self.subs_k
    }

    /// Fill the key so that it switches ciphertexts under `before_key` to
    /// ciphertexts under `after_key`: ciphertext `l - 1` encrypts
    /// `before_key * 2^(64 - base_log * l)` under `after_key`.
    pub fn fill_with_keyswitch_key(
        &mut self,
        before_key: &RLWESecretKey,
        after_key: &RLWESecretKey,
        generator: &mut EncryptionGenerator,
    )
        requires
            old(self).wf(),
            after_key.wf(),
            after_key.key.len() == old(self).polynomial_size,
            before_key.key.len() == old(self).polynomial_size,
            is_native(old(self).modulus),
        ensures
            final(self).wf(),
            final(self).same_shape(*old(self)),
            final(self).subs_k == 0,
            ksk_encrypts(
                before_key.key@,
                after_key.key@,
                final(self).ksks@,
                old(self).decomp_base_log,
            ),
    {
        let n = self.polynomial_size;
        let bl = self.decomp_base_log;
        let lc = self.decomp_level_count;
        proof {
            assert(lc <= bl * lc) by (nonlinear_arith)
                requires
                    bl >= 1,
            ;
        }
        let mut level: usize = 1;
        while level <= lc
            invariant
                self.wf(),
                lc < 64,
                self.same_shape(*old(self)),
                n == self.polynomial_size,
                bl == self.decomp_base_log,
                lc == self.decomp_level_count,
                after_key.wf(),
                after_key.key.len() == n,
                before_key.key.len() == n,
                is_native(self.modulus),
                1 <= level <= lc + 1,
                is_native(self.modulus) ==> forall|j: int|
                    0 <= j < level - 1 ==> encrypts_with_binary_noise(
                        after_key.key@,
                        #[trigger] self.ksks@[j],
                        seq_scale(before_key.key@, gadget(bl, j + 1)),
                    ),
            decreases lc + 1 - level,
        {
            proof {
                assert(bl * level <= bl * lc) by (nonlinear_arith)
                    requires
                        level <= lc,
                ;
                assert(bl * level >= 1) by (nonlinear_arith)
                    requires
                        level >= 1,
                        bl >= 1,
                ;
            }
            let shift: usize = 64 - bl * level;
            let g: u64 = 1u64 << (shift as u64);
            proof {
                vstd::arithmetic::power2::lemma_pow2_strictly_increases(shift as nat, 64);
                vstd::arithmetic::power2::lemma2_to64_rest();
                vstd::bits::lemma_u64_shl_is_mul(1, shift as u64);
            }
            let mut buf = before_key.key.clone();
            mul_const(&mut buf, g);
            let mut ct = RLWECiphertext::allocate(n, self.modulus);
            after_key.encrypt_rlwe_binary(&mut ct, &buf, generator);
            let ghost prev = self.ksks@;
            self.ksks.set(level - 1, ct);
            proof {
                assert forall|j: int| 0 <= j < self.ksks.len() implies (#[trigger] self.ksks@[j]).mask.len()
                    == self.polynomial_size && self.ksks@[j].body.len() == self.polynomial_size
                    && self.ksks@[j].modulus == self.modulus by {
                    if j != level - 1 {
                        assert(self.ksks@[j] == prev[j]);
                    }
                }
                if is_native(self.modulus) {
                    assert forall|j: int| 0 <= j < level implies encrypts_with_binary_noise(
                        after_key.key@,
                        #[trigger] self.ksks@[j],
                        seq_scale(before_key.key@, gadget(bl, j + 1)),
                    ) by {
                        if j != level - 1 {
                            assert(self.ksks@[j] == prev[j]);
                        }
                    }
                }
            }
            level += 1;
        }
        self.subs_k = 0;
    }

    /// Fill the key for the substitution `X -> X^k`: `before_key` is
    /// overwritten with `after_key(X^k)`, then the key switches from it to
    /// `after_key`.
    pub fn fill_with_subs_keyswitch_key(
        &mut self,
        before_key: &mut RLWESecretKey,
        after_key: &RLWESecretKey,
        k: usize,
        generator: &mut EncryptionGenerator,
    )
        requires
            old(self).wf(),
            old(self).polynomial_size <= usize::MAX / 2,
            after_key.wf(),
            after_key.key.len() == old(self).polynomial_size,
            old(before_key).key.len() == old(self).polynomial_size,
            is_native(old(self).modulus),
        ensures
            final(self).wf(),
            final(self).same_shape(*old(self)),
            final(self).subs_k == k,
            final(before_key).key@ == eval_x_k_spec(after_key.key@, k as int),
            ksk_encrypts(
                eval_x_k_spec(after_key.key@, k as int),
                after_key.key@,
                final(self).ksks@,
                old(self).decomp_base_log,
            ),
    {
        let before_poly = eval_x_k(after_key.key.as_slice(), k);
        before_key.fill_with_slice(before_poly.as_slice());
        self.fill_with_keyswitch_key(before_key, after_key, generator);
        self.subs_k = k;
    }

    /// Key switching: `after` becomes the ciphertext whose body is `before`'s
    /// body minus, over the levels, the digits of `before`'s rounded mask
    /// times the key's bodies, and whose mask is minus the same sum over the
    /// key's masks.
    pub fn keyswitch_ciphertext(&self, after: &mut RLWECiphertext, before: &RLWECiphertext)
        requires
            self.wf(),
            before.mask.len() == self.polynomial_size,
            before.body.len() == self.polynomial_size,
            old(after).mask.len() == self.polynomial_size,
            old(after).body.len() == self.polynomial_size,
        ensures
            final(after).mask@ == ks_acc(
                self.ksks@,
                self.decomp_base_log,
                self.decomp_level_count,
                rounded_poly(self.decomp_base_log, self.decomp_level_count, before.mask@),
                zero_poly(self.polynomial_size as nat),
                self.decomp_level_count as int,
                false,
            ),
            final(after).body@ == ks_acc(
                self.ksks@,
                self.decomp_base_log,
                self.decomp_level_count,
                rounded_poly(self.decomp_base_log, self.decomp_level_count, before.mask@),
                before.body@,
                self.decomp_level_count as int,
                true,
            ),
            final(after).mask.len() == self.polynomial_size,
            final(after).body.len() == self.polynomial_size,
            final(after).modulus == old(after).modulus,
            forall|sa: Seq<u64>, sb: Seq<u64>|
                #![trigger ks_phase(self.ksks@, self.decomp_base_log, self.decomp_level_count, before.mask@, before.body@, sa, sb)]
                sa.len() == self.polynomial_size && sb.len() == self.polynomial_size ==> phase(
                    sa,
                    final(after).mask@,
                    final(after).body@,
                ) == ks_phase(
                    self.ksks@,
                    self.decomp_base_log,
                    self.decomp_level_count,
                    before.mask@,
                    before.body@,
                    sa,
                    sb,
                ),
            forall|i: int, t: int|
                0 <= i < self.polynomial_size && 0 <= t < self.decomp_level_count ==> #[trigger] digit_in_range(
                    self.decomp_base_log,
                    signed_decomposition(
                        self.decomp_base_log,
                        self.decomp_level_count,
                        rounded_poly(self.decomp_base_log, self.decomp_level_count, before.mask@)[i],
                    )[t],
                ),
    {
        let n = self.polynomial_size;
        let bl = self.decomp_base_log;
        let lc = self.decomp_level_count;
        after.clear();
        after.update_body_with_add(before.body.as_slice());
        proof {
            crate::poly::lemma_seq_add_zero(before.body@);
        }
        let mut rounded: Vec<u64> = Vec::new();
        let mut i: usize = 0;
        while i < n
            invariant
                valid_decomposition(bl, lc),
                n == before.mask.len(),
                i <= n,
                rounded.len() == i,
                forall|j: int|
                    0 <= j < i ==> rounded@[j] == closest_representable_spec(bl, lc, before.mask@[j]),
            decreases n - i,
        {
            rounded.push(closest_representable(bl, lc, before.mask[i]));
            i += 1;
        }
        let ghost d = rounded_poly(bl, lc, before.mask@);
        assert(rounded@ =~= d);
        let decomposed = decompose_all(bl, lc, rounded.as_slice());
        let mut t: usize = 0;
        while t < lc
            invariant
                self.wf(),
                n == self.polynomial_size,
                bl == self.decomp_base_log,
                lc == self.decomp_level_count,
                t <= lc,
                rounded@ == d,
                d == rounded_poly(bl, lc, before.mask@),
                before.mask.len() == n,
                crate::rgsw::decomposed_all(bl, lc, decomposed@, rounded@),
                after.mask.len() == n,
                after.body.len() == n,
                after.modulus == old(after).modulus,
                after.mask@ == ks_acc(self.ksks@, bl, lc, d, zero_poly(n as nat), t as int, false),
                after.body@ == ks_acc(self.ksks@, bl, lc, d, before.body@, t as int, true),
            decreases lc - t,
        {
            let digits = digits_at(&decomposed, t, bl, lc, rounded.as_slice());
            let ksk = &self.ksks[lc - 1 - t];
            assert(digits@.len() == rounded@.len());
            assert(rounded@.len() == n);
            let poly_mask = negacyclic_mul(ksk.mask.as_slice(), digits.as_slice(), n);
            let poly_body = negacyclic_mul(ksk.body.as_slice(), digits.as_slice(), n);
            proof {
                assert(ksk.mask@.take(n as int) =~= ksk.mask@);
                assert(ksk.body@.take(n as int) =~= ksk.body@);
                assert(digits@.take(n as int) =~= digits@);
            }
            after.update_mask_with_sub(poly_mask.as_slice());
            after.update_body_with_sub(poly_body.as_slice());
            t += 1;
        }
        proof {
            assert forall|sa: Seq<u64>, sb: Seq<u64>|
                sa.len() == n && sb.len() == n implies phase(sa, after.mask@, after.body@) == #[trigger] ks_phase(
                self.ksks@,
                bl,
                lc,
                before.mask@,
                before.body@,
                sa,
                sb,
            ) by {
                assert forall|i: int| 0 <= i < before.mask@.len() implies #[trigger] recompose(
                    bl,
                    lc,
                    signed_decomposition(bl, lc, rounded_poly(bl, lc, before.mask@)[i]),
                ) == closest_representable_spec(bl, lc, rounded_poly(bl, lc, before.mask@)[i]) by {
                    assert(decomposed@[i]@.len() == lc);
                }
                lemma_keyswitch_phase(self.ksks@, bl, lc, before.mask@, before.body@, sa, sb);
            }
            assert forall|i: int, t: int| 0 <= i < n && 0 <= t < lc implies #[trigger] digit_in_range(
                bl,
                signed_decomposition(bl, lc, rounded_poly(bl, lc, before.mask@)[i])[t],
            ) by {
                assert(decomposed@[i]@.len() == lc);
            }
        }
    }

    /// The substitution `X -> X^k` with `k` the key's `subs_k`: both
    /// polynomials of `before` are evaluated at `X^k`, then key switched.
    pub fn subs(&self, after: &mut RLWECiphertext, before: &RLWECiphertext)
        requires
            self.wf(),
            self.polynomial_size <= usize::MAX / 2,
            before.mask.len() == self.polynomial_size,
            before.body.len() == self.polynomial_size,
            old(after).mask.len() == self.polynomial_size,
            old(after).body.len() == self.polynomial_size,
        ensures
            final(after).mask@ == subs_mask(*self, before.mask@),
            final(after).body@ == subs_body(*self, before.mask@, before.body@),
            final(after).mask.len() == self.polynomial_size,
            final(after).body.len() == self.polynomial_size,
            final(after).modulus == old(after).modulus,
            forall|sa: Seq<u64>, sb: Seq<u64>|
                #![trigger ks_phase(self.ksks@, self.decomp_base_log, self.decomp_level_count, eval_x_k_spec(before.mask@, self.subs_k as int), eval_x_k_spec(before.body@, self.subs_k as int), sa, sb)]
                sa.len() == self.polynomial_size && sb.len() == self.polynomial_size ==> phase(
                    sa,
                    final(after).mask@,
                    final(after).body@,
                ) == ks_phase(
                    self.ksks@,
                    self.decomp_base_log,
                    self.decomp_level_count,
                    eval_x_k_spec(before.mask@, self.subs_k as int),
                    eval_x_k_spec(before.body@, self.subs_k as int),
                    sa,
                    sb,
                ),
            forall|i: int, t: int|
                0 <= i < self.polynomial_size && 0 <= t < self.decomp_level_count ==> #[trigger] digit_in_range(
                    self.decomp_base_log,
                    signed_decomposition(
                        self.decomp_base_log,
                        self.decomp_level_count,
                        rounded_poly(
                            self.decomp_base_log,
                            self.decomp_level_count,
                            eval_x_k_spec(before.mask@, self.subs_k as int),
                        )[i],
                    )[t],
                ),
    {
        let k = self.subs_k;
        let c = RLWECiphertext {
            mask: eval_x_k(before.mask.as_slice(), k),
            body: eval_x_k(before.body.as_slice(), k),
            modulus: self.modulus,
        };
        self.keyswitch_ciphertext(after, &c);
    }
}

/// The `k` of the substitution at step `i` of the trace of size `n`:
/// `n / 2^(i - 1) + 1`.
pub open spec fn trace_k(n: nat, i: nat) -> int {
    n as int / pow2((i - 1) as nat) as int + 1
}

/// `m` holds, under `k`, a well-formed substitution key for `X -> X^k` of size `n`.
pub open spec fn subs_key_ok(m: Map<usize, RLWEKeyswitchKey>, k: int, n: usize) -> bool {
    &&& m.contains_key(k as usize)
    &&& m[k as usize].wf()
    &&& m[k as usize].polynomial_size == n
    &&& m[k as usize].subs_k == k
}

/// `m` holds the substitution keys of every step of the trace of size `n`.
pub open spec fn trace_keys(m: Map<usize, RLWEKeyswitchKey>, n: usize) -> bool {
    forall|i: nat| 1 <= i <= floor_log2(n as nat) ==> #[trigger] subs_key_ok(m, trace_k(n as nat, i), n)
}

/// `m` holds no key but those of the steps of the trace of size `n`.
pub open spec fn only_trace_keys(m: Map<usize, RLWEKeyswitchKey>, n: usize) -> bool {
    forall|k: usize|
        #[trigger] m.contains_key(k) ==> exists|i: nat| 1 <= i <= floor_log2(n as nat) && k == trace_k(n as nat, i)
}

/// The ciphertext `(mask, body)` after the first `i` steps of the trace:
/// each step adds to the ciphertext its substitution by the step's key.
pub open spec fn trace_acc(
    m: Map<usize, RLWEKeyswitchKey>,
    n: usize,
    mask: Seq<u64>,
    body: Seq<u64>,
    i: nat,
) -> (Seq<u64>, Seq<u64>)
    decreases i,
{
    if i == 0 {
        (mask, body)
    } else {
        let prev = trace_acc(m, n, mask, body, (i - 1) as nat);
        let ksk = m[trace_k(n as nat, i) as usize];
        (seq_add(prev.0, subs_mask(ksk, prev.0)), seq_add(prev.1, subs_body(ksk, prev.0, prev.1)))
    }
}

/// What the substitution of step `i` of the trace of `(mask, body)` gives
/// besides its value: its phase under every key `sa` is the phase of key
/// switching the substituted ciphertext, and the digits of its key
/// switching are balanced.
pub open spec fn trace_step_ok(m: Map<usize, RLWEKeyswitchKey>, n: usize, mask: Seq<u64>, body: Seq<u64>, i: nat) -> bool {
    let prev = trace_acc(m, n, mask, body, (i - 1) as nat);
    let ksk = m[trace_k(n as nat, i) as usize];
    let kk = ksk.subs_k as int;
    &&& forall|sa: Seq<u64>, sb: Seq<u64>|
        #![trigger ks_phase(ksk.ksks@, ksk.decomp_base_log, ksk.decomp_level_count, eval_x_k_spec(prev.0, kk), eval_x_k_spec(prev.1, kk), sa, sb)]
        sa.len() == n && sb.len() == n ==> phase(sa, subs_mask(ksk, prev.0), subs_body(ksk, prev.0, prev.1))
            == ks_phase(
            ksk.ksks@,
            ksk.decomp_base_log,
            ksk.decomp_level_count,
            eval_x_k_spec(prev.0, kk),
            eval_x_k_spec(prev.1, kk),
            sa,
            sb,
        )
    &&& forall|j: int, t: int|
        0 <= j < n && 0 <= t < ksk.decomp_level_count ==> #[trigger] digit_in_range(
            ksk.decomp_base_log,
            signed_decomposition(
                ksk.decomp_base_log,
                ksk.decomp_level_count,
                rounded_poly(ksk.decomp_base_log, ksk.decomp_level_count, eval_x_k_spec(prev.0, kk))[j],
            )[t],
        )
}

impl RLWECiphertext {
    /// The trace `sum_k subs_k(c)` over the substitutions `X -> X^k` with
    /// `k = N / 2^(i - 1) + 1`, `i = 1..log2(N)`, applied one after the other;
    /// it keeps `N` times the constant coefficient of the plaintext and
    /// cancels the others.
    pub fn trace1(&self, ksk_map: &HashMap<usize, RLWEKeyswitchKey>) -> (r: Self)
        requires
            self.wf(),
            self.mask.len() <= usize::MAX / 2,
            trace_keys(ksk_map@, self.mask.len()),
        ensures
            r.mask@ == trace_acc(ksk_map@, self.mask.len(), self.mask@, self.body@, floor_log2(self.mask.len() as nat)).0,
            r.body@ == trace_acc(ksk_map@, self.mask.len(), self.mask@, self.body@, floor_log2(self.mask.len() as nat)).1,
            r.mask.len() == self.mask.len(),
            r.body.len() == self.mask.len(),
            r.modulus == self.modulus,
            forall|i: nat|
                1 <= i <= floor_log2(self.mask.len() as nat) ==> #[trigger] trace_step_ok(
                    ksk_map@,
                    self.mask.len(),
                    self.mask@,
                    self.body@,
                    i,
                ),
    {
        broadcast use vstd::std_specs::hash::group_hash_axioms;

        let n = self.polynomial_size();
        let mut buf = Self::allocate(n, self.modulus);
        let mut out = RLWECiphertext { mask: self.mask.clone(), body: self.body.clone(), modulus: self.modulus };
        let logn = log2(n);
        let mut q: usize = n;
        let mut i: usize = 1;
        proof {
            vstd::arithmetic::power2::lemma2_to64();
            assert(n as int / pow2(0) as int == n);
        }
        while i <= logn
            invariant
                n == self.mask.len(),
                n == self.body.len(),
                n <= usize::MAX / 2,
                logn == floor_log2(n as nat),
                logn < 64,
                1 <= i <= logn + 1,
                q == n as int / pow2((i - 1) as nat) as int,
                trace_keys(ksk_map@, n),
                buf.mask.len() == n,
                buf.body.len() == n,
                out.mask.len() == n,
                out.body.len() == n,
                out.modulus == self.modulus,
                (out.mask@, out.body@) == trace_acc(ksk_map@, n, self.mask@, self.body@, (i - 1) as nat),
                forall|i2: nat| 1 <= i2 < i ==> #[trigger] trace_step_ok(ksk_map@, n, self.mask@, self.body@, i2),
            decreases logn + 1 - i,
        {
            proof {
                vstd::arithmetic::power2::lemma_pow2_pos((i - 1) as nat);
                vstd::arithmetic::div_mod::lemma_div_is_ordered_by_denominator(n as int, 1, pow2((i - 1) as nat) as int);
                assert(subs_key_ok(ksk_map@, trace_k(n as nat, i as nat), n));
            }
            let k = q + 1;
            let ksk = ksk_map.get(&k).unwrap();
            let ghost prev = (out.mask@, out.body@);
            ksk.subs(&mut buf, &out);
            proof {
                assert(k == trace_k(n as nat, i as nat));
                assert(*ksk == ksk_map@[k]);
                assert(trace_step_ok(ksk_map@, n, self.mask@, self.body@, i as nat));
            }
            out.update_with_add(&buf);
            proof {
                vstd::arithmetic::power2::lemma_pow2_unfold(i as nat);
                vstd::arithmetic::div_mod::lemma_div_denominator(n as int, pow2((i - 1) as nat) as int, 2);
                assert((out.mask@, out.body@) == trace_acc(ksk_map@, n, self.mask@, self.body@, i as nat));
            }
            q = q / 2;
            i += 1;
        }
        out
    }
}

/// The key that `m` holds under `k` switches from `key(X^k)` to `key`,
/// with the decomposition and modulus given.
pub open spec fn subs_key_encrypts(
    m: Map<usize, RLWEKeyswitchKey>,
    key: Seq<u64>,
    base_log: usize,
    level_count: usize,
    modulus: u128,
    k: int,
) -> bool {
    let ksk = m[k as usize];
    &&& ksk.decomp_base_log == base_log
    &&& ksk.decomp_level_count == level_count
    &&& ksk.modulus == modulus
    &&& (is_native(modulus) ==> ksk_encrypts(eval_x_k_spec(key, k), key, ksk.ksks@, base_log))
}

/// Every substitution key of the trace of size `n` in `m` switches from
/// `key(X^k)` to `key`, with the decomposition and modulus given.
pub open spec fn trace_keys_encrypt(
    m: Map<usize, RLWEKeyswitchKey>,
    n: usize,
    key: Seq<u64>,
    base_log: usize,
    level_count: usize,
    modulus: u128,
) -> bool {
    forall|i: nat|
        1 <= i <= floor_log2(n as nat) ==> #[trigger] subs_key_encrypts(
            m,
            key,
            base_log,
            level_count,
            modulus,
            trace_k(n as nat, i),
        )
}

/// The substitution keys of every step of the trace, switching back to
/// `after_key`, with the context's key switching decomposition.
pub fn gen_all_subs_ksk(after_key: &RLWESecretKey, ctx: &mut Context) -> (r: HashMap<usize, RLWEKeyswitchKey>)
    requires
        is_native(old(ctx).modulus),
        old(ctx).wf(),
        after_key.wf(),
        after_key.key.len() == old(ctx).poly_size,
        old(ctx).poly_size <= usize::MAX / 2,
    ensures
        trace_keys(r@, old(ctx).poly_size),
        only_trace_keys(r@, old(ctx).poly_size),
        trace_keys_encrypt(
            r@,
            old(ctx).poly_size,
            after_key.key@,
            old(ctx).ks_base_log,
            old(ctx).ks_level_count,
            old(ctx).modulus,
        ),
        final(ctx).same_params(*old(ctx)),
{
    broadcast use vstd::std_specs::hash::group_hash_axioms;

    let mut hm: HashMap<usize, RLWEKeyswitchKey> = HashMap::new();
    let n = ctx.poly_size;
    let mut dummy_sk = RLWESecretKey::zero(n);
    let logn = log2(n);
    let mut q: usize = n;
    let mut i: usize = 1;
    proof {
        vstd::arithmetic::power2::lemma2_to64();
        assert(n as int / pow2(0) as int == n);
    }
    while i <= logn
        invariant
            ctx.wf(),
            is_native(ctx.modulus),
            ctx.same_params(*old(ctx)),
            n == ctx.poly_size,
            n <= usize::MAX / 2,
            after_key.wf(),
            after_key.key.len() == n,
            dummy_sk.key.len() == n,
            logn == floor_log2(n as nat),
            logn < 64,
            1 <= i <= logn + 1,
            q == n as int / pow2((i - 1) as nat) as int,
            forall|i2: nat| 1 <= i2 < i ==> #[trigger] subs_key_ok(hm@, trace_k(n as nat, i2), n),
            forall|k2: usize|
                #[trigger] hm@.contains_key(k2) ==> exists|i2: nat| 1 <= i2 < i && k2 == trace_k(n as nat, i2),
            forall|i2: nat|
                1 <= i2 < i ==> #[trigger] subs_key_encrypts(
                    hm@,
                    after_key.key@,
                    ctx.ks_base_log,
                    ctx.ks_level_count,
                    ctx.modulus,
                    trace_k(n as nat, i2),
                ),
        decreases logn + 1 - i,
    {
        proof {
            vstd::arithmetic::power2::lemma_pow2_pos((i - 1) as nat);
            vstd::arithmetic::div_mod::lemma_div_is_ordered_by_denominator(n as int, 1, pow2((i - 1) as nat) as int);
        }
        let k = q + 1;
        let mut ksk = RLWEKeyswitchKey::allocate(ctx.ks_base_log, ctx.ks_level_count, n, ctx.modulus);
        ksk.fill_with_subs_keyswitch_key(&mut dummy_sk, after_key, k, &mut ctx.encryption_generator);
        let ghost prev = hm@;
        hm.insert(k, ksk);
        proof {
            assert(k == trace_k(n as nat, i as nat));
            assert(hm@[k] == ksk);
            assert(subs_key_ok(hm@, k as int, n));
            assert forall|i2: nat|
                #![trigger subs_key_ok(hm@, trace_k(n as nat, i2), n)]
                #![trigger subs_key_encrypts(hm@, after_key.key@, ctx.ks_base_log, ctx.ks_level_count, ctx.modulus, trace_k(n as nat, i2))]
                1 <= i2 < i + 1 implies subs_key_ok(hm@, trace_k(n as nat, i2), n)
                && subs_key_encrypts(
                hm@,
                after_key.key@,
                ctx.ks_base_log,
                ctx.ks_level_count,
                ctx.modulus,
                trace_k(n as nat, i2),
            ) by {
                let tk = trace_k(n as nat, i2);
                vstd::arithmetic::power2::lemma_pow2_pos((i2 - 1) as nat);
                vstd::arithmetic::div_mod::lemma_div_is_ordered_by_denominator(n as int, 1, pow2((i2 - 1) as nat) as int);
                vstd::arithmetic::div_mod::lemma_div_pos_is_pos(n as int, pow2((i2 - 1) as nat) as int);
                if tk != k {
                    assert(i2 < i);
                    assert(subs_key_ok(prev, tk, n));
                    assert(subs_key_encrypts(prev, after_key.key@, ctx.ks_base_log, ctx.ks_level_count, ctx.modulus, tk));
                    assert(hm@[tk as usize] == prev[tk as usize]);
                }
            }
            assert forall|k2: usize| #[trigger] hm@.contains_key(k2) implies exists|i2: nat|
                1 <= i2 < i + 1 && k2 == trace_k(n as nat, i2) by {
                if k2 == k {
                    assert(k2 == trace_k(n as nat, i as nat));
                } else {
                    assert(prev.contains_key(k2));
                    let w = choose|i2: nat| 1 <= i2 < i && k2 == trace_k(n as nat, i2);
                    assert(1 <= w < i + 1 && k2 == trace_k(n as nat, w));
                }
            }
            vstd::arithmetic::power2::lemma_pow2_unfold(i as nat);
            vstd::arithmetic::div_mod::lemma_div_denominator(n as int, pow2((i - 1) as nat) as int, 2);
        }
        q = q / 2;
        i += 1;
    }
    proof {
        assert forall|k2: usize| #[trigger] hm@.contains_key(k2) implies exists|i2: nat|
            1 <= i2 <= floor_log2(n as nat) && k2 == trace_k(n as nat, i2) by {
            let w = choose|i2: nat| 1 <= i2 < i && k2 == trace_k(n as nat, i2);
            assert(1 <= w <= floor_log2(n as nat) && k2 == trace_k(n as nat, w));
        }
    }
    hm
}

/// Row `r` of `out` is the external product of `neg_s` with `(mask, body)`
/// when `r` is even, and `(mask, body)` itself when `r` is odd.
pub open spec fn rgsw_row_from(out: RGSWCiphertext, neg_s: RGSWCiphertext, mask: Seq<u64>, body: Seq<u64>, r: int) -> bool {
    if r % 2 == 0 {
        &&& out.row_mask_spec(r) == ext_prod_acc(
            neg_s.data@,
            neg_s.poly_size as int,
            neg_s.base_log,
            neg_s.level_count,
            mask,
            body,
            neg_s.level_count as int,
            false,
        )
        &&& out.row_body_spec(r) == ext_prod_acc(
            neg_s.data@,
            neg_s.poly_size as int,
            neg_s.base_log,
            neg_s.level_count,
            mask,
            body,
            neg_s.level_count as int,
            true,
        )
    } else {
        out.row_mask_spec(r) == mask && out.row_body_spec(r) == body
    }
}

/// Row `r` of `out` is made from `cs[r / 2]` as `rgsw_row_from` says.
pub open spec fn decomposed_row_ok(out: RGSWCiphertext, neg_s: RGSWCiphertext, cs: Seq<RLWECiphertext>, r: int) -> bool {
    rgsw_row_from(out, neg_s, cs[r / 2].mask@, cs[r / 2].body@, r)
}

/// Row `r` of `out` is made from the trace of `cs[r / 2]` as `rgsw_row_from` says.
pub open spec fn expanded_row_ok(
    out: RGSWCiphertext,
    neg_s: RGSWCiphertext,
    m: Map<usize, RLWEKeyswitchKey>,
    n: usize,
    cs: Seq<RLWECiphertext>,
    r: int,
) -> bool {
    let tr = trace_acc(m, n, cs[r / 2].mask@, cs[r / 2].body@, floor_log2(n as nat));
    rgsw_row_from(out, neg_s, tr.0, tr.1, r)
}

/// What the external product of `neg_s` with `(mask, body)` gives besides
/// its value: its phase under every key is `ext_prod_phase` for every
/// plaintext, and the digits of `(mask, body)` are balanced.
pub open spec fn neg_s_product_facts(neg_s: RGSWCiphertext, mask: Seq<u64>, body: Seq<u64>) -> bool {
    let n = neg_s.poly_size as int;
    let bl = neg_s.base_log;
    let lc = neg_s.level_count;
    &&& forall|key: Seq<u64>, p: Seq<u64>|
        #![trigger ext_prod_phase(neg_s.data@, n, bl, lc, mask, body, key, p)]
        key.len() == n && p.len() == n ==> phase(
            key,
            ext_prod_acc(neg_s.data@, n, bl, lc, mask, body, lc as int, false),
            ext_prod_acc(neg_s.data@, n, bl, lc, mask, body, lc as int, true),
        ) == ext_prod_phase(neg_s.data@, n, bl, lc, mask, body, key, p)
    &&& forall|i: int, t: int|
        0 <= i < n && 0 <= t < lc ==> #[trigger] digit_in_range(bl, signed_decomposition(bl, lc, mask[i])[t])
            && digit_in_range(bl, signed_decomposition(bl, lc, body[i])[t])
}

/// The RGSW ciphertext whose even rows `2 k` are the external products of
/// `neg_s` with `cs[k]` and whose odd rows `2 k + 1` are `cs[k]`, with the
/// context's gadget.
pub fn decomposed_rlwe_to_rgsw(cs: &[RLWECiphertext], neg_s: &RGSWCiphertext, ctx: &Context) -> (out: RGSWCiphertext)
    requires
        ctx.wf(),
        neg_s.wf(),
        neg_s.poly_size == ctx.poly_size,
        cs.len() >= ctx.level_count,
        4 * ctx.level_count * ctx.poly_size <= usize::MAX,
        forall|k: int| 0 <= k < cs.len() ==> (#[trigger] cs@[k]).mask.len() == ctx.poly_size && cs@[k].body.len() == ctx.poly_size,
    ensures
        out.wf(),
        out.poly_size == ctx.poly_size,
        out.base_log == ctx.base_log,
        out.level_count == ctx.level_count,
        out.modulus == ctx.modulus,
        forall|r: int| 0 <= r < 2 * ctx.level_count ==> #[trigger] decomposed_row_ok(out, *neg_s, cs@, r),
        forall|k: int| 0 <= k < ctx.level_count ==> #[trigger] neg_s_product_facts(*neg_s, cs@[k].mask@, cs@[k].body@),
{
    let n = ctx.poly_size;
    proof {
        assert(4 * ctx.level_count <= 4 * ctx.level_count * ctx.poly_size) by (nonlinear_arith)
            requires
                ctx.poly_size >= 1,
        ;
    }
    let mut out = RGSWCiphertext::allocate(n, ctx.base_log, ctx.level_count, ctx.modulus);
    let rows = 2 * ctx.level_count;
    let mut i: usize = 0;
    while i < rows
        invariant
            ctx.wf(),
            neg_s.wf(),
            neg_s.poly_size == n,
            n == ctx.poly_size,
            rows == 2 * ctx.level_count,
            cs.len() >= ctx.level_count,
            forall|k: int| 0 <= k < cs.len() ==> (#[trigger] cs@[k]).mask.len() == n && cs@[k].body.len() == n,
            out.wf(),
            out.poly_size == n,
            out.base_log == ctx.base_log,
            out.level_count == ctx.level_count,
            out.modulus == ctx.modulus,
            i <= rows,
            forall|r: int| 0 <= r < i ==> #[trigger] decomposed_row_ok(out, *neg_s, cs@, r),
            forall|k: int| 0 <= k && 2 * k < i ==> #[trigger] neg_s_product_facts(*neg_s, cs@[k].mask@, cs@[k].body@),
        decreases rows - i,
    {
        let k = i / 2;
        let ghost before = out;
        if i % 2 == 0 {
            let mut c = RLWECiphertext::allocate(n, ctx.modulus);
            neg_s.external_product(&mut c, &cs[k]);
            proof {
                let bl = neg_s.base_log;
                let lc = neg_s.level_count;
                assert forall|ii: int, t: int| 0 <= ii < n && 0 <= t < lc implies #[trigger] digit_in_range(
                    bl,
                    signed_decomposition(bl, lc, cs@[k as int].mask@[ii])[t],
                ) && digit_in_range(bl, signed_decomposition(bl, lc, cs@[k as int].body@[ii])[t]) by {
                    assert(digit_in_range(bl, signed_decomposition(bl, lc, cs@[k as int].mask@[ii])[t]));
                }
                assert(neg_s_product_facts(*neg_s, cs@[k as int].mask@, cs@[k as int].body@));
            }
            out.set_nth_row(i, &c);
        } else {
            out.set_nth_row(i, &cs[k]);
        }
        proof {
            assert forall|r: int| 0 <= r < i + 1 implies #[trigger] decomposed_row_ok(out, *neg_s, cs@, r) by {
                if r < i {
                    assert(decomposed_row_ok(before, *neg_s, cs@, r));
                }
            }
        }
        i += 1;
    }
    out
}

/// Expand RLWE ciphertexts into an RGSW ciphertext: the trace of each is
/// taken, then the rows are made as `decomposed_rlwe_to_rgsw` makes them.
pub fn expand(
    cs: &[RLWECiphertext],
    ksk_map: &HashMap<usize, RLWEKeyswitchKey>,
    neg_s: &RGSWCiphertext,
    ctx: &Context,
) -> (out: RGSWCiphertext)
    requires
        ctx.wf(),
        ctx.poly_size <= usize::MAX / 2,
        neg_s.wf(),
        neg_s.poly_size == ctx.poly_size,
        cs.len() >= ctx.level_count,
        4 * ctx.level_count * ctx.poly_size <= usize::MAX,
        forall|k: int| 0 <= k < cs.len() ==> (#[trigger] cs@[k]).mask.len() == ctx.poly_size && cs@[k].body.len() == ctx.poly_size,
        trace_keys(ksk_map@, ctx.poly_size),
    ensures
        out.wf(),
        out.poly_size == ctx.poly_size,
        out.base_log == ctx.base_log,
        out.level_count == ctx.level_count,
        out.modulus == ctx.modulus,
        forall|r: int|
            0 <= r < 2 * ctx.level_count ==> #[trigger] expanded_row_ok(out, *neg_s, ksk_map@, ctx.poly_size, cs@, r),
        forall|k: int|
            0 <= k < ctx.level_count ==> #[trigger] neg_s_product_facts(
                *neg_s,
                trace_acc(ksk_map@, ctx.poly_size, cs@[k].mask@, cs@[k].body@, floor_log2(ctx.poly_size as nat)).0,
                trace_acc(ksk_map@, ctx.poly_size, cs@[k].mask@, cs@[k].body@, floor_log2(ctx.poly_size as nat)).1,
            ),
        forall|k: int, i: nat|
            0 <= k < cs.len() && 1 <= i <= floor_log2(ctx.poly_size as nat) ==> #[trigger] trace_step_ok(
                ksk_map@,
                ctx.poly_size,
                cs@[k].mask@,
                cs@[k].body@,
                i,
            ),
{
    let n = ctx.poly_size;
    let mut cs_prime: Vec<RLWECiphertext> = Vec::new();
    let mut j: usize = 0;
    while j < cs.len()
        invariant
            n == ctx.poly_size,
            n <= usize::MAX / 2,
            n > 0,
            forall|k: int| 0 <= k < cs.len() ==> (#[trigger] cs@[k]).mask.len() == n && cs@[k].body.len() == n,
            trace_keys(ksk_map@, n),
            j <= cs.len(),
            cs_prime.len() == j,
            forall|k: int|
                0 <= k < j ==> {
                    let tr = trace_acc(ksk_map@, n, cs@[k].mask@, cs@[k].body@, floor_log2(n as nat));
                    &&& (#[trigger] cs_prime@[k]).mask@ == tr.0
                    &&& cs_prime@[k].body@ == tr.1
                    &&& cs_prime@[k].mask.len() == n
                    &&& cs_prime@[k].body.len() == n
                },
            forall|k: int, i: nat|
                0 <= k < j && 1 <= i <= floor_log2(n as nat) ==> #[trigger] trace_step_ok(
                    ksk_map@,
                    n,
                    cs@[k].mask@,
                    cs@[k].body@,
                    i,
                ),
        decreases cs.len() - j,
    {
        let c = cs[j].trace1(ksk_map);
        cs_prime.push(c);
        j += 1;
    }
    let out = decomposed_rlwe_to_rgsw(cs_prime.as_slice(), neg_s, ctx);
    proof {
        assert forall|k: int| 0 <= k < ctx.level_count implies #[trigger] neg_s_product_facts(
            *neg_s,
            trace_acc(ksk_map@, n, cs@[k].mask@, cs@[k].body@, floor_log2(n as nat)).0,
            trace_acc(ksk_map@, n, cs@[k].mask@, cs@[k].body@, floor_log2(n as nat)).1,
        ) by {
            assert(neg_s_product_facts(*neg_s, cs_prime@[k].mask@, cs_prime@[k].body@));
        }
    }
    proof {
        assert forall|r: int| 0 <= r < 2 * ctx.level_count implies #[trigger] expanded_row_ok(out, *neg_s, ksk_map@, n, cs@, r) by {
            assert(decomposed_row_ok(out, *neg_s, cs_prime@, r));
            assert(0 <= r / 2 < cs_prime.len());
            assert(cs_prime@[r / 2].mask@ == trace_acc(ksk_map@, n, cs@[r / 2].mask@, cs@[r / 2].body@, floor_log2(n as nat)).0);
        }
    }
    out
}

/// Rounding to the closest representable value is idempotent.
pub proof fn lemma_closest_idempotent(base_log: usize, level_count: usize, x: u64)
    requires
        valid_decomposition(base_log, level_count),
    ensures
        closest_representable_spec(base_log, level_count, closest_representable_spec(base_log, level_count, x))
            == closest_representable_spec(base_log, level_count, x),
{
    let e = (64 - base_log * level_count) as nat;
    let f = (base_log * level_count) as nat;
    let d = pow2(e) as int;
    let kk = pow2(f) as int;
    let w = crate::poly::word_modulus();
    vstd::arithmetic::power2::lemma_pow2_adds(e, f);
    vstd::arithmetic::power2::lemma2_to64();
    vstd::arithmetic::power2::lemma2_to64_rest();
    vstd::arithmetic::power2::lemma_pow2_pos(e);
    vstd::arithmetic::power2::lemma_pow2_pos(f);
    assert(d * kk == w);
    assert(d >= 2) by {
        vstd::arithmetic::power2::lemma_pow2_strictly_increases(1, e);
    }
    let q = (x + d / 2) / d;
    assert(q >= 0) by {
        vstd::arithmetic::div_mod::lemma_div_pos_is_pos(x + d / 2, d);
    }
    let j = q % kk;
    assert(0 <= j < kk) by {
        vstd::arithmetic::div_mod::lemma_mod_bound(q, kk);
    }
    assert(q * d == (q / kk) * w + j * d) by {
        vstd::arithmetic::div_mod::lemma_fundamental_div_mod(q, kk);
        assert(q * d == ((q / kk) * kk + j) * d);
        vstd::arithmetic::mul::lemma_mul_is_distributive_add_other_way(d, (q / kk) * kk, j);
        vstd::arithmetic::mul::lemma_mul_is_associative(q / kk, kk, d);
        vstd::arithmetic::mul::lemma_mul_is_commutative(kk, d);
    }
    assert(0 <= j * d < w) by {
        vstd::arithmetic::mul::lemma_mul_strict_inequality(j, kk, d);
        vstd::arithmetic::mul::lemma_mul_is_commutative(kk, d);
        vstd::arithmetic::mul::lemma_mul_nonnegative(j, d);
    }
    vstd::arithmetic::div_mod::lemma_fundamental_div_mod_converse(q * d, w, q / kk, j * d);
    let y = closest_representable_spec(base_log, level_count, x);
    assert(y as int == j * d);
    vstd::arithmetic::div_mod::lemma_fundamental_div_mod_converse(j * d + d / 2, d, j, d / 2);
    vstd::arithmetic::div_mod::lemma_small_mod((j * d) as nat, w as nat);
}

/// The error of key switching ciphertext `j`: its phase under `sa` minus
/// the `sb * 2^(64 - base_log * (j + 1))` it encrypts.
pub open spec fn ksk_error(ksks: Seq<RLWECiphertext>, base_log: usize, j: int, sa: Seq<u64>, sb: Seq<u64>) -> Seq<u64> {
    seq_sub(phase(sa, ksks[j].mask@, ksks[j].body@), seq_scale(sb, gadget(base_log, j + 1)))
}

/// Coefficient `k` of `sum_{t < m} D_t * E_t`, the digits `D_t` of `d` for the
/// term `t` times the error of the ciphertext they multiply.
pub open spec fn ks_noise_acc(
    ksks: Seq<RLWECiphertext>,
    base_log: usize,
    level_count: usize,
    d: Seq<u64>,
    sa: Seq<u64>,
    sb: Seq<u64>,
    m: int,
    k: int,
) -> int
    decreases m,
{
    if m <= 0 {
        0
    } else {
        ks_noise_acc(ksks, base_log, level_count, d, sa, sb, m - 1, k) + negacyclic(
            digit_poly(base_log, level_count, d, m - 1),
            ksk_error(ksks, base_log, level_count - m, sa, sb),
        )[k]
    }
}

/// The phase under `sa` of the key switching of `(mask, body)` by a key from
/// `sb` to `sa`: `body - R * sb - sum_t D_t * E_t` with `R` the rounded mask,
/// `D_t` its digits and `E_t` the errors of the key.
pub open spec fn ks_phase(
    ksks: Seq<RLWECiphertext>,
    base_log: usize,
    level_count: usize,
    mask: Seq<u64>,
    body: Seq<u64>,
    sa: Seq<u64>,
    sb: Seq<u64>,
) -> Seq<u64> {
    let r = rounded_poly(base_log, level_count, mask);
    Seq::new(
        body.len(),
        |k: int|
            wrap(
                body[k] - negacyclic(r, sb)[k] - ks_noise_acc(
                    ksks,
                    base_log,
                    level_count,
                    r,
                    sa,
                    sb,
                    level_count as int,
                    k,
                ),
            ),
    )
}

/// Coefficient `k` of `sum_{t < m} D_t * phase(sa, K_t)`.
spec fn ks_phase_acc(
    ksks: Seq<RLWECiphertext>,
    base_log: usize,
    level_count: usize,
    d: Seq<u64>,
    sa: Seq<u64>,
    m: int,
    k: int,
) -> int
    decreases m,
{
    if m <= 0 {
        0
    } else {
        ks_phase_acc(ksks, base_log, level_count, d, sa, m - 1, k) + negacyclic(
            digit_poly(base_log, level_count, d, m - 1),
            phase(sa, ksks[level_count - m].mask@, ksks[level_count - m].body@),
        )[k]
    }
}


pub proof fn lemma_ks_acc_len(
    ksks: Seq<RLWECiphertext>,
    base_log: usize,
    level_count: usize,
    d: Seq<u64>,
    start: Seq<u64>,
    m: int,
    body: bool,
)
    ensures
        ks_acc(ksks, base_log, level_count, d, start, m, body).len() == start.len(),
    decreases m,
{
    if m > 0 {
        lemma_ks_acc_len(ksks, base_log, level_count, d, start, m - 1, body);
    }
}



/// The phase of the partial key switching after `m` terms is the body minus
/// the digits times the phases of the key's ciphertexts.
proof fn lemma_ks_phase_steps(
    ksks: Seq<RLWECiphertext>,
    base_log: usize,
    level_count: usize,
    d: Seq<u64>,
    body: Seq<u64>,
    sa: Seq<u64>,
    m: int,
)
    requires
        0 <= m <= level_count,
        ksks.len() == level_count,
        d.len() == sa.len(),
        body.len() == sa.len(),
        forall|j: int|
            0 <= j < ksks.len() ==> (#[trigger] ksks[j]).mask.len() == sa.len() && ksks[j].body.len() == sa.len(),
    ensures
        forall|k: int|
            0 <= k < sa.len() ==> (#[trigger] phase(
                sa,
                ks_acc(ksks, base_log, level_count, d, zero_poly(sa.len()), m, false),
                ks_acc(ksks, base_log, level_count, d, body, m, true),
            )[k] as int) % word_modulus() == (body[k] - ks_phase_acc(
                ksks,
                base_log,
                level_count,
                d,
                sa,
                m,
                k,
            )) % word_modulus(),
    decreases m,
{
    let n = sa.len();
    let w = word_modulus();
    let mm = ks_acc(ksks, base_log, level_count, d, zero_poly(n), m, false);
    let bb = ks_acc(ksks, base_log, level_count, d, body, m, true);
    lemma_ks_acc_len(ksks, base_log, level_count, d, zero_poly(n), m, false);
    lemma_ks_acc_len(ksks, base_log, level_count, d, body, m, true);
    if m == 0 {
        // the mask is zero, so is its product with the key
        lemma_negacyclic_lin(zero_poly(n), zero_poly(n), zero_poly(n), sa, 0, 0);
        assert forall|k: int| 0 <= k < n implies #[trigger] (phase(sa, mm, bb)[k] as int) % w == (body[k]
            - ks_phase_acc(ksks, base_log, level_count, d, sa, m, k)) % w by {
            vstd::arithmetic::div_mod::lemma_sub_mod_noop(body[k] as int, negacyclic(mm, sa)[k] as int, w);
            lemma_mod_sub(body[k] as int, negacyclic(mm, sa)[k] as int);
            vstd::arithmetic::div_mod::lemma_small_mod(body[k] as nat, w as nat);
        }
    } else {
        lemma_ks_phase_steps(ksks, base_log, level_count, d, body, sa, m - 1);
        let mp = ks_acc(ksks, base_log, level_count, d, zero_poly(n), m - 1, false);
        let bp = ks_acc(ksks, base_log, level_count, d, body, m - 1, true);
        lemma_ks_acc_len(ksks, base_log, level_count, d, zero_poly(n), m - 1, false);
        lemma_ks_acc_len(ksks, base_log, level_count, d, body, m - 1, true);
        let kt = ksks[level_count - m];
        let dt = digit_poly(base_log, level_count, d, m - 1);
        let x = negacyclic(kt.mask@, dt);
        let y = negacyclic(kt.body@, dt);
        let km = negacyclic(kt.mask@, sa);
        let pk = phase(sa, kt.mask@, kt.body@);
        // mm = mp - x, bb = bp - y
        assert(mm == seq_sub(mp, x));
        assert(bb == seq_sub(bp, y));
        assert forall|i: int| 0 <= i < n implies #[trigger] (mm[i] as int) % w == (1 * mp[i] + (-1) * x[i]) % w by {
            lemma_mod_sub(mp[i] as int, x[i] as int);
        }
        lemma_negacyclic_lin(mm, mp, x, sa, 1, -1);
        // x * sa = dt * (kt.mask * sa)
        lemma_negacyclic_comm(kt.mask@, dt);
        lemma_negacyclic_assoc(dt, kt.mask@, sa);
        // y = dt * kt.body, and dt * pk = dt * kt.body - dt * km
        lemma_negacyclic_comm(kt.body@, dt);
        assert forall|i: int| 0 <= i < n implies #[trigger] (pk[i] as int) % w == (1 * kt.body@[i] + (-1) * km[i]) % w by {
            lemma_mod_sub(kt.body@[i] as int, km[i] as int);
        }
        lemma_lin_right(dt, pk, kt.body@, km, 1, -1);
        assert forall|k: int| 0 <= k < n implies #[trigger] (phase(sa, mm, bb)[k] as int) % w == (body[k]
            - ks_phase_acc(ksks, base_log, level_count, d, sa, m, k)) % w by {
            lemma_mod_sub(bb[k] as int, negacyclic(mm, sa)[k] as int);
            lemma_mod_sub(bp[k] as int, y[k] as int);
            lemma_mod_sub(bp[k] as int, negacyclic(mp, sa)[k] as int);
            lemma_phase_step_arith(
                bp[k] as int,
                y[k] as int,
                negacyclic(mp, sa)[k] as int,
                negacyclic(mm, sa)[k] as int,
                negacyclic(x, sa)[k] as int,
                negacyclic(dt, pk)[k] as int,
                negacyclic(dt, kt.body@)[k] as int,
                negacyclic(dt, km)[k] as int,
                body[k] as int,
                ks_phase_acc(ksks, base_log, level_count, d, sa, m - 1, k),
                phase(sa, mp, bp)[k] as int,
                bb[k] as int,
                phase(sa, mm, bb)[k] as int,
            );
        }
    }
}


proof fn lemma_phase_step_arith(
    bp: int,
    y: int,
    a0: int,
    a1: int,
    xs: int,
    dpk: int,
    dbody: int,
    dkm: int,
    body: int,
    t: int,
    pm: int,
    bbk: int,
    ph: int,
)
    requires
        bbk % word_modulus() == (bp - y) % word_modulus(),
        a1 % word_modulus() == (1 * a0 + (-1) * xs) % word_modulus(),
        xs == dkm,
        y == dbody,
        dpk % word_modulus() == (1 * dbody + (-1) * dkm) % word_modulus(),
        pm % word_modulus() == (bp - a0) % word_modulus(),
        pm % word_modulus() == (body - t) % word_modulus(),
        ph % word_modulus() == (bbk - a1) % word_modulus(),
    ensures
        ph % word_modulus() == (body - (t + dpk)) % word_modulus(),
{
    // ph = bbk - a1 = (bp - y) - (a0 - xs) = (bp - a0) - (y - xs) = pm - dpk = body - t - dpk
    lemma_cong_sub(bbk, bp - y, a1, a0 - xs);
    assert((bp - y) - (a0 - xs) == (bp - a0) - (dbody - dkm));
    lemma_cong_sub(bp - a0, pm, dbody - dkm, dpk);
    lemma_cong_sub(pm, body - t, dpk, dpk);
    assert((body - t) - dpk == body - (t + dpk));
}





/// `sum_{t < m} D_t * phase(sa, K_t)` is, modulo `2^64`, the value of the
/// first `m` digits of `d` times `sb`, plus `sum_{t < m} D_t * E_t`.
proof fn lemma_ks_phase_recomp(
    ksks: Seq<RLWECiphertext>,
    base_log: usize,
    level_count: usize,
    d: Seq<u64>,
    sa: Seq<u64>,
    sb: Seq<u64>,
    m: int,
)
    requires
        valid_decomposition(base_log, level_count),
        0 <= m <= level_count,
        ksks.len() == level_count,
        d.len() == sa.len(),
        sb.len() == sa.len(),
        forall|j: int|
            0 <= j < ksks.len() ==> (#[trigger] ksks[j]).mask.len() == sa.len() && ksks[j].body.len() == sa.len(),
    ensures
        forall|k: int|
            0 <= k < sa.len() ==> #[trigger] ks_phase_acc(ksks, base_log, level_count, d, sa, m, k) % word_modulus()
                == (negacyclic(recomp_seq(base_log, level_count, d, m), sb)[k] + ks_noise_acc(
                ksks,
                base_log,
                level_count,
                d,
                sa,
                sb,
                m,
                k,
            )) % word_modulus(),
    decreases m,
{
    let n = sa.len();
    let w = word_modulus();
    if m == 0 {
        let r0 = recomp_seq(base_log, level_count, d, 0);
        assert(r0 =~= zero_poly(n));
        lemma_negacyclic_lin(r0, r0, r0, sb, 0, 0);
    } else {
        lemma_ks_phase_recomp(ksks, base_log, level_count, d, sa, sb, m - 1);
        let t = m - 1;
        let j = level_count - m;
        let kt = ksks[j];
        let dt = digit_poly(base_log, level_count, d, t);
        lemma_gadget_exact(base_log, level_count, t);
        assert(j + 1 == level_count - t);
        let g = gadget(base_log, j + 1);
        let pk = phase(sa, kt.mask@, kt.body@);
        let e = ksk_error(ksks, base_log, j, sa, sb);
        let sc = seq_scale(sb, g);
        // the phase of K_j is its error plus the gadget multiple of sb
        assert forall|i: int| 0 <= i < n implies #[trigger] (pk[i] as int) % w == (1 * e[i] + 1 * sc[i]) % w by {
            lemma_mod_sub(pk[i] as int, sc[i] as int);
            vstd::arithmetic::div_mod::lemma_mod_twice(sc[i] as int, w);
            lemma_cong_add(e[i] as int, pk[i] - sc[i], sc[i] as int, sc[i] as int);
        }
        lemma_lin_right(dt, pk, e, sc, 1, 1);
        assert forall|i: int| 0 <= i < n implies #[trigger] (sc[i] as int) % w == (g * sb[i] + 0 * sb[i]) % w by {
            vstd::arithmetic::div_mod::lemma_mod_twice(sb[i] * g, w);
            vstd::arithmetic::mul::lemma_mul_is_commutative(sb[i] as int, g as int);
        }
        lemma_lin_right(dt, sc, sb, sb, g as int, 0);
        // one more digit of the recomposition
        let rm = recomp_seq(base_log, level_count, d, m);
        let rp = recomp_seq(base_log, level_count, d, m - 1);
        lemma_recomp_step(base_log, level_count, d, m);
        lemma_negacyclic_lin(rm, rp, dt, sb, 1, g as int);
        assert forall|k: int| 0 <= k < n implies #[trigger] ks_phase_acc(
            ksks,
            base_log,
            level_count,
            d,
            sa,
            m,
            k,
        ) % w == (negacyclic(rm, sb)[k] + ks_noise_acc(ksks, base_log, level_count, d, sa, sb, m, k)) % w by {
            let a = ks_phase_acc(ksks, base_log, level_count, d, sa, m - 1, k);
            let nn = ks_noise_acc(ksks, base_log, level_count, d, sa, sb, m - 1, k);
            let p = negacyclic(dt, pk)[k] as int;
            let r1 = negacyclic(rp, sb)[k] as int;
            let ee = negacyclic(dt, e)[k] as int;
            let s = negacyclic(dt, sc)[k] as int;
            let b = negacyclic(dt, sb)[k] as int;
            let rr = negacyclic(rm, sb)[k] as int;
            lemma_cong_add(a, r1 + nn, p, ee + s);
            lemma_cong_add(r1 + nn + ee, r1 + nn + ee, s, g * b);
            lemma_cong_add(rr, r1 + g * b, nn + ee, nn + ee);
            assert((r1 + nn) + (ee + s) == (r1 + nn + ee) + s);
            assert((r1 + nn + ee) + g * b == (r1 + g * b) + (nn + ee));
        }
    }
}

/// The phase under `sa` of the key switching of `(mask, body)` is
/// `ks_phase`, whatever the key holds, once `d` is the rounded mask whose
/// digits recompose to it.
proof fn lemma_keyswitch_phase(
    ksks: Seq<RLWECiphertext>,
    base_log: usize,
    level_count: usize,
    mask: Seq<u64>,
    body: Seq<u64>,
    sa: Seq<u64>,
    sb: Seq<u64>,
)
    requires
        valid_decomposition(base_log, level_count),
        ksks.len() == level_count,
        mask.len() == sa.len(),
        body.len() == sa.len(),
        sb.len() == sa.len(),
        forall|j: int|
            0 <= j < ksks.len() ==> (#[trigger] ksks[j]).mask.len() == sa.len() && ksks[j].body.len() == sa.len(),
        forall|i: int|
            0 <= i < mask.len() ==> #[trigger] recompose(
                base_log,
                level_count,
                signed_decomposition(
                    base_log,
                    level_count,
                    rounded_poly(base_log, level_count, mask)[i],
                ),
            ) == closest_representable_spec(
                base_log,
                level_count,
                rounded_poly(base_log, level_count, mask)[i],
            ),
    ensures
        phase(
            sa,
            ks_acc(
                ksks,
                base_log,
                level_count,
                rounded_poly(base_log, level_count, mask),
                zero_poly(sa.len()),
                level_count as int,
                false,
            ),
            ks_acc(
                ksks,
                base_log,
                level_count,
                rounded_poly(base_log, level_count, mask),
                body,
                level_count as int,
                true,
            ),
        ) == ks_phase(ksks, base_log, level_count, mask, body, sa, sb),
{
    let n = sa.len();
    let w = word_modulus();
    let d = rounded_poly(base_log, level_count, mask);
    let lc = level_count as int;
    lemma_ks_phase_steps(ksks, base_log, level_count, d, body, sa, lc);
    lemma_ks_phase_recomp(ksks, base_log, level_count, d, sa, sb, lc);
    let rc = recomp_seq(base_log, level_count, d, lc);
    assert forall|i: int| 0 <= i < n implies #[trigger] rc[i] == d[i] by {
        lemma_closest_idempotent(base_log, level_count, mask[i]);
        let digs = signed_decomposition(base_log, level_count, d[i]);
        assert(recompose(base_log, level_count, digs) == closest_representable_spec(base_log, level_count, d[i]));
        assert(rc[i] == recompose(base_log, level_count, digs));
    }
    assert(rc =~= d);
    let lhs = phase(
        sa,
        ks_acc(ksks, base_log, level_count, d, zero_poly(n), lc, false),
        ks_acc(ksks, base_log, level_count, d, body, lc, true),
    );
    let rhs = ks_phase(ksks, base_log, level_count, mask, body, sa, sb);
    lemma_ks_acc_len(ksks, base_log, level_count, d, body, lc, true);
    assert forall|k: int| 0 <= k < n implies #[trigger] lhs[k] == rhs[k] by {
        let a = ks_phase_acc(ksks, base_log, level_count, d, sa, lc, k);
        let nd = negacyclic(d, sb)[k] as int;
        let nn = ks_noise_acc(ksks, base_log, level_count, d, sa, sb, lc, k);
        lemma_cong_sub(body[k] as int, body[k] as int, a, nd + nn);
        assert(body[k] - (nd + nn) == body[k] - nd - nn);
        lemma_mod_sub(body[k] - nd, nn);
        vstd::arithmetic::div_mod::lemma_small_mod(lhs[k] as nat, w as nat);
        vstd::arithmetic::div_mod::lemma_small_mod(rhs[k] as nat, w as nat);
    }
    assert(lhs =~= rhs);
}


/// The ciphertexts of a key switching key that encrypts `sb`'s gadget
/// multiples under `sa` with binary noise have binary errors, so that the
/// noise that key switching adds is the digits times binary polynomials.
pub proof fn lemma_ksk_errors_binary(ksks: Seq<RLWECiphertext>, base_log: usize, sa: Seq<u64>, sb: Seq<u64>)
    requires
        ksk_encrypts(sb, sa, ksks, base_log),
        sb.len() == sa.len(),
        forall|j: int|
            0 <= j < ksks.len() ==> (#[trigger] ksks[j]).mask.len() == sa.len() && ksks[j].body.len() == sa.len(),
    ensures
        forall|j: int, i: int|
            0 <= j < ksks.len() && 0 <= i < sa.len() ==> crate::backend::binary_noise(
                #[trigger] ksk_error(ksks, base_log, j, sa, sb)[i],
            ),
{
    assert forall|j: int, i: int| 0 <= j < ksks.len() && 0 <= i < sa.len() implies crate::backend::binary_noise(
        #[trigger] ksk_error(ksks, base_log, j, sa, sb)[i],
    ) by {
        assert(encrypts_with_binary_noise(sa, ksks[j], seq_scale(sb, gadget(base_log, j + 1))));
        assert(crate::backend::binary_noise(
            wrap(phase(sa, ksks[j].mask@, ksks[j].body@)[i] - seq_scale(sb, gadget(base_log, j + 1))[i]),
        ));
    }
}

} // verus!
