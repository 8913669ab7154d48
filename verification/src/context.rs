//! The state that encryption needs: sizes, decomposition parameters, the
//! plaintext codec and the random generators.
use vstd::arithmetic::power2::pow2;
use vstd::prelude::*;

use crate::backend::{
    new_deterministic_seeder, new_encryption_generator, new_secret_generator, os_seed,
    seeder_seed, valid_decomposition, valid_modulus, EncryptionGenerator, SecretGenerator,
};
use crate::codec::Codec;
use crate::params::TFHEParameters;
use crate::poly::zero_poly;

verus! {

/// Sizes, decomposition parameters, codec and random generators.
pub struct Context {
    pub poly_size: usize,
    pub base_log: usize,
    pub level_count: usize,
    pub ks_base_log: usize,
    pub ks_level_count: usize,
    pub negs_base_log: usize,
    pub negs_level_count: usize,
    pub modulus: u128,
    pub codec: Codec,
    pub secret_generator: SecretGenerator,
    pub encryption_generator: EncryptionGenerator,
}

impl TFHEParameters {
    /// Parameters a context can be built from: a positive polynomial size,
    /// decompositions of at least one level that fit in a word, a power of
    /// two plaintext modulus between `2` and `2^62`, and a modulus `tfhe`
    /// accepts.
    pub open spec fn wf(&self) -> bool {
        &&& self.polynomial_size > 0
        &&& valid_decomposition(self.base_log, self.level_count)
        &&& valid_decomposition(self.key_switch_base_log, self.key_switch_level_count)
        &&& valid_decomposition(self.negs_base_log, self.negs_level_count)
        &&& exists|b: nat| 1 <= b <= 62 && self.plaintext_modulus == pow2(b)
        &&& valid_modulus(self.modulus)
    }
}

impl Context {
    /// The invariant of a context built from well-formed parameters.
    pub open spec fn wf(&self) -> bool {
        &&& self.poly_size > 0
        &&& valid_decomposition(self.base_log, self.level_count)
        &&& valid_decomposition(self.ks_base_log, self.ks_level_count)
        &&& valid_decomposition(self.negs_base_log, self.negs_level_count)
        &&& self.codec.wf()
        &&& valid_modulus(self.modulus)
    }

    /// The same sizes, decomposition parameters, modulus and codec as `other`
    /// (the generators may have moved on).
    pub open spec fn same_params(&self, other: Context) -> bool {
        &&& self.poly_size == other.poly_size
        &&& self.base_log == other.base_log
        &&& self.level_count == other.level_count
        &&& self.ks_base_log == other.ks_base_log
        &&& self.ks_level_count == other.ks_level_count
        &&& self.negs_base_log == other.negs_base_log
        &&& self.negs_level_count == other.negs_level_count
        &&& self.modulus == other.modulus
        &&& self.codec == other.codec
    }

    /// A context for `params`. With `secure_seed` the generators are seeded
    /// from the machine's entropy source, otherwise from the fixed seed `0`,
    /// which makes runs reproducible.
    pub fn new(params: TFHEParameters) -> (r: Self)
        requires
            params.wf(),
        ensures
            r.wf(),
            r.poly_size == params.polynomial_size,
            r.base_log == params.base_log,
            r.level_count == params.level_count,
            r.ks_base_log == params.key_switch_base_log,
            r.ks_level_count == params.key_switch_level_count,
            r.negs_base_log == params.negs_base_log,
            r.negs_level_count == params.negs_level_count,
            r.modulus == params.modulus,
            r.codec.pt_modulus == params.plaintext_modulus,
    {
        let seed = if params.secure_seed {
            os_seed()
        } else {
            0
        };
        let mut seeder = new_deterministic_seeder(seed);
        let mask_seed = seeder_seed(&mut seeder);
        let encryption_generator = new_encryption_generator(mask_seed, &mut seeder);
        let secret_seed = seeder_seed(&mut seeder);
        let secret_generator = new_secret_generator(secret_seed);
        Context {
            poly_size: params.polynomial_size,
            base_log: params.base_log,
            level_count: params.level_count,
            ks_base_log: params.key_switch_base_log,
            ks_level_count: params.key_switch_level_count,
            negs_base_log: params.negs_base_log,
            negs_level_count: params.negs_level_count,
            modulus: params.modulus,
            codec: Codec::new(params.plaintext_modulus),
            secret_generator,
            encryption_generator,
        }
    }

    /// The number of plaintexts in a polynomial, `N`.
    pub fn plaintext_count(&self) -> (r: usize)
        ensures
            r == self.poly_size,
    {
        self.poly_size
    }

    /// The dimension of the LWE ciphertexts extracted from RLWE ones, `N`.
    pub fn lwe_dim(&self) -> (r: usize)
        ensures
            r == self.poly_size,
    {
        self.poly_size
    }

    /// The size of those LWE ciphertexts, `N + 1`.
    pub fn lwe_size(&self) -> (r: usize)
        requires
            self.poly_size < usize::MAX,
        ensures
            r == self.poly_size + 1,
    {
        self.poly_size + 1
    }

    /// The zero plaintext polynomial.
    pub fn gen_zero_pt(&self) -> (r: Vec<u64>)
        ensures
            r@ == zero_poly(self.poly_size as nat),
    {
        let mut v: Vec<u64> = Vec::new();
        let mut i: usize = 0;
        while i < self.poly_size
            invariant
                i <= self.poly_size,
                v@ == zero_poly(i as nat),
            decreases self.poly_size - i,
        {
            v.push(0);
            i += 1;
            assert(v@ =~= zero_poly(i as nat));
        }
        v
    }
}

} // verus!
