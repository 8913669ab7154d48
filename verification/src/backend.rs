//! The calls into `tfhe`, `tfhe-csprng` and `rand` that the library makes,
//! each with the contract that the outside source supports. Ciphertexts,
//! keys and plaintexts cross this boundary as plain vectors of words.
use vstd::prelude::*;

use rand::rngs::{StdRng, ThreadRng};
use rand::{Rng, SeedableRng};
use tfhe::core_crypto::commons::generators::{
    DeterministicSeeder, EncryptionRandomGenerator, SecretRandomGenerator,
};
use tfhe::core_crypto::commons::math::random::{Seed, Seeder, UniformBinary, UniformTernary};
use tfhe::core_crypto::prelude::{
    decrypt_glwe_ciphertext, decrypt_lwe_ciphertext, encrypt_constant_ggsw_ciphertext,
    encrypt_glwe_ciphertext, encrypt_lwe_ciphertext, extract_lwe_sample_from_glwe_ciphertext,
    CiphertextModulus, Cleartext, DecompositionBaseLog, DecompositionLevelCount, GgswCiphertext,
    GlweCiphertext, GlweDimension, GlweSecretKey, GlweSize, LweCiphertext, LweDimension,
    LweSecretKey, MonomialDegree, Plaintext, PlaintextList, PolynomialSize, SignedDecomposer,
};
use tfhe_csprng::generators::SoftwareRandomGenerator;

use crate::lwe::{lwe_phase, sample_extract_mask};
use crate::poly::word_modulus;
use crate::rgsw::{ggsw_row_message, row_body, row_mask};
use crate::rlwe::{native_modulus, phase};

verus! {

#[verifier::external_type_specification]
#[verifier::external_body]
pub struct ExSoftwareRandomGenerator(SoftwareRandomGenerator);

#[verifier::external_type_specification]
#[verifier::external_body]
pub struct ExStdRng(StdRng);

#[verifier::external_type_specification]
#[verifier::external_body]
pub struct ExThreadRng(ThreadRng);

/// The generator of secret keys of a context: `tfhe`'s `SecretRandomGenerator`
/// over the software AES generator, held as an opaque value that only the
/// key generation wrappers read.
#[verifier::external_body]
pub struct SecretGenerator(SecretRandomGenerator<SoftwareRandomGenerator>);

/// The generator of masks and noise of a context: `tfhe`'s
/// `EncryptionRandomGenerator` over the software AES generator, held as an
/// opaque value that only the encryption wrappers read.
#[verifier::external_body]
pub struct EncryptionGenerator(EncryptionRandomGenerator<SoftwareRandomGenerator>);

/// `tfhe`'s `DeterministicSeeder` over the software AES generator: the
/// source of the seeds of a context's encryption generator, held as an
/// opaque value.
#[verifier::external_body]
pub struct ContextSeeder(DeterministicSeeder<SoftwareRandomGenerator>);

/// The digits of the signed decomposition of `x` in base `2^base_log` over
/// `level_count` levels, as `SignedDecomposer::decompose` yields them (from the
/// level `level_count` down to the level `1`).
pub uninterp spec fn signed_decomposition(base_log: usize, level_count: usize, x: u64) -> Seq<u64>;

/// The ciphertext moduli that `tfhe` accepts for 64-bit words: `0` and `2^64`
/// stand for the native modulus.
pub open spec fn valid_modulus(m: u128) -> bool {
    m <= native_modulus()
}

/// The moduli that `tfhe` handles with the arithmetic of 64-bit words: the
/// native modulus and the powers of two.
pub open spec fn native_compatible(m: u128) -> bool {
    is_native(m) || (1 <= m && vstd::arithmetic::power2::pow2(crate::poly::floor_log2(m as nat)) == m)
}

/// `get_power_of_two_scaling_to_native_torus` of `tfhe`: `2^(64 - log2 m)`
/// for a power of two `m` (the shift by `64` of `m = 1` wraps to `1`), `1`
/// for the native modulus.
pub open spec fn torus_scale(m: u128) -> u64 {
    if is_native(m) || m == 1 {
        1
    } else {
        vstd::arithmetic::power2::pow2((64 - crate::poly::floor_log2(m as nat)) as nat) as u64
    }
}

/// `body - mask * key` in `Z_q[X]/(X^N + 1)` for a modulus `q` that is not
/// a power of two, each coefficient reduced to `[0, q)`.
pub open spec fn custom_phase(key: Seq<u64>, mask: Seq<u64>, body: Seq<u64>, q: int) -> Seq<u64> {
    Seq::new(
        mask.len(),
        |k: int| ((body[k] - crate::poly::nega_partial(mask, key, mask.len() as int, k, mask.len() as int)) % q) as u64,
    )
}

/// What `decrypt_glwe_ciphertext` gives back under the modulus `m`: the phase
/// divided by the torus scale for the native modulus and the powers of two,
/// the phase modulo `m` otherwise.
pub open spec fn glwe_decryption(key: Seq<u64>, mask: Seq<u64>, body: Seq<u64>, m: u128) -> Seq<u64> {
    if native_compatible(m) {
        Seq::new(mask.len(), |i: int| phase(key, mask, body)[i] / torus_scale(m))
    } else {
        custom_phase(key, mask, body, m as int)
    }
}

/// Under a modulus that is not a power of two, `tfhe`'s arithmetic expects
/// words already reduced below it (its `q - x` overflows for `x > q`).
pub open spec fn reduced_under(m: u128, s: Seq<u64>) -> bool {
    native_compatible(m) || forall|i: int| 0 <= i < s.len() ==> #[trigger] s[i] < m
}

/// Whether `m` stands for the native modulus `2^64`.
pub open spec fn is_native(m: u128) -> bool {
    m == 0 || m == native_modulus()
}

/// The values that `UniformBinary` noise takes.
pub open spec fn binary_noise(e: u64) -> bool {
    e == 0 || e == 1
}

/// The values that `UniformTernary` noise takes (`-1` is `u64::MAX`).
pub open spec fn ternary_noise(e: u64) -> bool {
    e == 0 || e == 1 || e == u64::MAX
}

/// Decompositions of at least one level that leave at least two bits of a
/// 64-bit word unrepresented (with a single bit left, the rounding of
/// `SignedDecomposer` overflows on `u64::MAX`).
pub open spec fn valid_decomposition(base_log: usize, level_count: usize) -> bool {
    &&& 1 <= base_log
    &&& 1 <= level_count
    &&& base_log * level_count < 63
}

/// `sum_{t < m} digits[t] * 2^(64 - base_log * (level_count - t))`: the value
/// that the first `m` digits of a decomposition stand for, digit `t` being of
/// level `level_count - t`.
pub open spec fn recompose_acc(base_log: usize, level_count: usize, digits: Seq<u64>, m: int) -> int
    decreases m,
{
    if m <= 0 {
        0
    } else {
        recompose_acc(base_log, level_count, digits, m - 1) + digits[m - 1] * vstd::arithmetic::power2::pow2(
            (64 - base_log * (level_count - (m - 1))) as nat,
        )
    }
}

/// The value modulo `2^64` that the `level_count` digits stand for.
pub open spec fn recompose(base_log: usize, level_count: usize, digits: Seq<u64>) -> u64 {
    crate::poly::wrap(recompose_acc(base_log, level_count, digits, level_count as int))
}

/// The value `SignedDecomposer::closest_representable` rounds `x` to: the
/// closest multiple of `2^(64 - base_log * level_count)`, halves rounded up,
/// modulo `2^64`.
pub open spec fn closest_representable_spec(base_log: usize, level_count: usize, x: u64) -> u64 {
    let d = vstd::arithmetic::power2::pow2((64 - base_log * level_count) as nat) as int;
    ((((x + d / 2) / d) * d) % word_modulus()) as u64
}

/// A digit of a balanced decomposition in base `2^base_log`: read as a
/// signed word, it lies in `[-2^(base_log - 1), 2^(base_log - 1)]`.
pub open spec fn digit_in_range(base_log: usize, v: u64) -> bool {
    let half = vstd::arithmetic::power2::pow2((base_log - 1) as nat);
    v <= half || v >= word_modulus() - half
}

/// `new_seeder().seed()`: a seed drawn from the machine's entropy source.
#[verifier::external_body]
pub(crate) fn os_seed() -> u128 {
    tfhe::core_crypto::seeders::new_seeder().seed().0
}

/// `DeterministicSeeder::new(Seed(seed))`: a seeder whose seeds are derived from `seed`.
#[verifier::external_body]
pub(crate) fn new_deterministic_seeder(seed: u128) -> ContextSeeder {
    ContextSeeder(DeterministicSeeder::<SoftwareRandomGenerator>::new(Seed(seed)))
}

/// `Seeder::seed` on a deterministic seeder: the next seed it derives.
#[verifier::external_body]
pub(crate) fn seeder_seed(seeder: &mut ContextSeeder) -> u128 {
    seeder.0.seed().0
}

/// `SecretRandomGenerator::new(Seed(seed))`.
#[verifier::external_body]
pub(crate) fn new_secret_generator(seed: u128) -> SecretGenerator {
    SecretGenerator(SecretRandomGenerator::<SoftwareRandomGenerator>::new(Seed(seed)))
}

/// `EncryptionRandomGenerator::new(Seed(seed), seeder)`: masks are drawn from
/// `seed`, noise from a seed that `seeder` derives.
#[verifier::external_body]
pub(crate) fn new_encryption_generator(seed: u128, seeder: &mut ContextSeeder) -> EncryptionGenerator {
    EncryptionGenerator(EncryptionRandomGenerator::<SoftwareRandomGenerator>::new(Seed(seed), &mut seeder.0))
}

/// `GlweSecretKey::generate_new_binary` with one polynomial of size `n`: the
/// coefficients are drawn as uniform bits, so each one is `0` or `1`.
#[verifier::external_body]
pub(crate) fn generate_binary_glwe_key(n: usize, generator: &mut SecretGenerator) -> (r: Vec<u64>)
    requires
        n > 0,
    ensures
        r.len() == n,
        forall|i: int| 0 <= i < n ==> #[trigger] r@[i] <= 1,
{
    GlweSecretKey::generate_new_binary(GlweDimension(1), PolynomialSize(n), &mut generator.0).into_container()
}

/// `LweSecretKey::generate_new_binary`: `dimension` uniform bits.
#[verifier::external_body]
pub(crate) fn generate_binary_lwe_key(dimension: usize, generator: &mut SecretGenerator) -> (r: Vec<u64>)
    requires
        dimension > 0,
    ensures
        r.len() == dimension,
        forall|i: int| 0 <= i < dimension ==> #[trigger] r@[i] <= 1,
{
    LweSecretKey::generate_new_binary(LweDimension(dimension), &mut generator.0).into_container()
}

/// `encrypt_glwe_ciphertext` with `UniformBinary` noise under a key of one
/// polynomial and the native modulus. The mask is drawn at random and the
/// body is set so that `body - mask * key = pt + e` with every `e[i]` in
/// `{0, 1}`. Under any other modulus `tfhe` draws the noise with
/// `generate_one_custom_modulus`, which `UniformBinary` and `UniformTernary`
/// leave unimplemented (it panics), so only the native modulus is admitted.
#[verifier::external_body]
pub(crate) fn encrypt_glwe_binary(
    key: &[u64],
    mask: &mut Vec<u64>,
    body: &mut Vec<u64>,
    pt: &[u64],
    modulus: u128,
    generator: &mut EncryptionGenerator,
)
    requires
        key.len() > 0,
        old(mask).len() == key.len(),
        old(body).len() == key.len(),
        pt.len() == key.len(),
        is_native(modulus),
    ensures
        final(mask).len() == key.len(),
        final(body).len() == key.len(),
        forall|i: int|
            0 <= i < key.len() ==> binary_noise(
                #[trigger] crate::poly::wrap(phase(key@, final(mask)@, final(body)@)[i] - pt@[i]),
            ),
{
    let n = key.len();
    let sk = GlweSecretKey::from_container(key, PolynomialSize(n));
    let mut data = mask.clone();
    data.extend_from_slice(body);
    let mut ct = GlweCiphertext::from_container(data, PolynomialSize(n), CiphertextModulus::try_new(modulus).unwrap());
    encrypt_glwe_ciphertext(&sk, &mut ct, &PlaintextList::from_container(pt), UniformBinary, &mut generator.0);
    let data = ct.into_container();
    mask.copy_from_slice(&data[..n]);
    body.copy_from_slice(&data[n..]);
}

/// `encrypt_glwe_ciphertext` with `UniformTernary` noise: as
/// `encrypt_glwe_binary`, with every `e[i]` in `{0, 1, -1}`.
#[verifier::external_body]
pub(crate) fn encrypt_glwe_ternary(
    key: &[u64],
    mask: &mut Vec<u64>,
    body: &mut Vec<u64>,
    pt: &[u64],
    modulus: u128,
    generator: &mut EncryptionGenerator,
)
    requires
        key.len() > 0,
        old(mask).len() == key.len(),
        old(body).len() == key.len(),
        pt.len() == key.len(),
        is_native(modulus),
    ensures
        final(mask).len() == key.len(),
        final(body).len() == key.len(),
        forall|i: int|
            0 <= i < key.len() ==> ternary_noise(
                #[trigger] crate::poly::wrap(phase(key@, final(mask)@, final(body)@)[i] - pt@[i]),
            ),
{
    let n = key.len();
    let sk = GlweSecretKey::from_container(key, PolynomialSize(n));
    let mut data = mask.clone();
    data.extend_from_slice(body);
    let mut ct = GlweCiphertext::from_container(data, PolynomialSize(n), CiphertextModulus::try_new(modulus).unwrap());
    encrypt_glwe_ciphertext(&sk, &mut ct, &PlaintextList::from_container(pt), UniformTernary, &mut generator.0);
    let data = ct.into_container();
    mask.copy_from_slice(&data[..n]);
    body.copy_from_slice(&data[n..]);
}

/// `decrypt_glwe_ciphertext` under a key of one polynomial: with the native
/// modulus it computes `body - mask * key` in `Z_q[X]/(X^N + 1)`; with a
/// power of two it computes the same with 64-bit words and divides each
/// coefficient by the torus scale; with another modulus `q` it computes it
/// modulo `q` on words that must already be below `q`.
#[verifier::external_body]
pub(crate) fn decrypt_glwe(key: &[u64], mask: &[u64], body: &[u64], modulus: u128) -> (r: Vec<u64>)
    requires
        key.len() > 0,
        mask.len() == key.len(),
        body.len() == key.len(),
        valid_modulus(modulus),
        reduced_under(modulus, key@),
        reduced_under(modulus, mask@),
        reduced_under(modulus, body@),
    ensures
        r.len() == key.len(),
        r@ == glwe_decryption(key@, mask@, body@, modulus),
        is_native(modulus) ==> r@ == phase(key@, mask@, body@),
{
    let n = key.len();
    let sk = GlweSecretKey::from_container(key, PolynomialSize(n));
    let mut data = mask.to_vec();
    data.extend_from_slice(body);
    let ct = GlweCiphertext::from_container(data, PolynomialSize(n), CiphertextModulus::try_new(modulus).unwrap());
    let mut pt = PlaintextList::new(0u64, tfhe::core_crypto::prelude::PlaintextCount(n));
    decrypt_glwe_ciphertext(&sk, &ct, &mut pt);
    pt.into_container()
}

/// `encrypt_lwe_ciphertext` with `UniformBinary` noise into the ciphertext
/// `(mask, body)` under the native modulus (as for `encrypt_glwe_binary`,
/// `tfhe` panics under any other): the mask is drawn at random and
/// `body - <mask, key> = pt + e` with `e` in `{0, 1}`.
#[verifier::external_body]
pub(crate) fn encrypt_lwe_binary(
    key: &[u64],
    mask: &mut Vec<u64>,
    body: &mut u64,
    pt: u64,
    modulus: u128,
    generator: &mut EncryptionGenerator,
)
    requires
        key.len() > 0,
        old(mask).len() == key.len(),
        is_native(modulus),
    ensures
        final(mask).len() == key.len(),
        binary_noise(crate::poly::wrap(lwe_phase(key@, final(mask)@, *final(body)) - pt)),
{
    let sk = LweSecretKey::from_container(key);
    let mut data = mask.clone();
    data.push(*body);
    let mut out = LweCiphertext::from_container(data, CiphertextModulus::try_new(modulus).unwrap());
    encrypt_lwe_ciphertext(&sk, &mut out, Plaintext(pt), UniformBinary, &mut generator.0);
    let data = out.into_container();
    mask.copy_from_slice(&data[..key.len()]);
    *body = data[key.len()];
}

/// `decrypt_lwe_ciphertext` of `(mask, body)`: with the native modulus,
/// `body - <mask, key>`.
#[verifier::external_body]
pub(crate) fn decrypt_lwe(key: &[u64], mask: &[u64], body: u64, modulus: u128) -> (r: u64)
    requires
        key.len() > 0,
        mask.len() == key.len(),
        valid_modulus(modulus),
    ensures
        is_native(modulus) ==> r == lwe_phase(key@, mask@, body),
{
    let sk = LweSecretKey::from_container(key);
    let mut data = mask.to_vec();
    data.push(body);
    let c = LweCiphertext::from_container(data, CiphertextModulus::try_new(modulus).unwrap());
    decrypt_lwe_ciphertext(&sk, &c).0
}

/// `extract_lwe_sample_from_glwe_ciphertext` of coefficient `nth` of the
/// RLWE ciphertext `(mask, body)` into `(out_mask, out_body)`: with the native
/// modulus or a power of two, the mask is `sample_extract_mask(mask, nth)`
/// and the body `body[nth]`. With another modulus `q`, `tfhe` negates words
/// as `q - x`, so they must not exceed `q`.
#[verifier::external_body]
pub(crate) fn extract_lwe_sample(
    mask: &[u64],
    body: &[u64],
    nth: usize,
    modulus: u128,
    out_mask: &mut Vec<u64>,
    out_body: &mut u64,
)
    requires
        mask.len() > 0,
        body.len() == mask.len(),
        nth < mask.len(),
        old(out_mask).len() == mask.len(),
        valid_modulus(modulus),
        native_compatible(modulus) || forall|i: int| 0 <= i < mask.len() ==> #[trigger] mask@[i] <= modulus,
    ensures
        final(out_mask).len() == mask.len(),
        native_compatible(modulus) ==> final(out_mask)@ == sample_extract_mask(mask@, nth as int)
            && *final(out_body) == body@[nth as int],
{
    let n = mask.len();
    let mut data = mask.to_vec();
    data.extend_from_slice(body);
    let m = CiphertextModulus::try_new(modulus).unwrap();
    let glwe = GlweCiphertext::from_container(data, PolynomialSize(n), m);
    let mut lwe_data = out_mask.clone();
    lwe_data.push(*out_body);
    let mut lwe = LweCiphertext::from_container(lwe_data, m);
    extract_lwe_sample_from_glwe_ciphertext(&glwe, &mut lwe, MonomialDegree(nth));
    let lwe_data = lwe.into_container();
    out_mask.copy_from_slice(&lwe_data[..n]);
    *out_body = lwe_data[n];
}

/// `encrypt_constant_ggsw_ciphertext` with `UniformBinary` noise into `data`,
/// the container of a GGSW ciphertext of `2 * level_count` rows of
/// `2 * n` words, under the native modulus (each row is a GLWE encryption
/// with `UniformBinary` noise, for which `tfhe` panics under any other
/// modulus): every row's phase differs from `ggsw_row_message` by noise in
/// `{0, 1}`.
#[verifier::external_body]
pub(crate) fn encrypt_constant_ggsw(
    key: &[u64],
    data: &mut Vec<u64>,
    base_log: usize,
    level_count: usize,
    cleartext: u64,
    modulus: u128,
    generator: &mut EncryptionGenerator,
)
    requires
        key.len() > 0,
        valid_decomposition(base_log, level_count),
        old(data).len() == 4 * level_count * key.len(),
        valid_modulus(modulus),
        is_native(modulus),
    ensures
        final(data).len() == old(data).len(),
        forall|r: int, i: int|
            0 <= r < 2 * level_count && 0 <= i < key.len() ==> binary_noise(
                #[trigger] crate::poly::wrap(
                    phase(
                        key@,
                        row_mask(final(data)@, key.len() as int, r),
                        row_body(final(data)@, key.len() as int, r),
                    )[i] - ggsw_row_message(key@, base_log, level_count, cleartext, r)[i],
                ),
            ),
{
    let n = key.len();
    let sk = GlweSecretKey::from_container(key, PolynomialSize(n));
    let m = CiphertextModulus::try_new(modulus).unwrap();
    let mut ct = GgswCiphertext::from_container(data.as_mut_slice(), GlweSize(2), PolynomialSize(n), DecompositionBaseLog(base_log), m);
    encrypt_constant_ggsw_ciphertext(&sk, &mut ct, Cleartext(cleartext), UniformBinary, &mut generator.0);
}

/// `x` rounded to the closest multiple of `2^(64 - base_log * level_count)`
/// (halves up, modulo `2^64`), as `SignedDecomposer::closest_representable`
/// rounds it: shift right by one bit less than the rounding point, add one,
/// drop the lowest bit and shift back.
pub(crate) fn closest_representable(base_log: usize, level_count: usize, x: u64) -> (r: u64)
    requires
        valid_decomposition(base_log, level_count),
    ensures
        r == closest_representable_spec(base_log, level_count, x),
{
    proof {
        assert(base_log * level_count >= 1) by (nonlinear_arith)
            requires
                base_log >= 1,
                level_count >= 1,
        ;
    }
    let s: u64 = (63 - base_log * level_count) as u64;
    assert(1 <= s <= 62);
    let y = x >> s;
    let ghost p = vstd::arithmetic::power2::pow2(s as nat) as int;
    let ghost d = vstd::arithmetic::power2::pow2((s + 1) as nat) as int;
    let ghost top = vstd::arithmetic::power2::pow2((63 - s) as nat) as int;
    proof {
        vstd::bits::lemma_u64_shr_is_div(x, s);
        vstd::arithmetic::power2::lemma2_to64();
        vstd::arithmetic::power2::lemma_pow2_strictly_increases(0, s as nat);
        vstd::arithmetic::power2::lemma_pow2_adds(s as nat, 1);
        vstd::arithmetic::power2::lemma_pow2_adds((63 - s) as nat, (s + 1) as nat);
        vstd::arithmetic::power2::lemma_pow2_adds((64 - s) as nat, s as nat);
        vstd::arithmetic::power2::lemma_pow2_adds((63 - s) as nat, 1);
        assert(d == p * 2);
        assert(top * d == 0x1_0000_0000_0000_0000);
        assert(y == (x as int) / p);
        assert(y <= x / 2) by {
            vstd::arithmetic::div_mod::lemma_div_is_ordered_by_denominator(x as int, 2, p);
        }
        assert((y + 1) * p <= 0x1_0000_0000_0000_0000) by (nonlinear_arith)
            requires
                y == (x as int) / p,
                p >= 2,
                x < 0x1_0000_0000_0000_0000,
                top * 2 * p == 0x1_0000_0000_0000_0000,
        {
            vstd::arithmetic::div_mod::lemma_fundamental_div_mod(x as int, p);
            vstd::arithmetic::div_mod::lemma_mod_bound(x as int, p);
        }
    }
    let h = y + 1;
    let q = h >> 1u64;
    proof {
        vstd::bits::lemma_u64_shr_is_div(h, 1);
        assert(q == h / 2);
        vstd::arithmetic::div_mod::lemma_fundamental_div_mod(x as int, p);
        vstd::arithmetic::div_mod::lemma_mod_bound(x as int, p);
        assert(((x as int) / p + 1) * p == p * ((x as int) / p) + p) by (nonlinear_arith);
        vstd::arithmetic::div_mod::lemma_fundamental_div_mod_converse(x + p, p, (x as int) / p + 1, (x as int) % p);
        vstd::arithmetic::div_mod::lemma_div_denominator(x + p, p, 2);
        assert(q == (x + d / 2) / d);
        assert(q <= top) by (nonlinear_arith)
            requires
                q == h / 2,
                h * p <= 0x1_0000_0000_0000_0000,
                top * 2 * p == 0x1_0000_0000_0000_0000,
                p > 0,
        ;
        if 63 - s < 63 {
            vstd::arithmetic::power2::lemma_pow2_strictly_increases((63 - s) as nat, 63);
        }
        assert(((63 - s) as u64) as nat == (63 - s) as nat);
        vstd::arithmetic::power2::lemma2_to64_rest();
        assert(top <= 0x4000_0000_0000_0000);
        vstd::bits::lemma_u64_shl_is_mul(1, (63 - s) as u64);
    }
    if q == 1u64 << (63 - s) {
        proof {
            vstd::arithmetic::div_mod::lemma_mod_self_0(word_modulus());
        }
        0
    } else {
        proof {
            assert(q * d < 0x1_0000_0000_0000_0000) by (nonlinear_arith)
                requires
                    q < top,
                    top * d == 0x1_0000_0000_0000_0000,
                    d > 0,
            ;
            assert(((s + 1) as u64) as nat == (s + 1) as nat);
            vstd::bits::lemma_u64_shl_is_mul(q, (s + 1) as u64);
            vstd::arithmetic::div_mod::lemma_small_mod((q * d) as nat, word_modulus() as nat);
        }
        q << (s + 1)
    }
}

/// `SignedDecomposer::decompose`: the `level_count` terms of the signed
/// decomposition of `x`, each as its level and its value, the level
/// `level_count` first. The terms recompose (`recompose`, the sum that
/// `SignedDecomposer::recompose` computes) to `closest_representable(x)`,
/// and each term, read as a signed word, lies in `[-B/2, B/2]` for the base
/// `B = 2^base_log`, as the balanced rounding of `decompose_one_level` and
/// the documentation of `SignedDecomposer::decompose` give.
#[verifier::external_body]
pub(crate) fn decompose(base_log: usize, level_count: usize, x: u64) -> (r: Vec<(usize, u64)>)
    requires
        valid_decomposition(base_log, level_count),
    ensures
        r.len() == level_count,
        forall|t: int| 0 <= t < level_count ==> #[trigger] r@[t].0 == level_count - t,
        r@.map_values(|p: (usize, u64)| p.1) == signed_decomposition(base_log, level_count, x),
        recompose(base_log, level_count, r@.map_values(|p: (usize, u64)| p.1)) == closest_representable_spec(
            base_log,
            level_count,
            x,
        ),
        forall|t: int| 0 <= t < level_count ==> #[trigger] digit_in_range(base_log, r@[t].1),
{
    let d = SignedDecomposer::<u64>::new(DecompositionBaseLog(base_log), DecompositionLevelCount(level_count));
    d.decompose(x).map(|t| (t.level().0, t.value())).collect()
}

/// The `i`-th `u64` (counting from `0`) that `Rng::gen` draws from the
/// `StdRng` made by `StdRng::seed_from_u64(seed)`. `seed_from_u64` expands
/// the seed with PCG32 and `StdRng` is the ChaCha12 generator of `rand`, so
/// the stream depends on the seed alone (for the version of `rand` built).
pub uninterp spec fn seeded_word(seed: u64, i: nat) -> u64;

/// A `StdRng` made from a `u64` seed, with the seed and the number of words
/// drawn from it so far.
pub struct SeededRng {
    rng: StdRng,
    seed: Ghost<u64>,
    drawn: Ghost<nat>,
}

impl SeededRng {
    /// The seed the generator was made from.
    pub closed spec fn seed(&self) -> u64 {
        self.seed@
    }

    /// How many words were drawn from the generator.
    pub closed spec fn drawn(&self) -> nat {
        self.drawn@
    }
}

/// `StdRng::seed_from_u64`: a generator made from `seed`, from which nothing
/// was drawn yet.
#[verifier::external_body]
pub(crate) fn std_rng_from_seed(seed: u64) -> (r: SeededRng)
    ensures
        r.seed() == seed,
        r.drawn() == 0,
{
    SeededRng { rng: StdRng::seed_from_u64(seed), seed: Ghost(seed), drawn: Ghost(0) }
}

/// `Rng::gen::<u64>` on a seeded `StdRng`: the next word of the seed's
/// stream, `seeded_word(seed, drawn)`.
#[verifier::external_body]
pub(crate) fn std_rng_next_u64(rng: &mut SeededRng) -> (r: u64)
    ensures
        r == seeded_word(old(rng).seed(), old(rng).drawn()),
        final(rng).seed() == old(rng).seed(),
        final(rng).drawn() == old(rng).drawn() + 1,
{
    rng.rng.gen::<u64>()
}

/// `rand::thread_rng()`: the generator of the current thread.
#[verifier::external_body]
pub(crate) fn thread_rng() -> ThreadRng {
    rand::thread_rng()
}

/// `Rng::gen_range(0..hi)`: a value drawn uniformly below `hi`.
#[verifier::external_body]
pub(crate) fn thread_rng_below(rng: &mut ThreadRng, hi: u64) -> (r: u64)
    requires
        hi > 0,
    ensures
        r < hi,
{
    rng.gen_range(0..hi)
}

} // verus!
