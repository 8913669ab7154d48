use panacea::context::Context;
use panacea::lwe::{conv_lwe_to_rlwe, LWECiphertext, LWESecretKey, LWEtoRLWEKeyswitchKey};
use panacea::params::TFHEParameters;
use panacea::rlwe::{RLWECiphertext, RLWESecretKey};

const NATIVE: u128 = 1u128 << 64;

fn small_ctx(n: usize) -> Context {
    Context::new(TFHEParameters {
        polynomial_size: n,
        base_log: 5,
        level_count: 6,
        key_switch_base_log: 5,
        key_switch_level_count: 9,
        negs_base_log: 5,
        negs_level_count: 9,
        plaintext_modulus: 1 << 8,
        secure_seed: false,
        modulus: NATIVE,
    })
}

fn default_ctx() -> Context {
    Context::new(TFHEParameters::default())
}

#[test]
fn test_lwe() {
    let mut ctx = default_ctx();
    let sk = LWESecretKey::generate_new_binary(ctx.lwe_dim(), &mut ctx.secret_generator);
    for i in 0..10u64 {
        let expected = i % 2;
        let mut ct = LWECiphertext::new(ctx.lwe_size(), ctx.modulus);
        sk.encode_encrypt_lwe(&mut ct, expected, &mut ctx);

        let mut actual = 0u64;
        sk.decode_decrypt_lwe(&mut actual, &ct, &ctx);
        assert_eq!(expected, actual);
    }
}

#[test]
fn test_lwe_fill() {
    let mut ctx = default_ctx();
    let sk = LWESecretKey::generate_new_binary(ctx.lwe_dim(), &mut ctx.secret_generator);

    let expected = 1u64;
    let mut ct = LWECiphertext::new(ctx.lwe_size(), ctx.modulus);
    sk.encode_encrypt_lwe(&mut ct, expected, &mut ctx);

    let mut ct2 = LWECiphertext::new(ctx.lwe_size(), ctx.modulus);
    ct2.get_mut_mask().copy_from_slice(ct.get_mask());
    *ct2.get_mut_body() = ct.get_body();

    let mut actual = 0u64;
    sk.decode_decrypt_lwe(&mut actual, &ct2, &ctx);
    assert_eq!(expected, actual);
}

#[test]
fn test_lwe_to_rlwe() {
    let mut ctx = small_ctx(64);

    let lwe_sk = LWESecretKey::generate_new_binary(ctx.lwe_dim(), &mut ctx.secret_generator);
    let rlwe_sk = lwe_sk.to_rlwe_sk();
    let expected = 1u64;

    let mut lwe_ct = LWECiphertext::new(ctx.lwe_size(), ctx.modulus);
    lwe_sk.encode_encrypt_lwe(&mut lwe_ct, expected, &mut ctx);

    let mut ksks = LWEtoRLWEKeyswitchKey::allocate(&ctx);
    ksks.fill_with_keyswitching_key(&lwe_sk, &mut ctx);

    let rlwe_ct = conv_lwe_to_rlwe(&ksks, &lwe_ct, &ctx);
    let mut actual = ctx.gen_zero_pt();
    rlwe_sk.decrypt_decode_rlwe(&mut actual, &rlwe_ct, &ctx);

    assert_eq!(actual[0], expected);
}

#[test]
fn test_sample_extract() {
    let mut ctx = default_ctx();
    let lwe_sk = LWESecretKey::generate_new_binary(ctx.lwe_dim(), &mut ctx.secret_generator);
    let rlwe_sk = lwe_sk.to_rlwe_sk();

    let pt: Vec<u64> = (0..ctx.poly_size).map(|i| (i % 3 == 0) as u64).collect();
    let mut rlwe_ct = RLWECiphertext::allocate(ctx.poly_size, ctx.modulus);
    rlwe_sk.encode_encrypt_rlwe_binary(&mut rlwe_ct, &pt, &mut ctx);

    let mut lwe_ct = LWECiphertext::new(ctx.lwe_size(), ctx.modulus);
    lwe_ct.fill_with_const_sample_extract(&rlwe_ct);

    let mut actual_pt = 0u64;
    lwe_sk.decode_decrypt_lwe(&mut actual_pt, &lwe_ct, &ctx);
    assert_eq!(pt[0], actual_pt);

    // every coefficient can be extracted
    for nth in [1usize, 2, 3, 63] {
        let mut lwe_ct = LWECiphertext::new(ctx.lwe_size(), ctx.modulus);
        lwe_ct.fill_with_sample_extract(&rlwe_ct, nth);
        let mut actual_pt = 0u64;
        lwe_sk.decode_decrypt_lwe(&mut actual_pt, &lwe_ct, &ctx);
        assert_eq!(pt[nth], actual_pt);
    }
}

#[test]
fn test_sample_extract_layout() {
    // mask [1, 2, 3, 4], body [5, 6, 7, 8]: coefficient 1 of the plaintext
    // gives the mask [a1, a0, -a3, -a2] and the body b1
    let ct = RLWECiphertext { mask: vec![1, 2, 3, 4], body: vec![5, 6, 7, 8], modulus: NATIVE };
    let mut lwe = LWECiphertext::new(5, NATIVE);
    lwe.fill_with_sample_extract(&ct, 1);
    assert_eq!(lwe.mask, vec![2, 1, 0u64.wrapping_sub(4), 0u64.wrapping_sub(3)]);
    assert_eq!(lwe.body, 6);
}

#[test]
fn test_lwe_new_and_clear() {
    let mut ct = LWECiphertext::new(5, NATIVE);
    assert_eq!(ct.lwe_size(), 5);
    assert_eq!(ct.get_mask(), &[0u64, 0, 0, 0][..]);
    assert_eq!(ct.get_body(), 0);
    ct.get_mut_mask()[2] = 9;
    *ct.get_mut_body() = 4;
    ct.clear();
    assert_eq!(ct.mask, vec![0u64; 4]);
    assert_eq!(ct.body, 0);
}

#[test]
fn test_lwe_decrypt_is_phase() {
    // body - <mask, key> with the key [1, 0, 1]
    let sk = LWESecretKey { key: vec![1, 0, 1] };
    let ct = LWECiphertext { mask: vec![10, 20, 30], body: 100, modulus: NATIVE };
    let mut out = 0u64;
    sk.decrypt_lwe(&mut out, &ct);
    assert_eq!(out, 60);
    assert_eq!(sk.key_size(), 3);
    let rlwe = sk.to_rlwe_sk();
    assert_eq!(rlwe.key, vec![1, 0, 1]);
    let _unused: RLWESecretKey = rlwe;
}

#[test]
fn test_lwe_to_rlwe_allocate_shape() {
    let ctx = small_ctx(16);
    let ksk = LWEtoRLWEKeyswitchKey::allocate(&ctx);
    assert_eq!(ksk.inner.len(), 16);
    for c in ksk.inner.iter() {
        assert_eq!(c.poly_size, 16);
        assert_eq!(c.base_log, ctx.ks_base_log);
        assert_eq!(c.level_count, ctx.ks_level_count);
        assert_eq!(c.data.len(), 4 * ctx.ks_level_count * 16);
        assert!(c.data.iter().all(|x| *x == 0));
    }
}
