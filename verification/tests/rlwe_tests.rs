use panacea::codec::Codec;
use panacea::context::Context;
use panacea::keyswitch::{expand, gen_all_subs_ksk, RLWEKeyswitchKey};
use panacea::params::TFHEParameters;
use panacea::poly::{eval_x_k, mul_const};
use panacea::rgsw::RGSWCiphertext;
use panacea::rlwe::{noise_max, noise_max_encoded, noise_max_ternary, RLWECiphertext, RLWESecretKey};

const NATIVE: u128 = 1u128 << 64;

fn small_params(n: usize) -> TFHEParameters {
    TFHEParameters {
        polynomial_size: n,
        base_log: 5,
        level_count: 6,
        key_switch_base_log: 5,
        key_switch_level_count: 9,
        negs_base_log: 5,
        negs_level_count: 9,
        plaintext_modulus: 1 << 8,
        secure_seed: false,
        modulus: NATIVE,
    }
}

fn small_ctx(n: usize) -> Context {
    Context::new(small_params(n))
}

fn default_ctx() -> Context {
    Context::new(TFHEParameters::default())
}

fn gen_sk(ctx: &mut Context) -> RLWESecretKey {
    RLWESecretKey::generate_binary(ctx.poly_size, &mut ctx.secret_generator)
}

/// A fixed plaintext of binary coefficients.
fn binary_pt(n: usize) -> Vec<u64> {
    (0..n).map(|i| ((i * 7 + 3) % 5 % 2) as u64).collect()
}

/// A fixed plaintext of ternary coefficients (`-1` is `u64::MAX`).
fn ternary_pt(n: usize) -> Vec<u64> {
    (0..n)
        .map(|i| match (i * 5 + 1) % 3 {
            0 => 0,
            1 => 1,
            _ => u64::MAX,
        })
        .collect()
}

fn unit_pt(n: usize) -> Vec<u64> {
    let mut v = vec![0u64; n];
    v[0] = 1;
    v
}

#[test]
fn test_keyswitching() {
    let mut ctx = default_ctx();
    let messages = ternary_pt(ctx.poly_size);

    let sk_after = gen_sk(&mut ctx);
    let sk_before = gen_sk(&mut ctx);

    let mut ct_after = RLWECiphertext::allocate(ctx.poly_size, ctx.modulus);
    let mut ct_before = RLWECiphertext::allocate(ctx.poly_size, ctx.modulus);

    let mut ksk = RLWEKeyswitchKey::allocate(ctx.ks_base_log, ctx.ks_level_count, ctx.poly_size, ctx.modulus);
    ksk.fill_with_keyswitch_key(&sk_before, &sk_after, &mut ctx.encryption_generator);

    sk_before.encode_encrypt_rlwe_ternary(&mut ct_before, &messages, &mut ctx);
    let mut dec_messages_1 = ctx.gen_zero_pt();
    sk_before.ternary_decrypt_rlwe(&mut dec_messages_1, &ct_before);

    ksk.keyswitch_ciphertext(&mut ct_after, &ct_before);

    let mut dec_messages_2 = ctx.gen_zero_pt();
    sk_after.ternary_decrypt_rlwe(&mut dec_messages_2, &ct_after);

    assert_eq!(dec_messages_1, dec_messages_2);
    assert_eq!(dec_messages_1, messages);
}

#[test]
fn test_subs() {
    let mut ctx = default_ctx();
    let messages = ternary_pt(ctx.poly_size);
    let k = ctx.poly_size + 1;

    let sk_after = gen_sk(&mut ctx);
    let mut sk_before = gen_sk(&mut ctx);

    let mut ct_after = RLWECiphertext::allocate(ctx.poly_size, ctx.modulus);
    let mut ct_before = RLWECiphertext::allocate(ctx.poly_size, ctx.modulus);

    let mut ksk = RLWEKeyswitchKey::allocate(ctx.ks_base_log, ctx.ks_level_count, ctx.poly_size, ctx.modulus);
    ksk.fill_with_subs_keyswitch_key(&mut sk_before, &sk_after, k, &mut ctx.encryption_generator);
    assert_eq!(ksk.get_subs_k(), k);
    assert_eq!(sk_before.key, eval_x_k(&sk_after.key, k));

    sk_after.encode_encrypt_rlwe_ternary(&mut ct_before, &messages, &mut ctx);
    ksk.subs(&mut ct_after, &ct_before);

    let mut decrypted = ctx.gen_zero_pt();
    sk_after.ternary_decrypt_rlwe(&mut decrypted, &ct_after);

    let expected = eval_x_k(&messages, k);
    assert_eq!(decrypted, expected);
}

#[test]
fn test_eval_poly() {
    let neg_one = u64::MAX;
    let neg_two = neg_one - 1;
    let neg_three = neg_one - 2;
    let poly = vec![0u64, 1, 2, 3];
    {
        let out = eval_x_k(&poly, 3);
        let expected = vec![0u64, 3, neg_two, 1];
        assert_eq!(out, expected);
    }
    {
        let out = eval_x_k(&poly, 5);
        let expected = vec![0u64, neg_one, 2, neg_three];
        assert_eq!(out, expected);
    }
}

#[test]
fn test_trace1() {
    let mut ctx = default_ctx();
    let n = ctx.poly_size;

    let orig_msg = binary_pt(n);
    let mut encoded_msg = orig_msg.clone();
    ctx.codec.poly_encode(&mut encoded_msg);
    // the trace multiplies the constant coefficient by n
    for coeff in encoded_msg.iter_mut() {
        *coeff /= n as u64;
    }

    let sk = gen_sk(&mut ctx);
    let mut ct = RLWECiphertext::allocate(ctx.poly_size, ctx.modulus);

    let all_ksk = gen_all_subs_ksk(&sk, &mut ctx);
    assert_eq!(all_ksk.len(), 11);
    for k in [2049usize, 1025, 513, 257, 129, 65, 33, 17, 9, 5, 3] {
        assert_eq!(all_ksk.get(&k).unwrap().get_subs_k(), k);
    }

    sk.encrypt_rlwe_binary(&mut ct, &encoded_msg, &mut ctx.encryption_generator);
    let out = ct.trace1(&all_ksk);

    let mut decrypted = ctx.gen_zero_pt();
    sk.decrypt_decode_rlwe(&mut decrypted, &out, &ctx);

    let mut expected = ctx.gen_zero_pt();
    expected[0] = orig_msg[0];
    assert_eq!(decrypted, expected);
}

#[test]
fn test_binary_enc() {
    let mut ctx = default_ctx();
    let ptxt_expected = binary_pt(ctx.poly_size);

    let sk = gen_sk(&mut ctx);
    let mut ct = RLWECiphertext::allocate(ctx.poly_size, ctx.modulus);
    sk.encode_encrypt_rlwe_binary(&mut ct, &ptxt_expected, &mut ctx);

    let mut ptxt_actual = ctx.gen_zero_pt();
    sk.decrypt_decode_rlwe(&mut ptxt_actual, &ct, &ctx);

    assert_eq!(ptxt_actual, ptxt_expected);
}

#[test]
fn test_ternary_enc() {
    let mut ctx = default_ctx();
    let ptxt_expected = ternary_pt(ctx.poly_size);

    let sk = gen_sk(&mut ctx);
    let mut ct = RLWECiphertext::allocate(ctx.poly_size, ctx.modulus);
    sk.encode_encrypt_rlwe_ternary(&mut ct, &ptxt_expected, &mut ctx);

    let mut ptxt_actual = ctx.gen_zero_pt();
    sk.ternary_decrypt_rlwe(&mut ptxt_actual, &ct);

    assert_eq!(ptxt_actual, ptxt_expected);
}

#[test]
fn test_encrypt_rgsw() {
    let mut ctx = default_ctx();
    let n = ctx.poly_size;
    let gsw_pt = binary_pt(n);
    let one_pt = unit_pt(n);

    let sk = gen_sk(&mut ctx);
    let mut gsw_ct = RGSWCiphertext::allocate(ctx.poly_size, ctx.base_log, ctx.level_count, ctx.modulus);
    let mut lwe_ct = RLWECiphertext::allocate(ctx.poly_size, ctx.modulus);

    sk.encrypt_rgsw(&mut gsw_ct, &gsw_pt, &mut ctx);
    sk.encode_encrypt_rlwe_binary(&mut lwe_ct, &one_pt, &mut ctx);

    {
        // the first row is (a + m * q/B, a * s + e): once m * q/B is taken
        // off the mask, it decrypts to a small noise
        let mut pt = gsw_pt.clone();
        mul_const(&mut pt, 1u64 << (64 - ctx.base_log));
        let mut row_ct = gsw_ct.get_nth_row(0);
        row_ct.update_mask_with_sub(&pt);
        assert!(noise_max(&sk, &row_ct, &ctx.gen_zero_pt()) <= 1);
    }
    {
        // the second row encrypts m * q/B
        let row_ct = gsw_ct.get_nth_row(1);
        let mut pt = gsw_pt.clone();
        mul_const(&mut pt, 1u64 << (64 - ctx.base_log));
        assert!(noise_max(&sk, &row_ct, &pt) <= 1);
    }
    {
        // the last row encrypts m * q/B^l
        let row_ct = gsw_ct.get_last_row();
        let mut pt = gsw_pt.clone();
        mul_const(&mut pt, 1u64 << (64 - ctx.base_log * ctx.level_count));
        assert!(noise_max(&sk, &row_ct, &pt) <= 1);
    }

    let mut prod_ct = RLWECiphertext::allocate(ctx.poly_size, ctx.modulus);
    gsw_ct.external_product(&mut prod_ct, &lwe_ct);
    let mut actual_pt = ctx.gen_zero_pt();
    sk.decrypt_decode_rlwe(&mut actual_pt, &prod_ct, &ctx);

    assert_eq!(actual_pt, gsw_pt);
}

#[test]
fn test_negs() {
    let mut ctx = default_ctx();
    let n = ctx.poly_size;

    let sk = gen_sk(&mut ctx);
    let neg_sk: Vec<u64> = sk.key.iter().map(|y| y.wrapping_mul(u64::MAX)).collect();
    let neg_gsw_sk = sk.neg_gsw(&mut ctx);
    {
        let row_ct = neg_gsw_sk.get_last_row();
        let mut row_pt = neg_sk.clone();
        mul_const(&mut row_pt, 1u64 << (64 - ctx.base_log * ctx.negs_level_count));
        assert!(noise_max(&sk, &row_ct, &row_pt) <= 1);
    }
    {
        let row_ct = neg_gsw_sk.get_nth_row(1);
        let mut row_pt = neg_sk.clone();
        mul_const(&mut row_pt, 1u64 << (64 - ctx.base_log));
        assert!(noise_max(&sk, &row_ct, &row_pt) <= 1);
    }

    let one_pt = unit_pt(n);
    let mut ct_lwe = RLWECiphertext::allocate(ctx.poly_size, ctx.modulus);
    sk.encode_encrypt_rlwe_ternary(&mut ct_lwe, &one_pt, &mut ctx);

    let mut ct_prod = RLWECiphertext::allocate(ctx.poly_size, ctx.modulus);
    neg_gsw_sk.external_product(&mut ct_prod, &ct_lwe);

    let mut actual = ctx.gen_zero_pt();
    sk.ternary_decrypt_rlwe(&mut actual, &ct_prod);

    assert_eq!(actual, neg_sk);
}

/// RLWE encryptions, one per level `l`, of a polynomial with random
/// ternary coefficients whose constant coefficient is `bit << (64 - base_log * l - log N)`:
/// the trace turns them into encryptions of `bit * 2^(64 - base_log * l)`.
fn make_decomposed_rlwe_ct(sk: &RLWESecretKey, bit: u64, ctx: &mut Context) -> Vec<RLWECiphertext> {
    let logn = panacea::poly::log2(ctx.poly_size);
    (1..=ctx.level_count)
        .map(|level| {
            let shift = 64 - ctx.base_log * level - logn;
            let mut p = ternary_pt(ctx.poly_size);
            p[0] = bit << shift;
            let mut ct = RLWECiphertext::allocate(ctx.poly_size, ctx.modulus);
            sk.encrypt_rlwe_ternary(&mut ct, &p, &mut ctx.encryption_generator);
            ct
        })
        .collect()
}

#[test]
fn test_expand() {
    let mut ctx = small_ctx(64);

    let sk = gen_sk(&mut ctx);
    let neg_sk_ct = sk.neg_gsw(&mut ctx);
    let ksk_map = gen_all_subs_ksk(&sk, &mut ctx);

    let test_pt = binary_pt(ctx.poly_size);
    let mut test_ct = RLWECiphertext::allocate(ctx.poly_size, ctx.modulus);
    sk.encode_encrypt_rlwe_binary(&mut test_ct, &test_pt, &mut ctx);

    {
        let one_cts = make_decomposed_rlwe_ct(&sk, 1, &mut ctx);
        let gsw_ct = expand(&one_cts, &ksk_map, &neg_sk_ct, &ctx);

        let mut lwe_ct = RLWECiphertext::allocate(ctx.poly_size, ctx.modulus);
        gsw_ct.external_product(&mut lwe_ct, &test_ct);
        let mut pt = ctx.gen_zero_pt();
        sk.decrypt_decode_rlwe(&mut pt, &lwe_ct, &ctx);
        assert_eq!(test_pt, pt);
    }
    {
        let zero_cts = make_decomposed_rlwe_ct(&sk, 0, &mut ctx);
        let gsw_ct = expand(&zero_cts, &ksk_map, &neg_sk_ct, &ctx);

        let mut lwe_ct = RLWECiphertext::allocate(ctx.poly_size, ctx.modulus);
        gsw_ct.external_product(&mut lwe_ct, &test_ct);
        let mut pt = ctx.gen_zero_pt();
        sk.decrypt_decode_rlwe(&mut pt, &lwe_ct, &ctx);
        assert_eq!(ctx.gen_zero_pt(), pt);
    }
}

#[test]
fn test_less_eq() {
    let mut ctx = small_ctx(32);
    let sk = gen_sk(&mut ctx);

    let m = ctx.poly_size / 2;
    let mut ptxt = ctx.gen_zero_pt();
    ptxt[m] = 1;

    for i in 1..(ctx.poly_size - m) {
        let mut ct = RLWECiphertext::allocate(ctx.poly_size, ctx.modulus);
        sk.encode_encrypt_rlwe_binary(&mut ct, &ptxt, &mut ctx);

        ct.less_eq_than(m + i);
        let mut out = ctx.gen_zero_pt();
        sk.decrypt_decode_rlwe(&mut out, &ct, &ctx);
        assert_eq!(out[0], 1);
    }

    for i in 1..(ctx.poly_size - m) {
        let mut ct = RLWECiphertext::allocate(ctx.poly_size, ctx.modulus);
        sk.encode_encrypt_rlwe_binary(&mut ct, &ptxt, &mut ctx);

        ct.less_eq_than(m - i);
        let mut out = ctx.gen_zero_pt();
        sk.decrypt_decode_rlwe(&mut out, &ct, &ctx);
        assert_eq!(out[0], 0);
    }
}

#[test]
fn test_eq_to() {
    let mut ctx = small_ctx(32);
    let sk = gen_sk(&mut ctx);

    let m = ctx.poly_size / 2;
    let mut ptxt = ctx.gen_zero_pt();
    ptxt[m] = 1;

    for i in 0..ctx.poly_size {
        let mut ct = RLWECiphertext::allocate(ctx.poly_size, ctx.modulus);
        sk.encode_encrypt_rlwe_binary(&mut ct, &ptxt, &mut ctx);

        ct.eq_to(i);
        let mut out = ctx.gen_zero_pt();
        sk.decrypt_decode_rlwe(&mut out, &ct, &ctx);
        if i == m {
            assert_eq!(out[0], 1);
        } else {
            assert_eq!(out[0], 0);
        }
    }
}

#[test]
fn test_compute_noise() {
    let mut ctx = default_ctx();
    let sk = gen_sk(&mut ctx);

    let zero_msg = ctx.gen_zero_pt();
    let mut binary_msg = binary_pt(ctx.poly_size);
    ctx.codec.poly_encode(&mut binary_msg);

    let mut ct = RLWECiphertext::allocate(ctx.poly_size, ctx.modulus);
    let mut ct_zero = RLWECiphertext::allocate(ctx.poly_size, ctx.modulus);
    sk.encrypt_rlwe_binary(&mut ct, &binary_msg, &mut ctx.encryption_generator);
    sk.encrypt_rlwe_binary(&mut ct_zero, &zero_msg, &mut ctx.encryption_generator);

    // binary noise: every error is 0 or 1
    let noise_0 = noise_max(&sk, &ct, &binary_msg);
    assert!(noise_0 <= 1);

    // adding another ciphertext adds its noise
    ct.update_with_add(&ct_zero);
    let noise_1 = noise_max(&sk, &ct, &binary_msg);
    assert!(noise_0 < noise_1);
    assert!(noise_1 <= 2);
}

#[test]
fn test_not_in_place() {
    let mut ctx = default_ctx();
    ctx.codec = Codec::new(2);
    let sk = gen_sk(&mut ctx);

    let one = unit_pt(ctx.poly_size);
    let mut one_ct = RLWECiphertext::allocate(ctx.poly_size, ctx.modulus);
    sk.encode_encrypt_rlwe_binary(&mut one_ct, &one, &mut ctx);
    one_ct.not_in_place();
    let mut actual = ctx.gen_zero_pt();
    sk.decrypt_decode_rlwe(&mut actual, &one_ct, &ctx);
    let expected = ctx.gen_zero_pt();
    assert_eq!(expected, actual);

    {
        one_ct.not_in_place();
        let mut actual = ctx.gen_zero_pt();
        sk.decrypt_decode_rlwe(&mut actual, &one_ct, &ctx);
        assert_eq!(one, actual);
    }
}

#[test]
fn test_not() {
    let mut ctx = default_ctx();
    ctx.codec = Codec::new(2);
    let sk = gen_sk(&mut ctx);

    let one = unit_pt(ctx.poly_size);
    let mut one_ct = RLWECiphertext::allocate(ctx.poly_size, ctx.modulus);
    sk.encode_encrypt_rlwe_binary(&mut one_ct, &one, &mut ctx);

    {
        let mut actual = ctx.gen_zero_pt();
        sk.decrypt_decode_rlwe(&mut actual, &one_ct.not(), &ctx);
        assert_eq!(ctx.gen_zero_pt(), actual);
    }

    {
        let mut actual = ctx.gen_zero_pt();
        sk.decrypt_decode_rlwe(&mut actual, &one_ct.not().not(), &ctx);
        assert_eq!(one, actual);
    }
}

#[test]
fn test_not_custom_modulus() {
    // with the custom modulus q = 2^32, x becomes q - x (0 stays 0), and
    // 2^63 is added to the constant coefficient of the body
    let q: u128 = 1 << 32;
    let ct = RLWECiphertext { mask: vec![0, 1, 5, 7], body: vec![3, 0, 2, 9], modulus: q };
    let r = ct.not();
    assert_eq!(r.mask, vec![0, (1u64 << 32) - 1, (1u64 << 32) - 5, (1u64 << 32) - 7]);
    assert_eq!(r.body, vec![(1u64 << 32) - 3 + (1u64 << 63), 0, (1u64 << 32) - 2, (1u64 << 32) - 9]);
    assert_eq!(r.modulus, q);
}

#[test]
fn test_noise_max_encoded() {
    let mut ctx = small_ctx(64);
    let sk = gen_sk(&mut ctx);
    let msg = binary_pt(ctx.poly_size);
    let mut ct = RLWECiphertext::allocate(ctx.poly_size, ctx.modulus);
    sk.encode_encrypt_rlwe_binary(&mut ct, &msg, &mut ctx);
    assert!(noise_max_encoded(&sk, &ct, &msg, &ctx.codec) <= 1);
    // against another plaintext the difference is a whole delta
    let mut other = msg.clone();
    other[0] ^= 1;
    assert!(noise_max_encoded(&sk, &ct, &other, &ctx.codec) >= ctx.codec.delta() - 1);
}

#[test]
fn test_noise_max_ternary() {
    let mut ctx = small_ctx(64);
    let sk = gen_sk(&mut ctx);
    // the plaintext is decoded as a ternary one before the comparison:
    // encoded ternary values decode back to 0, 1 and -1
    let msg = ternary_pt(ctx.poly_size);
    let mut encoded = msg.clone();
    Codec::poly_ternary_encode(&mut encoded);
    let mut ct = RLWECiphertext::allocate(ctx.poly_size, ctx.modulus);
    sk.encrypt_rlwe_binary(&mut ct, &msg, &mut ctx.encryption_generator);
    assert!(noise_max_ternary(&sk, &ct, &encoded) <= 1);
}

#[test]
fn test_external_product_with_monomial_rotates() {
    let mut ctx = small_ctx(64);
    let n = ctx.poly_size;
    let t = ctx.codec.pt_modulus;
    let j = 5usize;
    let messages: Vec<u64> = (0..n).map(|i| ((i * 37 + 11) as u64) % t).collect();
    let mut monomial = vec![0u64; n];
    monomial[j] = 1;

    let sk = gen_sk(&mut ctx);
    let mut gsw_ct = RGSWCiphertext::allocate(ctx.poly_size, ctx.base_log, ctx.level_count, ctx.modulus);
    sk.encrypt_rgsw(&mut gsw_ct, &monomial, &mut ctx);
    let mut ct = RLWECiphertext::allocate(ctx.poly_size, ctx.modulus);
    sk.encode_encrypt_rlwe_binary(&mut ct, &messages, &mut ctx);

    let mut prod_ct = RLWECiphertext::allocate(ctx.poly_size, ctx.modulus);
    gsw_ct.external_product(&mut prod_ct, &ct);
    let mut actual = ctx.gen_zero_pt();
    sk.decrypt_decode_rlwe(&mut actual, &prod_ct, &ctx);

    // X^j * m over Z_t[X]/(X^n + 1)
    let expected: Vec<u64> = (0..n)
        .map(|k| if k >= j { messages[k - j] } else { (t - messages[k + n - j]) % t })
        .collect();
    assert_eq!(actual, expected);
}

#[test]
fn test_gen_all_subs_ksk_key_set() {
    let mut ctx = small_ctx(64);
    let sk = gen_sk(&mut ctx);
    let all_ksk = gen_all_subs_ksk(&sk, &mut ctx);
    let mut keys: Vec<usize> = all_ksk.keys().copied().collect();
    keys.sort();
    assert_eq!(keys, vec![3, 5, 9, 17, 33, 65]);
    for (k, v) in all_ksk.iter() {
        assert_eq!(v.get_subs_k(), *k);
        assert_eq!(v.decomposition_base_log(), 5);
        assert_eq!(v.decomposition_level_count(), 9);
        assert_eq!(v.polynomial_size(), 64);
    }
}
