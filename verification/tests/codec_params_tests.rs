use panacea::codec::Codec;
use panacea::context::Context;
use panacea::params::{InputParamsList, ORAMParameters, ServerParams, TFHEParameters};
use panacea::oram::negacyclic_mul;
use panacea::poly::{eval_x_k, log2, mul_const, pow2_usize, slice_add_assign, slice_sub_assign};
use panacea::rgsw::RGSWCiphertext;
use panacea::rlwe::{RLWECiphertext, RLWESecretKey};

#[test]
fn test_codec_formulas() {
    let codec = Codec::new(256);
    assert_eq!(codec.pt_modulus(), 256);
    assert_eq!(codec.pt_modulus_bits(), 8);
    assert_eq!(codec.delta(), 1u64 << 56);

    let mut x = 3u64;
    codec.encode(&mut x);
    assert_eq!(x, 3u64 << 56);
    codec.decode(&mut x);
    assert_eq!(x, 3);

    // the decoder rounds to the closest multiple of delta
    let mut y = (5u64 << 56) + (1u64 << 55) - 1;
    codec.decode(&mut y);
    assert_eq!(y, 5);
    let mut z = (5u64 << 56) + (1u64 << 55);
    codec.decode(&mut z);
    assert_eq!(z, 6);
    // and wraps around the modulus
    let mut w = u64::MAX;
    codec.decode(&mut w);
    assert_eq!(w, 0);
}

#[test]
fn test_codec_poly_and_ternary() {
    let codec = Codec::new(2);
    let mut p = vec![0u64, 1, 1, 0];
    codec.poly_encode(&mut p);
    assert_eq!(p, vec![0, 1u64 << 63, 1u64 << 63, 0]);
    codec.poly_decode(&mut p);
    assert_eq!(p, vec![0u64, 1, 1, 0]);

    let mut t = vec![0u64, 1, u64::MAX];
    Codec::poly_ternary_encode(&mut t);
    assert_eq!(t, vec![0, 1u64 << 62, 3u64 << 62]);
    Codec::poly_ternary_decode(&mut t);
    assert_eq!(t, vec![0u64, 1, u64::MAX]);
}

#[test]
fn test_codec_roundtrip_with_noise() {
    let codec = Codec::new(1 << 4);
    for m in 0..16u64 {
        for e in [0u64, 1, (1u64 << 59) - 1] {
            let mut x = m;
            codec.encode(&mut x);
            x = x.wrapping_add(e);
            codec.decode(&mut x);
            assert_eq!(x, m);
        }
    }
}

#[test]
fn test_default_params() {
    let p = TFHEParameters::default();
    assert_eq!(p.polynomial_size, 2048);
    assert_eq!(p.base_log, 5);
    assert_eq!(p.level_count, 6);
    assert_eq!(p.key_switch_base_log, 5);
    assert_eq!(p.key_switch_level_count, 9);
    assert_eq!(p.negs_base_log, 5);
    assert_eq!(p.negs_level_count, 9);
    assert_eq!(p.plaintext_modulus, 256);
    assert!(p.secure_seed);
    assert_eq!(p.modulus, 1u128 << 64);

    match ORAMParameters::default() {
        ORAMParameters::Batched { rows, cols, iterations } => {
            assert_eq!((rows, cols, iterations), (384, 16, 1));
        }
        _ => panic!("the default ORAM shape is batched"),
    }
    let s = ServerParams::default();
    assert_eq!(s.tfhe.polynomial_size, 2048);
    let l = InputParamsList::default();
    assert_eq!(l.list.len(), 1);
    assert_eq!(l.list[0].0.len(), 1);
    assert_eq!(l.list[0].1.len(), 1);
}

#[test]
fn test_from_input_params_list() {
    let mut small = TFHEParameters::default();
    small.polynomial_size = 1024;
    let input = InputParamsList {
        list: vec![
            (
                vec![
                    ORAMParameters::SingleQuery { item_count: 4, iterations: 1 },
                    ORAMParameters::Batched { rows: 2, cols: 3, iterations: 2 },
                ],
                vec![TFHEParameters::default(), small],
            ),
            (vec![ORAMParameters::MultiQuery { item_count: 8, query_count: 2, iterations: 1 }], vec![small]),
            (vec![], vec![small]),
        ],
    };
    let out = ServerParams::from_input_params_list(input);
    assert_eq!(out.len(), 5);
    let sizes: Vec<usize> = out.iter().map(|p| p.tfhe.polynomial_size).collect();
    assert_eq!(sizes, vec![2048, 1024, 2048, 1024, 1024]);
    assert!(matches!(out[0].oram, ORAMParameters::SingleQuery { item_count: 4, .. }));
    assert!(matches!(out[2].oram, ORAMParameters::Batched { rows: 2, cols: 3, .. }));
    assert!(matches!(out[4].oram, ORAMParameters::MultiQuery { query_count: 2, .. }));
}

#[test]
fn test_context_sizes() {
    let mut p = TFHEParameters::default();
    p.polynomial_size = 32;
    p.secure_seed = false;
    let ctx = Context::new(p);
    assert_eq!(ctx.plaintext_count(), 32);
    assert_eq!(ctx.lwe_dim(), 32);
    assert_eq!(ctx.lwe_size(), 33);
    assert_eq!(ctx.gen_zero_pt(), vec![0u64; 32]);
    assert_eq!(ctx.codec.pt_modulus(), 256);
}

#[test]
fn test_seeded_contexts_agree() {
    // without a secure seed, two contexts draw the same keys
    let mut p = TFHEParameters::default();
    p.polynomial_size = 32;
    p.secure_seed = false;
    let mut c1 = Context::new(p);
    let mut c2 = Context::new(p);
    let k1 = RLWESecretKey::generate_binary(32, &mut c1.secret_generator);
    let k2 = RLWESecretKey::generate_binary(32, &mut c2.secret_generator);
    assert_eq!(k1.key, k2.key);
    assert!(k1.key.iter().all(|x| *x <= 1));
    assert_eq!(k1.polynomial_size(), 32);
}

#[test]
fn test_poly_helpers() {
    assert_eq!(log2(1), 0);
    assert_eq!(log2(2), 1);
    assert_eq!(log2(2048), 11);
    assert_eq!(log2(3000), 11);
    assert_eq!(pow2_usize(5, 100), 32);

    let mut a = vec![1u64, u64::MAX, 5];
    slice_add_assign(&mut a, &[2, 2, 2]);
    assert_eq!(a, vec![3u64, 1, 7]);
    slice_sub_assign(&mut a, &[4, 1, 7]);
    assert_eq!(a, vec![u64::MAX, 0, 0]);
    mul_const(&mut a, 3);
    assert_eq!(a, vec![u64::MAX - 2, 0, 0]);
}

#[test]
fn test_rlwe_polynomial_ops() {
    let mut ct = RLWECiphertext::allocate(4, 1u128 << 64);
    assert_eq!(ct.polynomial_size(), 4);
    assert_eq!(ct.ciphertext_modulus(), 1u128 << 64);
    ct.fill_with_slice(&[1, 2, 3, 4, 5, 6, 7, 8]);
    assert_eq!(ct.get_mask(), &[1u64, 2, 3, 4][..]);
    assert_eq!(ct.get_body(), &[5u64, 6, 7, 8][..]);

    // X * mask
    let x = vec![0u64, 1, 0, 0];
    ct.update_mask_with_mul(&x);
    assert_eq!(ct.mask, vec![0u64.wrapping_sub(4), 1, 2, 3]);
    ct.update_body_with_mul_with_buf(&x);
    assert_eq!(ct.body, vec![0u64.wrapping_sub(8), 5, 6, 7]);

    let other = RLWECiphertext { mask: vec![1, 1, 1, 1], body: vec![2, 2, 2, 2], modulus: 1u128 << 64 };
    ct.update_with_add(&other);
    assert_eq!(ct.mask, vec![0u64.wrapping_sub(3), 2, 3, 4]);
    ct.update_with_sub(&other);
    assert_eq!(ct.body, vec![0u64.wrapping_sub(8), 5, 6, 7]);

    let mut copy = RLWECiphertext::allocate(4, 1u128 << 64);
    copy.fill_with_copy(&ct);
    assert_eq!(copy.mask, ct.mask);
    copy.clear();
    assert_eq!(copy.mask, vec![0u64; 4]);
    assert_eq!(copy.body, vec![0u64; 4]);
}

#[test]
fn test_not_in_place_values() {
    // (a, b) becomes (-a, q/2 - b)
    let mut ct = RLWECiphertext { mask: vec![1, 0], body: vec![5, 7], modulus: 1u128 << 64 };
    ct.not_in_place();
    assert_eq!(ct.mask, vec![u64::MAX, 0]);
    assert_eq!(ct.body, vec![(1u64 << 63) - 5, 0u64.wrapping_sub(7)]);
    ct.not_in_place();
    assert_eq!(ct.mask, vec![1u64, 0]);
    assert_eq!(ct.body, vec![5u64, 7]);
}

#[test]
fn test_rgsw_rows() {
    let mut g = RGSWCiphertext::allocate(2, 5, 2, 1u128 << 64);
    assert_eq!(g.data.len(), 16);
    let row = RLWECiphertext { mask: vec![1, 2], body: vec![3, 4], modulus: 1u128 << 64 };
    g.set_nth_row(2, &row);
    let back = g.get_nth_row(2);
    assert_eq!(back.mask, vec![1u64, 2]);
    assert_eq!(back.body, vec![3u64, 4]);
    assert_eq!(g.data, vec![0, 0, 0, 0, 0, 0, 0, 0, 1, 2, 3, 4, 0, 0, 0, 0]);
    let last = g.get_last_row();
    assert_eq!(last.mask, vec![0u64, 0]);
}

#[test]
fn test_eval_x_k_is_multiplicative() {
    let n = 8usize;
    let a: Vec<u64> = vec![3, 0, u64::MAX, 7, 1, 0, 2, 5];
    let b: Vec<u64> = vec![1, 4, 0, 0, 9, u64::MAX - 2, 6, 0];
    for k in [1usize, 3, 5, 7, 9, 15] {
        let lhs = eval_x_k(&negacyclic_mul(&a, &b, n), k);
        let rhs = negacyclic_mul(&eval_x_k(&a, k), &eval_x_k(&b, k), n);
        assert_eq!(lhs, rhs, "k = {}", k);
    }
    // X -> X^3 sends X to X^3 and X^3 to X^9 = -X
    let x: Vec<u64> = vec![0, 1, 0, 0, 0, 0, 0, 0];
    assert_eq!(eval_x_k(&x, 3), vec![0, 0, 0, 1, 0, 0, 0, 0]);
    let x3: Vec<u64> = vec![0, 0, 0, 1, 0, 0, 0, 0];
    assert_eq!(eval_x_k(&x3, 3), vec![0, u64::MAX, 0, 0, 0, 0, 0, 0]);
}

#[test]
fn test_eval_x_k_commutes_with_phase() {
    let n = 8usize;
    let s: Vec<u64> = vec![1, 0, 1, 1, 0, 0, 1, 0];
    let a: Vec<u64> = vec![12, 99, 3, u64::MAX, 42, 7, 0, 1 << 40];
    let b: Vec<u64> = vec![5, 6, 7, 8, 9, 10, 11, 12];
    let phase = |s: &[u64], a: &[u64], b: &[u64]| -> Vec<u64> {
        let prod = negacyclic_mul(a, s, n);
        b.iter().zip(prod.iter()).map(|(x, y)| x.wrapping_sub(*y)).collect::<Vec<u64>>()
    };
    let k = 5usize;
    let lhs = phase(&eval_x_k(&s, k), &eval_x_k(&a, k), &eval_x_k(&b, k));
    let rhs = eval_x_k(&phase(&s, &a, &b), k);
    assert_eq!(lhs, rhs);
}

#[test]
fn test_decrypt_under_custom_moduli() {
    // mask * key for key 1 + X^2 and mask 1 + 2X + 3X^2 + 4X^3 is -2 - 2X + 4X^2 + 6X^3
    let sk = RLWESecretKey { key: vec![1, 0, 1, 0] };
    let mask = vec![1u64, 2, 3, 4];

    // native modulus: the phase itself
    let ct = RLWECiphertext { mask: mask.clone(), body: vec![5, 6, 7, 8], modulus: 1u128 << 64 };
    let mut pt = vec![0u64; 4];
    sk.decrypt_rlwe(&mut pt, &ct);
    assert_eq!(pt, vec![7, 8, 3, 2]);

    // modulus 2^32: the phase divided by 2^32
    let body: Vec<u64> = [5u64, 6, 7, 8].iter().map(|b| b << 32).collect();
    let ct = RLWECiphertext { mask: mask.clone(), body, modulus: 1u128 << 32 };
    let mut pt = vec![0u64; 4];
    sk.decrypt_rlwe(&mut pt, &ct);
    assert_eq!(pt, vec![5, 6, 6, 7]);

    // modulus 17: the phase modulo 17
    let ct = RLWECiphertext { mask, body: vec![5, 6, 7, 16], modulus: 17 };
    let mut pt = vec![0u64; 4];
    sk.decrypt_rlwe(&mut pt, &ct);
    assert_eq!(pt, vec![7, 8, 3, 10]);
}

#[test]
fn test_noise_max_any_key() {
    // the key need not be binary: the phase of (X^0, 5) under 2 is 3
    let sk = RLWESecretKey { key: vec![2, 0, 0, 0] };
    let ct = RLWECiphertext { mask: vec![1, 0, 0, 0], body: vec![5, 0, 0, 0], modulus: 1u128 << 64 };
    assert_eq!(panacea::rlwe::noise_max(&sk, &ct, &[3, 0, 0, 0]), 0);
    assert_eq!(panacea::rlwe::noise_max(&sk, &ct, &[3, 0, 0, 1]), 1);
}
