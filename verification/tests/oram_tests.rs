use panacea::keyswitch::gen_all_subs_ksk;
use panacea::oram::{
    db_row, delta_scaled, gen_fixed_mask, negacyclic_mul, recover_row, set_db_row,
    setup_random_oram_row_retrieval, Client,
};
use panacea::params::TFHEParameters;
use panacea::poly::{log2, rotate_poly};

const NATIVE: u128 = 1u128 << 64;

fn small_params(n: usize) -> TFHEParameters {
    TFHEParameters {
        polynomial_size: n,
        base_log: 5,
        level_count: 6,
        key_switch_base_log: 5,
        key_switch_level_count: 9,
        negs_base_log: 5,
        negs_level_count: 9,
        plaintext_modulus: 1 << 8,
        secure_seed: false,
        modulus: NATIVE,
    }
}

#[test]
fn test_negacyclic_mul_values() {
    // (1 + 2X) * (3 + X^3) = 3 + 6X + X^3 + 2X^4 = (3 - 2) + 6X + X^3 mod X^4 + 1
    let a = vec![1u64, 2, 0, 0];
    let b = vec![3u64, 0, 0, 1];
    assert_eq!(negacyclic_mul(&a, &b, 4), vec![1u64, 6, 0, 1]);
    // X^3 * X = X^4 = -1
    let x3 = vec![0u64, 0, 0, 1];
    let x1 = vec![0u64, 1, 0, 0];
    assert_eq!(negacyclic_mul(&x3, &x1, 4), vec![u64::MAX, 0, 0, 0]);
    // only the first n coefficients are read
    assert_eq!(negacyclic_mul(&[5u64, 7, 9], &[2u64, 1, 4], 2), vec![10u64.wrapping_sub(7), 19]);
}

#[test]
fn test_rotate_poly_values() {
    // X^1 * (1 + 2X + 3X^2 + 4X^3) = -4 + X + 2X^2 + 3X^3
    let src = vec![1u64, 2, 3, 4];
    let mut dst = vec![0u64; 4];
    rotate_poly(&mut dst, &src, 1, false, 4);
    assert_eq!(dst, vec![0u64.wrapping_sub(4), 1, 2, 3]);
    // -X^2 * src = 3 + 4X - X^2 - 2X^3
    rotate_poly(&mut dst, &src, 2, true, 4);
    assert_eq!(dst, vec![3u64, 4, 0u64.wrapping_sub(1), 0u64.wrapping_sub(2)]);
}

#[test]
fn test_write_rotations_inverse() {
    // X^(N - r) * (-X^r) = -X^N = 1, and for r = 0 both rotations are 1
    let n = 8usize;
    for row in 0..n {
        let mut fwd = vec![0u64; n];
        fwd[(n - row) % n] = 1;
        let mut rev = vec![0u64; n];
        if row == 0 {
            rev[0] = 1;
        } else {
            rev[row] = u64::MAX;
        }
        let mut one = vec![0u64; n];
        one[0] = 1;
        assert_eq!(negacyclic_mul(&fwd, &rev, n), one);
    }
}

#[test]
fn test_gen_fixed_mask_deterministic() {
    let a = gen_fixed_mask(42, 16);
    let b = gen_fixed_mask(42, 16);
    let c = gen_fixed_mask(43, 16);
    assert_eq!(a.len(), 16);
    assert_eq!(a, b);
    assert_ne!(a, c);
}

#[test]
fn test_gen_fixed_mask_prefix() {
    let long = gen_fixed_mask(7, 32);
    let short = gen_fixed_mask(7, 5);
    assert_eq!(short[..], long[..5]);
    assert!(gen_fixed_mask(7, 0).is_empty());
}

#[test]
fn test_delta_scaled_values() {
    assert_eq!(delta_scaled(8, 11), 1u64 << 45);
    assert_eq!(delta_scaled(1, 0), 1u64 << 63);
    assert_eq!(delta_scaled(8, 56), 1);
}

#[test]
fn test_recover_row_values() {
    let t = 256u64;
    // row 0: entries reduced modulo t
    assert_eq!(recover_row(&[3, 258, 0], 0, t), vec![3u64, 2, 0]);
    // other rows: the sign of the rotation is undone first
    assert_eq!(recover_row(&[u64::MAX, 0u64.wrapping_sub(5), 0], 3, t), vec![1u64, 5, 0]);
}

#[test]
fn test_db_rows() {
    let mut db: Vec<u64> = (0..12).collect();
    assert_eq!(db_row(&db, 1, 4), vec![4u64, 5, 6, 7]);
    set_db_row(&mut db, 2, &[40, 41, 42, 43, 99], 4);
    assert_eq!(db, vec![0u64, 1, 2, 3, 4, 5, 6, 7, 40, 41, 42, 43]);
    assert_eq!(db_row(&db, 2, 4), vec![40u64, 41, 42, 43]);
}

#[test]
fn test_dummy_database_range() {
    let mut client = Client::new(3, 5, small_params(16));
    let db = client.gen_dummy_database();
    assert_eq!(db.len(), 15);
    assert!(db.iter().all(|x| *x < 256));
}

#[test]
fn test_encrypt_database_transposed() {
    let n = 16usize;
    let mut client = Client::new(1, 2 * n, small_params(n));
    let db: Vec<u64> = (0..2 * n as u64).map(|x| x % 7).collect();
    let log_t = client.ctx.codec.pt_modulus_bits();
    let delta = delta_scaled(log_t, log2(n));
    let cts = client.encrypt_database_transposed(&db, delta);
    assert_eq!(cts.len(), n);
    for (j, ct) in cts.iter().enumerate() {
        let mut pt = client.ctx.gen_zero_pt();
        client.sk.decrypt_rlwe(&mut pt, ct);
        // coefficient k of column j is delta * db[k * n + j], up to a binary noise
        for k in 0..n {
            let expected = if k < 2 { delta.wrapping_mul(db[k * n + j]) } else { 0 };
            let e = pt[k].wrapping_sub(expected);
            assert!(e <= 1);
        }
    }
}

#[test]
fn test_oram_full_row_read_write() {
    let n = 16usize;
    let item_count = 4 * n;
    let params = small_params(n);
    let (mut client, mut server, mut db) = setup_random_oram_row_retrieval(1, item_count, params);
    assert_eq!(db.len(), item_count);

    let log_t = client.ctx.codec.pt_modulus_bits();
    let t = params.plaintext_modulus;
    let subs_ksk_map = gen_all_subs_ksk(&client.sk, &mut client.ctx);

    for row_idx in [0usize, 1, 3] {
        let row_rgsw = client.gen_row_read_query(row_idx);
        let result = server.read_full_row_rotpack_cdks(&row_rgsw, &subs_ksk_map);
        let dec = client.decrypt_final_result(result);
        let retrieved = recover_row(&dec, row_idx, t);
        assert_eq!(db_row(&db, row_idx, n), retrieved);
    }

    // write a new row 2, then read it back
    let row_idx = 2usize;
    let delta = delta_scaled(log_t, log2(n));
    let lwe_rlwe_ksk = client.gen_lwe_to_rlwe_ksk();
    let new_row_data: Vec<u64> = (0..n as u64).map(|j| (j * 31 + 7) % t).collect();
    let (fwd, rev, ct_new) = client.gen_row_write_query(row_idx, &new_row_data, delta);
    server.write_full_row(&fwd, &rev, &ct_new, &lwe_rlwe_ksk);
    set_db_row(&mut db, row_idx, &new_row_data, n);

    let row_rgsw = client.gen_row_read_query(row_idx);
    let result = server.read_full_row_rotpack_cdks(&row_rgsw, &subs_ksk_map);
    let dec = client.decrypt_final_result(result);
    assert_eq!(new_row_data, recover_row(&dec, row_idx, t));

    // the other rows are unchanged
    for other in [0usize, 1, 3] {
        let row_rgsw = client.gen_row_read_query(other);
        let result = server.read_full_row_rotpack_cdks(&row_rgsw, &subs_ksk_map);
        let dec = client.decrypt_final_result(result);
        assert_eq!(db_row(&db, other, n), recover_row(&dec, other, t));
    }
}
