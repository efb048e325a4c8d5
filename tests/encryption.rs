use vtfhe::ggsw::{compute_bsk_with_noise, compute_ksk_with_noise};
use vtfhe::lwe::get_testv;
use vtfhe::field::{fe_add, fe_mul, P};
use vtfhe::ggsw::{compute_ksk, const_poly, Ggsw};
use vtfhe::glwe::{key_gen, partial_key, Glwe};
use vtfhe::lwe::{add, decrypt, encrypt, encrypt_with_mask, multiply_constant};
use vtfhe::params::Params;
use vtfhe::poly::Poly;

fn small_params(log_base: usize, levels: usize) -> Params {
    Params { ring_dim: 8, glwe_size: 2, log_base, levels, lwe_dim: 1 }
}

fn centered(x: u64) -> i128 {
    if x > P / 2 {
        x as i128 - P as i128
    } else {
        x as i128
    }
}

#[test]
fn lwe_encrypt_decrypt() {
    let key: Vec<u64> = vec![1, 0, 1, 1];
    let ct = encrypt_with_mask(&key, &vec![10, 20, 30, 40], 1000, 3);
    assert_eq!(ct, vec![10, 20, 30, 40, 10 + 30 + 40 + 1000 + 3]);
    assert_eq!(decrypt(&key, &ct), 1003);
    let ct2 = encrypt(&key, 77, 0);
    assert_eq!(ct2.len(), 5);
    assert_eq!(decrypt(&key, &ct2), 77);
    let ct3 = encrypt(&key, 5, P - 2);
    assert_eq!(decrypt(&key, &ct3), 3);
}

#[test]
fn lwe_linear_combination() {
    let key: Vec<u64> = vec![1, 1, 0];
    let c1 = encrypt(&key, 100, 0);
    let c2 = encrypt(&key, 7, 0);
    let sum = add(&multiply_constant(&c1, 1), &multiply_constant(&c2, 2));
    assert_eq!(decrypt(&key, &sum), 114);
    assert_eq!(multiply_constant(&vec![1, 2, P - 1], 3), vec![3, 6, P - 3]);
    assert_eq!(add(&vec![P - 1, 4], &vec![2, 5]), vec![1, 9]);
}

#[test]
fn glwe_encrypt_decrypt() {
    let prm = small_params(8, 8);
    let key = key_gen(prm);
    let msg = Poly { coeffs: vec![1, 2, 3, 4, 5, 6, 7, 8] };
    let noise = Poly { coeffs: vec![0, 1, 0, P - 1, 0, 0, 0, 2] };
    let c = Glwe::encrypt(&key, &msg, &noise, prm);
    assert_eq!(c.polys.len(), 2);
    assert_eq!(c.decrypt(&key, prm).coeffs, vec![1, 3, 3, 3, 5, 6, 7, 10]);
    let masks = vec![Poly { coeffs: vec![0; 8] }];
    let c0 = Glwe::encrypt_with_masks(&key, masks, &msg, &Poly { coeffs: vec![0; 8] }, prm);
    assert_eq!(c0.polys[1].coeffs, msg.coeffs);
}

#[test]
fn glwe_rotation_and_sum_follow_the_phase() {
    let prm = small_params(8, 8);
    let key = key_gen(prm);
    let msg = Poly { coeffs: vec![1, 2, 3, 4, 5, 6, 7, 8] };
    let zero = Poly { coeffs: vec![0; 8] };
    let c = Glwe::encrypt(&key, &msg, &zero, prm);
    let rotated = c.rotate(2, prm);
    assert_eq!(rotated.decrypt(&key, prm).coeffs, msg.rotate(2).coeffs);
    let doubled = c.add(&c, prm);
    assert_eq!(doubled.decrypt(&key, prm).coeffs, vec![2, 4, 6, 8, 10, 12, 14, 16]);
    let none = c.sub(&c, prm);
    assert_eq!(none.decrypt(&key, prm).coeffs, vec![0; 8]);
}

fn external_product_error(log_base: usize, levels: usize) -> i128 {
    let prm = Params { ring_dim: 8, glwe_size: 2, log_base, levels, lwe_dim: 8 };
    // A binary key keeps the rounding error of the decomposition small.
    let key = partial_key(prm);
    let x = const_poly(1, 8);
    let g = Ggsw::encrypt(&key, &key, &x, 0, prm);
    let msg = Poly { coeffs: vec![3, 1, 4, 1, 5, 9, 2, 6] };
    let delta = P / 16;
    let scaled = msg.scalar_mul(delta);
    let c = Glwe::encrypt(&key, &scaled, &Poly { coeffs: vec![0; 8] }, prm);
    let out = g.external_product(&c, prm).decrypt(&key, prm);
    out.coeffs
        .iter()
        .zip(scaled.coeffs.iter())
        .map(|(a, b)| centered(fe_add(*a, P - *b)).abs())
        .max()
        .unwrap()
}

#[test]
fn external_product_is_exact_with_full_precision() {
    let prm = small_params(8, 8);
    let key = key_gen(prm);
    let bit = const_poly(1, 8);
    let g1 = Ggsw::encrypt(&key, &key, &bit, 0, prm);
    let g0 = Ggsw::encrypt(&key, &key, &const_poly(0, 8), 0, prm);
    let msg = Poly { coeffs: vec![11, 0, P - 5, 7, 1 << 40, 0, 2, 3] };
    let c = Glwe::encrypt(&key, &msg, &Poly { coeffs: vec![0; 8] }, prm);
    assert_eq!(g1.external_product(&c, prm).decrypt(&key, prm).coeffs, msg.coeffs);
    assert_eq!(g0.external_product(&c, prm).decrypt(&key, prm).coeffs, vec![0; 8]);
    // A GGSW of X^2 rotates the phase.
    let mut x2 = vec![0u64; 8];
    x2[2] = 1;
    let g_x2 = Ggsw::encrypt(&key, &key, &Poly { coeffs: x2 }, 0, prm);
    assert_eq!(g_x2.external_product(&c, prm).decrypt(&key, prm).coeffs, msg.rotate(2).coeffs);
    assert_eq!(external_product_error(8, 8), 0);
}

#[test]
fn external_product_error_shrinks_with_more_digits() {
    let coarse = external_product_error(4, 2);
    let finer = external_product_error(4, 6);
    let finest = external_product_error(4, 16);
    assert!(finer <= coarse);
    assert_eq!(finest, 0);
    // The error stays far below the message scale.
    assert!(coarse < (P / 4) as i128);
    assert!(coarse > 0 || finer == 0);
}

#[test]
fn ggsw_noise_stays_within_its_bound() {
    let prm = small_params(8, 8);
    let key = key_gen(prm);
    let bound = 100u64;
    let x = const_poly(1, 8);
    let g = Ggsw::encrypt(&key, &key, &x, bound, prm);
    let mut nonzero = 0;
    for j in 0..2 {
        for l in 0..8 {
            let phase = g.glevs[j].glwes[l].decrypt(&key, prm);
            let w = 1u64 << (64 - 8 * (l + 1));
            let expected = if j == 0 { key[0].mul(&x).neg().scalar_mul(w) } else { x.scalar_mul(w) };
            for t in 0..8 {
                let e = centered(fe_add(phase.coeffs[t], P - expected.coeffs[t]));
                assert!(e.abs() <= bound as i128);
                if e != 0 {
                    nonzero += 1;
                }
            }
        }
    }
    assert!(nonzero > 0);
    // With a full-precision decomposition the noise only moves the phase a little.
    let msg = Poly { coeffs: vec![1 << 60, 0, 0, 0, 0, 0, 0, 3 << 60] };
    let c = Glwe::encrypt(&key, &msg, &Poly { coeffs: vec![0; 8] }, prm);
    let out = g.external_product(&c, prm).decrypt(&key, prm);
    for t in 0..8 {
        assert!(centered(fe_add(out.coeffs[t], P - msg.coeffs[t])).abs() < (1i128 << 20));
    }
}

#[test]
fn key_switch_moves_the_phase_to_the_new_key() {
    let prm = small_params(8, 8);
    let from = key_gen(prm);
    let to = key_gen(prm);
    let ksk = compute_ksk(&to, &from, 0, prm);
    let msg = Poly { coeffs: vec![9, 8, 7, 6, 5, 4, 3, 2] };
    let c = Glwe::encrypt(&from, &msg, &Poly { coeffs: vec![0; 8] }, prm);
    let switched = ksk.external_product(&c, prm);
    assert_eq!(switched.decrypt(&to, prm).coeffs, msg.coeffs);
    assert_eq!(fe_mul(3, 5), 15);
}

#[test]
fn keys_with_given_noise_carry_exactly_that_noise() {
    let prm = small_params(8, 2);
    let key = key_gen(prm);
    let to = key_gen(prm);
    let noise_for = |seed: u64| -> Vec<Vec<Poly>> {
        (0..2u64)
            .map(|j| (0..2u64).map(|l| Poly { coeffs: (0..8u64).map(|t| (seed + 7 * j + 3 * l + t) % 5).collect() }).collect())
            .collect()
    };
    let noise = vec![noise_for(1), noise_for(2)];
    let bsk = compute_bsk_with_noise(&vec![1, 0], &key, &noise, prm);
    assert_eq!(bsk.len(), 2);
    for (i, bit) in [1u64, 0].iter().enumerate() {
        for j in 0..2 {
            for l in 0..2 {
                let phase = bsk[i].glevs[j].glwes[l].decrypt(&key, prm);
                let w = 1u64 << (64 - 8 * (l + 1));
                let x = const_poly(*bit, 8);
                let msg = if j == 0 { key[0].mul(&x).neg() } else { x };
                let expected = msg.scalar_mul(w).add(&noise[i][j][l]);
                assert_eq!(phase.coeffs, expected.coeffs);
            }
        }
    }
    let ksk = compute_ksk_with_noise(&to, &key, &noise_for(3), prm);
    let phase = ksk.glevs[1].glwes[0].decrypt(&to, prm);
    let expected = const_poly(1, 8).scalar_mul(1u64 << 56).add(&noise_for(3)[1][0]);
    assert_eq!(phase.coeffs, expected.coeffs);
}

#[test]
fn test_vector_of_the_identity_table() {
    let delta = P / 4;
    let t = get_testv(2, delta, 8);
    assert_eq!(t.coeffs, vec![0, 0, delta, delta, delta, delta, 0, 0]);
    let t4 = get_testv(4, 10, 8);
    assert_eq!(t4.coeffs, vec![0, 10, 10, 20, 20, 30, 30, 0]);
}

#[test]
fn external_product_error_stays_within_the_noise_bound() {
    let prm = small_params(8, 8);
    let key = key_gen(prm);
    let b = 3u64;
    let noise: Vec<Vec<Poly>> = (0..2)
        .map(|_| (0..8).map(|_| Poly { coeffs: (0..8).map(|_| (rand::random::<u64>() % (2 * b + 1) + P - b) % P).collect() }).collect())
        .collect();
    let g = compute_ksk_with_noise(&key, &key, &noise, prm);
    let msg = Poly { coeffs: vec![5 << 56, 0, 1 << 60, 0, 0, 7 << 56, 0, 0] };
    let c = Glwe::encrypt(&key, &msg, &Poly { coeffs: vec![0; 8] }, prm);
    let out = g.external_product(&c, prm).decrypt(&key, prm);
    // The decomposition is exact, so only the noise term remains.
    let bound = 2 * 8 * 8 * (256 + 1) * b as i128;
    for t in 0..8 {
        assert!(centered(fe_add(out.coeffs[t], P - msg.coeffs[t])).abs() <= bound);
    }
}
