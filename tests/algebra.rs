use vtfhe::field::{fe_add, fe_mul, fe_neg, fe_reduce, fe_sub, P};
use vtfhe::ggsw::{digit_poly_exec, gadget_weight_exec, level_digit_exec};
use vtfhe::glwe::{flatten_partial_key, partial_key, partial_key_from_bits};
use vtfhe::lwe::{get_delta, mod_switch};
use vtfhe::params::Params;
use vtfhe::poly::Poly;

fn params(n_ring: usize, log_base: usize, levels: usize, lwe_dim: usize) -> Params {
    Params { ring_dim: n_ring, glwe_size: 2, log_base, levels, lwe_dim }
}

fn to_signed(x: u64) -> i128 {
    if x > P / 2 {
        x as i128 - P as i128
    } else {
        x as i128
    }
}

fn naive_negacyclic(a: &[u64], b: &[u64]) -> Vec<u64> {
    let n = a.len();
    let mut out = vec![0i128; n];
    let p = P as i128;
    for i in 0..n {
        for j in 0..n {
            let prod = ((a[i] as u128 * b[j] as u128) % P as u128) as i128;
            if i + j < n {
                out[i + j] = (out[i + j] + prod) % p;
            } else {
                out[i + j - n] = (out[i + j - n] - prod + p) % p;
            }
        }
    }
    out.into_iter().map(|x| x as u64).collect()
}

#[test]
fn field_arithmetic_values() {
    assert_eq!(fe_add(P - 1, 1), 0);
    assert_eq!(fe_add(P - 1, P - 1), P - 2);
    assert_eq!(fe_sub(0, 1), P - 1);
    assert_eq!(fe_neg(5), P - 5);
    assert_eq!(fe_neg(0), 0);
    assert_eq!(fe_mul(P - 1, P - 1), 1);
    assert_eq!(fe_mul(1 << 32, 1 << 32), (1u64 << 32) - 1);
    assert_eq!(fe_reduce(u64::MAX), u64::MAX - P);
    assert_eq!(fe_reduce(7), 7);
}

#[test]
fn ring_multiplication_matches_direct_convolution() {
    let a: Vec<u64> = vec![1, 2, 3, 4, 5, 6, 7, P - 1];
    let b: Vec<u64> = vec![P - 3, 0, 9, 1 << 40, 2, 0, 0, 11];
    let pa = Poly { coeffs: a.clone() };
    let pb = Poly { coeffs: b.clone() };
    assert_eq!(pa.mul(&pb).coeffs, naive_negacyclic(&a, &b));
    for _ in 0..20 {
        let x: Vec<u64> = (0..8).map(|_| rand::random::<u64>() % P).collect();
        let y: Vec<u64> = (0..8).map(|_| rand::random::<u64>() % P).collect();
        let r = Poly { coeffs: x.clone() }.mul(&Poly { coeffs: y.clone() });
        assert_eq!(r.coeffs, naive_negacyclic(&x, &y));
    }
}

#[test]
fn ring_multiplication_by_x_wraps_with_sign() {
    // X^3 * X^6 = X^9 = -X in Z_P[X]/(X^8 + 1).
    let mut a = vec![0u64; 8];
    a[3] = 1;
    let mut b = vec![0u64; 8];
    b[6] = 1;
    let r = Poly { coeffs: a }.mul(&Poly { coeffs: b });
    let mut expected = vec![0u64; 8];
    expected[1] = P - 1;
    assert_eq!(r.coeffs, expected);
}

#[test]
fn rotation_shifts_and_negates_the_tail() {
    let p = Poly { coeffs: (1..=8).collect() };
    let r = p.rotate(3);
    assert_eq!(r.coeffs, vec![P - 6, P - 7, P - 8, 1, 2, 3, 4, 5]);
    let half = p.rotate(8);
    assert_eq!(half.coeffs, p.neg().coeffs);
    let r11 = p.rotate(11);
    assert_eq!(r11.coeffs, p.rotate(3).neg().coeffs);
    assert_eq!(p.rotate(0).coeffs, p.coeffs);
}

#[test]
fn rotation_round_trip() {
    let p = Poly { coeffs: vec![5, 0, P - 2, 9, 1, 1, 3, 8] };
    for s in 0..8 {
        // A full turn is 2N; N - s more only reaches the negation.
        assert_eq!(p.rotate(s).rotate(16 - s).coeffs, p.coeffs);
        assert_eq!(p.rotate(s).rotate(8 - s).coeffs, p.neg().coeffs);
    }
}

#[test]
fn partial_key_round_trip() {
    let prm = params(8, 8, 8, 6);
    let bits: Vec<u64> = vec![1, 0, 1, 1, 0, 1];
    let key = partial_key_from_bits(&bits, prm);
    assert_eq!(key.len(), 1);
    assert_eq!(key[0].coeffs, vec![1, 0, 1, 1, 0, 1, 0, 0]);
    assert_eq!(flatten_partial_key(&key, prm), bits);
    let prm2 = Params { ring_dim: 4, glwe_size: 3, log_base: 8, levels: 8, lwe_dim: 6 };
    let bits2: Vec<u64> = vec![1, 1, 0, 1, 0, 1];
    let key2 = partial_key_from_bits(&bits2, prm2);
    assert_eq!(key2[0].coeffs, vec![1, 1, 0, 1]);
    assert_eq!(key2[1].coeffs, vec![0, 1, 0, 0]);
    assert_eq!(flatten_partial_key(&key2, prm2), bits2);
    for n in [0usize, 1, 5, 8] {
        let prm3 = params(8, 8, 8, n);
        let key3 = partial_key(prm3);
        let flat = flatten_partial_key(&key3, prm3);
        assert_eq!(flat.len(), n);
        assert!(flat.iter().all(|b| *b <= 1));
        assert!(key3[0].coeffs[n..].iter().all(|c| *c == 0));
        assert_eq!(&key3[0].coeffs[..n], &flat[..]);
    }
}

#[test]
fn decomposition_is_exact_with_full_precision() {
    let prm = params(8, 8, 8, 1);
    for y in [0u64, 1, 255, 256, 1 << 63, P - 1, P / 2, P / 2 + 1, 0x1234_5678_9abc_def0] {
        let mut sum: i128 = 0;
        for l in 0..8 {
            let d = to_signed(level_digit_exec(y, l, prm));
            if l > 0 {
                assert!(d >= -128 && d < 128);
            }
            sum += d * (1i128 << (64 - 8 * (l + 1)));
        }
        assert_eq!(sum.rem_euclid(P as i128), y as i128);
    }
}

#[test]
fn decomposition_rounds_with_fewer_digits() {
    let prm = params(8, 4, 2, 1);
    // Top 8 bits kept: y = 0x37 << 56 plus something below half a step rounds down.
    let y: u64 = (0x37u64 << 56) + (1u64 << 54);
    let digits: Vec<i128> = (0..2).map(|l| to_signed(level_digit_exec(y, l, prm))).collect();
    assert_eq!(digits[0] * 16 + digits[1], 0x37);
    assert_eq!(digits, vec![3, 7]);
    // Just over half a step rounds up.
    let y2: u64 = (0x37u64 << 56) + (1u64 << 55) + 1;
    let digits2: Vec<i128> = (0..2).map(|l| to_signed(level_digit_exec(y2, l, prm))).collect();
    assert_eq!(digits2[0] * 16 + digits2[1], 0x38);
    assert_eq!(digits2, vec![4, -8]);
    assert_eq!(gadget_weight_exec(0, prm), 1u64 << 60);
    assert_eq!(gadget_weight_exec(1, prm), 1u64 << 56);
    let dp = digit_poly_exec(&Poly { coeffs: vec![y, 0, 0, 0, 0, 0, 0, y2] }, 1, prm);
    assert_eq!(dp.coeffs, vec![7, 0, 0, 0, 0, 0, 0, P - 8]);
}

#[test]
fn delta_and_mod_switch_values() {
    let delta = get_delta(16);
    assert_eq!(delta, P / 16);
    assert_eq!(delta, P >> 4);
    for m in 0..16u64 {
        assert_eq!(mod_switch(fe_mul(delta, m), 8), m as usize);
    }
    assert_eq!(mod_switch(0, 8), 0);
    assert_eq!(mod_switch(P - 1, 8), 0);
    assert_eq!(mod_switch(1u64 << 59, 8), 1);
    assert_eq!(mod_switch((1u64 << 59) - 1, 8), 0);
    assert_eq!(mod_switch((1u64 << 60) + (1u64 << 59), 8), 2);
    assert_eq!(mod_switch((1u64 << 60) + (1u64 << 59) - 1, 8), 1);
}
