use vtfhe::ggsw::{const_poly, Ggsw};
use vtfhe::glwe::{key_gen, Glwe};
use vtfhe::params::Params;
use vtfhe::field::P;
use vtfhe::ntt::NttTable;
use vtfhe::poly::Poly;

fn random_poly(n: usize) -> Poly {
    Poly { coeffs: (0..n).map(|_| rand::random::<u64>() % P).collect() }
}

#[test]
fn ntt_multiplication_matches_direct_convolution() {
    for n in [1usize, 2, 8, 16, 64] {
        let table = NttTable::for_dim(n).expect("a table for a power of two");
        assert_eq!(table.n, n);
        assert_eq!(table.powers.len(), 2 * n);
        assert_eq!(table.powers[0], 1);
        assert_eq!(table.powers[n], P - 1);
        for _ in 0..5 {
            let a = random_poly(n);
            let b = random_poly(n);
            assert_eq!(table.mul(&a, &b).coeffs, a.mul(&b).coeffs);
        }
    }
}

#[test]
fn ntt_round_trip_and_monomials() {
    let table = NttTable::for_dim(8).unwrap();
    let a = Poly { coeffs: vec![1, 2, 3, 4, 5, 6, 7, 8] };
    let back = table.inverse(&table.forward(&a));
    assert_eq!(back.coeffs, a.coeffs);
    // X^7 * X = X^8 = -1.
    let mut x7 = vec![0u64; 8];
    x7[7] = 1;
    let mut x1 = vec![0u64; 8];
    x1[1] = 1;
    let prod = table.mul(&Poly { coeffs: x7 }, &Poly { coeffs: x1 });
    let mut expected = vec![0u64; 8];
    expected[0] = P - 1;
    assert_eq!(prod.coeffs, expected);
}

#[test]
fn ntt_table_refuses_bad_dimensions() {
    assert!(NttTable::for_dim(0).is_none());
    assert!(NttTable::for_dim(3).is_none());
    assert!(NttTable::for_dim(12).is_none());
    // Neither 1 nor 2 is a primitive 16th root of unity.
    assert!(NttTable::new(2, 8).is_none());
    assert!(NttTable::new(1, 8).is_none());
}

#[test]
fn ntt_external_product_matches_direct() {
    let prm = Params { ring_dim: 8, glwe_size: 2, log_base: 4, levels: 3, lwe_dim: 1 };
    let table = NttTable::for_dim(8).unwrap();
    let key = key_gen(prm);
    let g = Ggsw::encrypt(&key, &key, &const_poly(1, 8), 5, prm);
    let c = Glwe::encrypt(&key, &random_poly(8), &Poly { coeffs: vec![0; 8] }, prm);
    let direct = g.external_product(&c, prm);
    let through = g.external_product_ntt(&c, prm, &table);
    for p in 0..2 {
        assert_eq!(direct.polys[p].coeffs, through.polys[p].coeffs);
    }
}

#[test]
fn ntt_table_for_a_larger_dimension() {
    let table = NttTable::for_dim(256).unwrap();
    let a = random_poly(256);
    let b = random_poly(256);
    assert_eq!(table.mul(&a, &b).coeffs, a.mul(&b).coeffs);
}
