use vtfhe::field::{fe_add, fe_mul, fe_neg, P};
use vtfhe::ggsw::{compute_bsk, compute_ksk, Ggsw};
use vtfhe::glwe::{flatten_partial_key, key_gen, partial_key, partial_key_from_bits, Glwe};
use vtfhe::lwe::{encrypt, encrypt_with_mask, get_delta, mod_switch};
use vtfhe::params::Params;
use vtfhe::pbs::{
    bootstrap_step, bsk_hash_data, chain_link_input, initial_commitment, lwe_hash_data, verified_pbs,
    PbsError, PbsOutput,
};
use vtfhe::poly::Poly;
use vtfhe::verify::{verify_pbs, VerifyError};

const N: usize = 8;

fn scenario_params() -> Params {
    Params { ring_dim: N, glwe_size: 2, log_base: 8, levels: 8, lwe_dim: 1 }
}

struct Keys {
    s_to: Vec<Poly>,
    s_lwe: Vec<u64>,
    bsk: Vec<Ggsw>,
    ksk: Ggsw,
}

fn keys(params: Params) -> Keys {
    let s_to = partial_key(params);
    let s_lwe = flatten_partial_key(&s_to, params);
    let s_glwe = key_gen(params);
    let bsk = compute_bsk(&s_lwe, &s_glwe, 0, params);
    let ksk = compute_ksk(&s_to, &s_glwe, 0, params);
    Keys { s_to, s_lwe, bsk, ksk }
}

fn testv() -> Poly {
    Poly { coeffs: (0..N as u64).collect() }
}

/// The output's phase must be the test vector times X^(-shift), shift being the rounded scaled
/// message; it wraps past degree N with a sign flip.
fn check_rotation(in_poly: &Poly, out_poly: &Poly, mask_element: u64) {
    let shift = mod_switch(mask_element, N);
    assert_eq!(out_poly.coeffs, in_poly.rotate(shift).coeffs, "poly not rotated correctly.");
}

fn fake_hash(seed: u64) -> Vec<u64> {
    vec![seed, seed + 1, seed + 2, seed + 3]
}

fn claimed_inputs(out: &PbsOutput, h: &[Vec<u64>; 3]) -> Vec<u64> {
    let mut pis = out.public_inputs.clone();
    for x in h.iter() {
        pis.extend_from_slice(x);
    }
    pis
}

#[test]
fn test_ivc_blind_rot() {
    let params = scenario_params();
    let k = keys(params);
    let testv = testv();
    let delta = P >> 4;
    let m_1 = rand::random::<u64>() % (N as u64);
    let w_1 = 1u64;
    let w_2 = 2u64;
    let m_2 = rand::random::<u64>() % (N as u64);
    let ct_1 = encrypt(&k.s_lwe, fe_mul(delta, m_1), 0);
    let ct_2 = encrypt(&k.s_lwe, fe_mul(delta, m_2), 0);
    let out = verified_pbs(params, &ct_1, &ct_2, w_1, w_2, &testv, &k.bsk, &k.ksk).unwrap();
    let h = [fake_hash(1), fake_hash(10), fake_hash(20)];
    let pis = claimed_inputs(&out, &h);
    assert_eq!(
        verify_pbs(params, &out.out_ct, &ct_1, &ct_2, &testv, &k.bsk, &k.ksk, &pis, true, true, &h[0], &h[1], &h[2]),
        Ok(())
    );
    let m_out = out.out_ct.decrypt(&k.s_to, params);
    let m = fe_add(m_1, fe_mul(2, m_2));
    check_rotation(&testv, &m_out, fe_neg(fe_mul(delta, m)));
}

#[test]
fn end_to_end_exact_lookup() {
    let params = scenario_params();
    let k = keys(params);
    let testv = testv();
    let delta = get_delta(2 * N as u64);
    for (m_1, m_2) in [(3u64, 2u64), (0, 0), (7, 0), (1, 3), (5, 6)] {
        // Zero masks make every rounding exact.
        let ct_1 = encrypt_with_mask(&k.s_lwe, &vec![0], fe_mul(delta, m_1), 0);
        let ct_2 = encrypt_with_mask(&k.s_lwe, &vec![0], fe_mul(delta, m_2), 0);
        let out = verified_pbs(params, &ct_1, &ct_2, 1, 2, &testv, &k.bsk, &k.ksk).unwrap();
        let phase = out.out_ct.decrypt(&k.s_to, params);
        let m = (m_1 + 2 * m_2) % (2 * N as u64);
        let expected = if m < N as u64 { m } else { fe_neg(m - N as u64) };
        assert_eq!(phase.coeffs[0], expected);
        if m_1 + 2 * m_2 < N as u64 {
            assert_eq!(phase.coeffs[0], testv.coeffs[((m_1 + 2 * m_2) % N as u64) as usize]);
        }
    }
}

#[test]
fn end_to_end_with_secret_key_bits() {
    // A two-bit LWE key with known bits and a nonzero mask: both CMUX branches are taken.
    let params = Params { ring_dim: N, glwe_size: 2, log_base: 8, levels: 8, lwe_dim: 2 };
    let s_to = partial_key_from_bits(&vec![1, 0], params);
    let s_lwe = flatten_partial_key(&s_to, params);
    let s_glwe = key_gen(params);
    let bsk = compute_bsk(&s_lwe, &s_glwe, 0, params);
    let ksk = compute_ksk(&s_to, &s_glwe, 0, params);
    let delta = get_delta(2 * N as u64);
    let unit = 1u64 << 60;
    let ct_1 = encrypt_with_mask(&s_lwe, &vec![3 * unit, 5 * unit], fe_mul(delta, 2), 0);
    let ct_2 = encrypt_with_mask(&s_lwe, &vec![0, 0], 0, 0);
    let out = verified_pbs(params, &ct_1, &ct_2, 1, 1, &testv(), &bsk, &ksk).unwrap();
    let phase = out.out_ct.decrypt(&s_to, params);
    // Rotation: -round(body) + round(mask_0) = -(3 + 2) + 3 = -2.
    assert_eq!(phase.coeffs, testv().rotate(2 * N - 2).coeffs);
    assert_eq!(phase.coeffs[0], 2);
}

#[test]
fn runs_are_deterministic() {
    let params = scenario_params();
    let k = keys(params);
    let ct_1 = encrypt(&k.s_lwe, fe_mul(P >> 4, 5), 0);
    let ct_2 = encrypt(&k.s_lwe, fe_mul(P >> 4, 1), 0);
    let a = verified_pbs(params, &ct_1, &ct_2, 1, 2, &testv(), &k.bsk, &k.ksk).unwrap();
    let b = verified_pbs(params, &ct_1, &ct_2, 1, 2, &testv(), &k.bsk, &k.ksk).unwrap();
    for j in 0..2 {
        assert_eq!(a.out_ct.polys[j].coeffs, b.out_ct.polys[j].coeffs);
    }
    assert_eq!(a.public_inputs, b.public_inputs);
}

#[test]
fn public_inputs_layout() {
    let params = scenario_params();
    let k = keys(params);
    let ct = encrypt(&k.s_lwe, 0, 0);
    let out = verified_pbs(params, &ct, &ct, 1, 1, &testv(), &k.bsk, &k.ksk).unwrap();
    let pis = &out.public_inputs;
    assert_eq!(pis.len(), 2 * 2 * N + 1);
    assert_eq!(&pis[..N], &vec![0u64; N][..]);
    assert_eq!(&pis[N..2 * N], &testv().coeffs[..]);
    assert_eq!(pis[2 * N], 3);
    assert_eq!(&pis[2 * N + 1..3 * N + 1], &out.out_ct.polys[0].coeffs[..]);
    assert_eq!(&pis[3 * N + 1..], &out.out_ct.polys[1].coeffs[..]);
}

#[test]
fn verification_rejects_tampering() {
    let params = scenario_params();
    let k = keys(params);
    let testv = testv();
    let ct_1 = encrypt(&k.s_lwe, fe_mul(P >> 4, 2), 0);
    let ct_2 = encrypt(&k.s_lwe, fe_mul(P >> 4, 1), 0);
    let out = verified_pbs(params, &ct_1, &ct_2, 1, 2, &testv, &k.bsk, &k.ksk).unwrap();
    let h = [fake_hash(100), fake_hash(200), fake_hash(300)];
    let pis = claimed_inputs(&out, &h);
    let verify = |out_ct: &Glwe, pis: &Vec<u64>, bsk: &Vec<Ggsw>, proof: bool, vd: bool, hb: &Vec<u64>| {
        verify_pbs(params, out_ct, &ct_1, &ct_2, &testv, bsk, &k.ksk, pis, proof, vd, hb, &h[1], &h[2])
    };
    assert_eq!(verify(&out.out_ct, &pis, &k.bsk, true, true, &h[0]), Ok(()));

    // Any flipped coefficient of the claimed output.
    for j in 0..2 {
        for t in 0..N {
            let mut altered = out.out_ct.copy();
            altered.polys[j].coeffs[t] = fe_add(altered.polys[j].coeffs[t], 1);
            assert_eq!(verify(&altered, &pis, &k.bsk, true, true, &h[0]), Err(VerifyError::OutputCiphertext));
        }
    }
    // A wrong counter.
    let mut bad_counter = pis.clone();
    bad_counter[2 * N] = 2;
    assert_eq!(verify(&out.out_ct, &bad_counter, &k.bsk, true, true, &h[0]), Err(VerifyError::Counter));
    // Truncated public inputs.
    let truncated = pis[..pis.len() - 1].to_vec();
    assert_eq!(verify(&out.out_ct, &truncated, &k.bsk, true, true, &h[0]), Err(VerifyError::MalformedInput));
    // A different initial accumulator.
    let mut bad_init = pis.clone();
    bad_init[N + 1] = 0;
    assert_eq!(verify(&out.out_ct, &bad_init, &k.bsk, true, true, &h[0]), Err(VerifyError::InitialAccumulator));
    // The backend's verdicts.
    assert_eq!(verify(&out.out_ct, &pis, &k.bsk, false, true, &h[0]), Err(VerifyError::ProofRejected));
    assert_eq!(verify(&out.out_ct, &pis, &k.bsk, true, false, &h[0]), Err(VerifyError::VerifierData));
    // A BSK from another key commits to other data, so its recomputed commitment differs.
    let other = keys(params);
    let data = bsk_hash_data(&other.bsk, &k.ksk, params);
    let own = bsk_hash_data(&k.bsk, &k.ksk, params);
    assert_ne!(data[1], own[1]);
    assert_eq!(verify(&out.out_ct, &pis, &other.bsk, true, true, &fake_hash(101)), Err(VerifyError::BskHash));
    assert_eq!(
        verify_pbs(params, &out.out_ct, &ct_1, &ct_2, &testv, &k.bsk, &k.ksk, &pis, true, true, &h[0], &fake_hash(7), &h[2]),
        Err(VerifyError::LweHash1)
    );
    assert_eq!(
        verify_pbs(params, &out.out_ct, &ct_1, &ct_2, &testv, &k.bsk, &k.ksk, &pis, true, true, &h[0], &h[1], &fake_hash(7)),
        Err(VerifyError::LweHash2)
    );
}

#[test]
fn malformed_inputs_are_refused() {
    let params = scenario_params();
    let k = keys(params);
    let ct = encrypt(&k.s_lwe, 0, 0);
    let short = vec![0u64];
    assert_eq!(
        verified_pbs(params, &short, &ct, 1, 1, &testv(), &k.bsk, &k.ksk).err(),
        Some(PbsError::MalformedInput)
    );
    let wide_testv = Poly { coeffs: vec![0; 16] };
    assert_eq!(
        verified_pbs(params, &ct, &ct, 1, 1, &wide_testv, &k.bsk, &k.ksk).err(),
        Some(PbsError::MalformedInput)
    );
    assert_eq!(
        verified_pbs(params, &ct, &ct, P, 1, &testv(), &k.bsk, &k.ksk).err(),
        Some(PbsError::MalformedInput)
    );
    let other_levels = Params { levels: 4, ..params };
    let bsk4 = compute_bsk(&k.s_lwe, &key_gen(other_levels), 0, other_levels);
    assert_eq!(
        verified_pbs(params, &ct, &ct, 1, 1, &testv(), &bsk4, &k.ksk).err(),
        Some(PbsError::MalformedInput)
    );
    let bad_params = Params { log_base: 9, ..params };
    assert!(!bad_params.is_valid());
    assert_eq!(
        verified_pbs(bad_params, &ct, &ct, 1, 1, &testv(), &k.bsk, &k.ksk).err(),
        Some(PbsError::MalformedInput)
    );
}

#[test]
fn hash_chain_data_follows_the_steps() {
    let params = Params { ring_dim: N, glwe_size: 2, log_base: 8, levels: 8, lwe_dim: 2 };
    let s_glwe = key_gen(params);
    let bsk = compute_bsk(&vec![1, 0], &s_glwe, 0, params);
    let ksk = compute_ksk(&s_glwe, &s_glwe, 0, params);
    let data = bsk_hash_data(&bsk, &ksk, params);
    assert_eq!(data.len(), 4);
    assert_eq!(data[0], vec![0u64; 2 * 8 * 2 * N]);
    assert_eq!(data[0], Ggsw::dummy_ct(params).flatten());
    assert_eq!(data[1], bsk[0].flatten());
    assert_eq!(data[2], bsk[1].flatten());
    assert_eq!(data[3], ksk.flatten());
    let flat = bsk[0].flatten();
    assert_eq!(flat.len(), 2 * 8 * 2 * N);
    assert_eq!(&flat[..N], &bsk[0].glevs[0].glwes[0].polys[0].coeffs[..]);
    assert_eq!(&flat[N..2 * N], &bsk[0].glevs[0].glwes[0].polys[1].coeffs[..]);
    assert_eq!(&flat[2 * N..3 * N], &bsk[0].glevs[0].glwes[1].polys[0].coeffs[..]);
    let lwe = lwe_hash_data(&vec![4, 5, 6], params);
    assert_eq!(lwe, vec![vec![6], vec![4], vec![5], vec![0]]);
    assert_eq!(chain_link_input(&initial_commitment(), &vec![9]), vec![0, 0, 0, 0, 9]);
}

#[test]
fn single_steps() {
    let params = scenario_params();
    let s_glwe = key_gen(params);
    let zero_key_bsk = compute_bsk(&vec![0], &s_glwe, 0, params);
    let acc = Glwe::trivial(&testv(), 2);
    let unit = 1u64 << 60;
    // First step: rotation by the negated weighted body.
    let first = bootstrap_step(params, 1, &acc, &zero_key_bsk[0], 3 * unit, 0, 1, 1);
    assert_eq!(first.polys[1].coeffs, testv().rotate(2 * N - 3).coeffs);
    assert_eq!(first.polys[0].coeffs, vec![0; N]);
    // A CMUX with a key bit of zero leaves the phase alone.
    let mid = bootstrap_step(params, 2, &first, &zero_key_bsk[0], 5 * unit, 0, 1, 1);
    assert_eq!(mid.decrypt(&s_glwe, params).coeffs, first.decrypt(&s_glwe, params).coeffs);
    let one_bsk = compute_bsk(&vec![1], &s_glwe, 0, params);
    let taken = bootstrap_step(params, 2, &first, &one_bsk[0], 5 * unit, 0, 1, 1);
    assert_eq!(taken.decrypt(&s_glwe, params).coeffs, first.decrypt(&s_glwe, params).rotate(5).coeffs);
}
