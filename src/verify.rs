use crate::glwe::{glwe_wf, gtrivial, Glwe};
use crate::pbs::{ggsws_view, key_material_is_wf, key_material_wf, pbs_inputs_wf, pbs_output, public_prefix};
use crate::ggsw::Ggsw;
use crate::params::{Params, MAX_GLWE_SIZE, MAX_RING_DIM};
use crate::poly::{ring_elem, Poly};
use crate::shape::glwe_is_wf;
use vstd::prelude::*;

verus! {

/// Why a bootstrap proof was rejected; each check of the verification protocol has its own.
#[derive(Clone, Copy, Debug, PartialEq, Eq, Structural)]
pub enum VerifyError {
    /// The dimensions of the inputs, or the number of public inputs, do not fit the parameters.
    MalformedInput,
    /// The initial accumulator is not the zero-padded test vector.
    InitialAccumulator,
    /// The counter is not n + 2.
    Counter,
    /// The final accumulator is not the claimed output ciphertext.
    OutputCiphertext,
    /// The proof does not verify against the circuit's verifier data.
    ProofRejected,
    /// The proof's embedded verifier data is not the circuit's own.
    VerifierData,
    /// The commitment to the GGSW ciphertexts is not the one recomputed from the keys.
    BskHash,
    /// The commitment to the first sample is not the one recomputed from it.
    LweHash1,
    /// The commitment to the second sample is not the one recomputed from it.
    LweHash2,
}

/// The number of public inputs that hold one accumulator: K * N.
pub open spec fn acc_len(params: Params) -> int {
    params.glwe_size * params.ring_dim
}

/// The number of public inputs the verifier reads: two accumulators, the counter and three
/// commitments of four elements each.
pub open spec fn public_len(params: Params) -> int {
    2 * acc_len(params) + 13
}

/// The outcome of the verification protocol: the first check that fails, in the order
/// initial accumulator, counter, output ciphertext, proof, verifier data, commitments.
pub open spec fn verify_spec(
    params: Params,
    out_ct: Seq<Seq<u64>>,
    ct_1: Seq<u64>,
    ct_2: Seq<u64>,
    testv: Seq<u64>,
    bsk: Seq<Seq<Seq<Seq<Seq<u64>>>>>,
    ksk: Seq<Seq<Seq<Seq<u64>>>>,
    pis: Seq<u64>,
    proof_verified: bool,
    verifier_data_matches: bool,
    hash_bsk: Seq<u64>,
    hash_lwe_1: Seq<u64>,
    hash_lwe_2: Seq<u64>,
) -> Result<(), VerifyError> {
    let a = acc_len(params);
    if !key_material_wf(params, ct_1, ct_2, testv, bsk, ksk) || !glwe_wf(out_ct, params) || pis.len() < public_len(params) {
        Err(VerifyError::MalformedInput)
    } else if pis.subrange(0, a) != gtrivial(testv, params.glwe_size as nat).flatten() {
        Err(VerifyError::InitialAccumulator)
    } else if pis[a] != params.lwe_dim + 2 {
        Err(VerifyError::Counter)
    } else if pis.subrange(a + 1, 2 * a + 1) != out_ct.flatten() {
        Err(VerifyError::OutputCiphertext)
    } else if !proof_verified {
        Err(VerifyError::ProofRejected)
    } else if !verifier_data_matches {
        Err(VerifyError::VerifierData)
    } else if pis.subrange(2 * a + 1, 2 * a + 5) != hash_bsk {
        Err(VerifyError::BskHash)
    } else if pis.subrange(2 * a + 5, 2 * a + 9) != hash_lwe_1 {
        Err(VerifyError::LweHash1)
    } else if pis.subrange(2 * a + 9, 2 * a + 13) != hash_lwe_2 {
        Err(VerifyError::LweHash2)
    } else {
        Ok(())
    }
}

/// Whether `pis[start..start + len]` is exactly `expected`.
fn region_equals(pis: &Vec<u64>, start: usize, len: usize, expected: &Vec<u64>) -> (r: bool)
    requires
        start + len <= pis@.len(),
    ensures
        r == (pis@.subrange(start as int, start + len) == expected@),
{
    if expected.len() != len {
        return false;
    }
    let total = pis.len();
    let mut i: usize = 0;
    while i < len
        invariant
            total == pis@.len(),
            start + len <= pis@.len(),
            expected@.len() == len,
            i <= len,
            forall|j: int| 0 <= j < i ==> #[trigger] expected@[j] == pis@[start + j],
        decreases len - i,
    {
        if pis[start + i] != expected[i] {
            assert(pis@.subrange(start as int, start + len)[i as int] != expected@[i as int]);
            return false;
        }
        i = i + 1;
    }
    assert(pis@.subrange(start as int, start + len) =~= expected@);
    true
}

/// Checks a bootstrap proof's claims against the inputs. `public_inputs` are the proof's
/// public inputs; `proof_verified` says whether the proof verifies against the circuit's
/// verifier data, `verifier_data_matches` whether its embedded verifier data is the circuit's
/// own; the three hashes are the commitments recomputed from the keys and the samples.
/// Accepts only when every check passes, and otherwise names the first that fails.
pub fn verify_pbs(
    params: Params,
    out_ct: &Glwe,
    ct_1: &Vec<u64>,
    ct_2: &Vec<u64>,
    testv: &Poly,
    bsk: &Vec<Ggsw>,
    ksk: &Ggsw,
    public_inputs: &Vec<u64>,
    proof_verified: bool,
    verifier_data_matches: bool,
    hash_bsk: &Vec<u64>,
    hash_lwe_1: &Vec<u64>,
    hash_lwe_2: &Vec<u64>,
) -> (r: Result<(), VerifyError>)
    ensures
        r == verify_spec(
            params,
            out_ct@,
            ct_1@,
            ct_2@,
            testv@,
            ggsws_view(bsk@),
            ksk@,
            public_inputs@,
            proof_verified,
            verifier_data_matches,
            hash_bsk@,
            hash_lwe_1@,
            hash_lwe_2@,
        ),
{
    if !key_material_is_wf(params, ct_1, ct_2, testv, bsk, ksk) || !glwe_is_wf(out_ct, params) {
        return Err(VerifyError::MalformedInput);
    }
    assert(params.glwe_size * params.ring_dim <= MAX_GLWE_SIZE * MAX_RING_DIM) by (nonlinear_arith)
        requires
            params.glwe_size <= MAX_GLWE_SIZE,
            params.ring_dim <= MAX_RING_DIM,
    ;
    let a = params.glwe_size * params.ring_dim;
    if public_inputs.len() < 2 * a + 13 {
        return Err(VerifyError::MalformedInput);
    }
    let init = Glwe::trivial(testv, params.glwe_size).flatten();
    if !region_equals(public_inputs, 0, a, &init) {
        return Err(VerifyError::InitialAccumulator);
    }
    proof {
        params.lemma_lwe_dim_bound();
    }
    if public_inputs[a] != (params.lwe_dim + 2) as u64 {
        return Err(VerifyError::Counter);
    }
    let out_flat = out_ct.flatten();
    if !region_equals(public_inputs, a + 1, a, &out_flat) {
        return Err(VerifyError::OutputCiphertext);
    }
    if !proof_verified {
        return Err(VerifyError::ProofRejected);
    }
    if !verifier_data_matches {
        return Err(VerifyError::VerifierData);
    }
    if !region_equals(public_inputs, 2 * a + 1, 4, hash_bsk) {
        return Err(VerifyError::BskHash);
    }
    if !region_equals(public_inputs, 2 * a + 5, 4, hash_lwe_1) {
        return Err(VerifyError::LweHash1);
    }
    if !region_equals(public_inputs, 2 * a + 9, 4, hash_lwe_2) {
        return Err(VerifyError::LweHash2);
    }
    Ok(())
}

/// Flattening `count` pieces of `n` elements each gives `count * n` elements.
pub proof fn lemma_flat_len(s: Seq<Seq<u64>>, n: nat)
    requires
        forall|i: int| 0 <= i < s.len() ==> (#[trigger] s[i]).len() == n,
    ensures
        s.flatten().len() == s.len() * n,
    decreases s.len(),
{
    if s.len() > 0 {
        lemma_flat_len(s.drop_first(), n);
        assert(s.flatten() == s.first() + s.drop_first().flatten());
        assert(s.len() * n == n + (s.len() - 1) * n) by (nonlinear_arith)
            requires
                s.len() > 0,
        ;
    } else {
        assert(s.len() * n == 0) by (nonlinear_arith)
            requires
                s.len() == 0,
        ;
    }
}

/// Two sequences of pieces of one length are equal when their flattenings are.
pub proof fn lemma_flat_injective(s: Seq<Seq<u64>>, t: Seq<Seq<u64>>, n: nat)
    requires
        s.len() == t.len(),
        forall|i: int| 0 <= i < s.len() ==> (#[trigger] s[i]).len() == n,
        forall|i: int| 0 <= i < t.len() ==> (#[trigger] t[i]).len() == n,
        s.flatten() == t.flatten(),
    ensures
        s == t,
    decreases s.len(),
{
    if s.len() > 0 {
        let fs = s.flatten();
        assert(fs == s[0] + s.drop_first().flatten());
        assert(fs == t[0] + t.drop_first().flatten());
        assert(fs.subrange(0, n as int) =~= s[0]);
        assert(fs.subrange(0, n as int) =~= t[0]);
        assert(fs.subrange(n as int, fs.len() as int) =~= s.drop_first().flatten());
        assert(fs.subrange(n as int, fs.len() as int) =~= t.drop_first().flatten());
        lemma_flat_injective(s.drop_first(), t.drop_first(), n);
        assert forall|i: int| 0 <= i < s.len() implies s[i] == t[i] by {
            if i > 0 {
                assert(s.drop_first()[i - 1] == t.drop_first()[i - 1]);
            }
        }
        assert(s =~= t);
    }
}

/// Soundness for the output: when the ciphertext handed to the verifier differs, in any
/// coefficient, from the final accumulator that the proof's public inputs hold, the proof is
/// rejected.
pub proof fn lemma_altered_output_rejected(
    params: Params,
    out_ct: Seq<Seq<u64>>,
    proven_acc: Seq<Seq<u64>>,
    ct_1: Seq<u64>,
    ct_2: Seq<u64>,
    testv: Seq<u64>,
    bsk: Seq<Seq<Seq<Seq<Seq<u64>>>>>,
    ksk: Seq<Seq<Seq<Seq<u64>>>>,
    pis: Seq<u64>,
    proof_verified: bool,
    verifier_data_matches: bool,
    hash_bsk: Seq<u64>,
    hash_lwe_1: Seq<u64>,
    hash_lwe_2: Seq<u64>,
)
    requires
        glwe_wf(proven_acc, params),
        pis.len() >= public_len(params),
        pis.subrange(acc_len(params) + 1, 2 * acc_len(params) + 1) == proven_acc.flatten(),
        out_ct != proven_acc,
    ensures
        verify_spec(
            params,
            out_ct,
            ct_1,
            ct_2,
            testv,
            bsk,
            ksk,
            pis,
            proof_verified,
            verifier_data_matches,
            hash_bsk,
            hash_lwe_1,
            hash_lwe_2,
        ) is Err,
{
    if glwe_wf(out_ct, params) {
        let n = params.ring_dim as nat;
        assert forall|i: int| 0 <= i < out_ct.len() implies (#[trigger] out_ct[i]).len() == n by {
            assert(ring_elem(out_ct[i], n));
        }
        assert forall|i: int| 0 <= i < proven_acc.len() implies (#[trigger] proven_acc[i]).len() == n by {
            assert(ring_elem(proven_acc[i], n));
        }
        if out_ct.flatten() == proven_acc.flatten() {
            lemma_flat_injective(out_ct, proven_acc, n);
        }
    }
}

/// Soundness for the counter: a proof whose counter is not n + 2 is rejected.
pub proof fn lemma_wrong_counter_rejected(
    params: Params,
    out_ct: Seq<Seq<u64>>,
    ct_1: Seq<u64>,
    ct_2: Seq<u64>,
    testv: Seq<u64>,
    bsk: Seq<Seq<Seq<Seq<Seq<u64>>>>>,
    ksk: Seq<Seq<Seq<Seq<u64>>>>,
    pis: Seq<u64>,
    proof_verified: bool,
    verifier_data_matches: bool,
    hash_bsk: Seq<u64>,
    hash_lwe_1: Seq<u64>,
    hash_lwe_2: Seq<u64>,
)
    requires
        pis.len() >= public_len(params),
        pis[acc_len(params)] != params.lwe_dim + 2,
    ensures
        verify_spec(
            params,
            out_ct,
            ct_1,
            ct_2,
            testv,
            bsk,
            ksk,
            pis,
            proof_verified,
            verifier_data_matches,
            hash_bsk,
            hash_lwe_1,
            hash_lwe_2,
        ) is Err,
{
}

/// Completeness: the output and public inputs of an honest run, with commitments equal to the
/// ones the verifier recomputes, pass every check once the proof and its verifier data do.
pub proof fn lemma_honest_run_accepted(
    params: Params,
    ct_1: Seq<u64>,
    ct_2: Seq<u64>,
    w_1: u64,
    w_2: u64,
    testv: Seq<u64>,
    bsk: Seq<Seq<Seq<Seq<Seq<u64>>>>>,
    ksk: Seq<Seq<Seq<Seq<u64>>>>,
    out_ct: Seq<Seq<u64>>,
    hash_bsk: Seq<u64>,
    hash_lwe_1: Seq<u64>,
    hash_lwe_2: Seq<u64>,
)
    requires
        pbs_inputs_wf(params, ct_1, ct_2, w_1, w_2, testv, bsk, ksk),
        out_ct == pbs_output(params, ct_1, ct_2, w_1, w_2, testv, bsk, ksk),
        glwe_wf(out_ct, params),
        hash_bsk.len() == 4,
        hash_lwe_1.len() == 4,
        hash_lwe_2.len() == 4,
    ensures
        verify_spec(
            params,
            out_ct,
            ct_1,
            ct_2,
            testv,
            bsk,
            ksk,
            public_prefix(params, testv, (params.lwe_dim + 2) as u64, out_ct) + hash_bsk + hash_lwe_1
                + hash_lwe_2,
            true,
            true,
            hash_bsk,
            hash_lwe_1,
            hash_lwe_2,
        ) == Ok::<(), VerifyError>(()),
{
    let n = params.ring_dim as nat;
    let k = params.glwe_size as nat;
    let a = acc_len(params);
    let init = gtrivial(testv, k);
    assert forall|i: int| 0 <= i < init.len() implies (#[trigger] init[i]).len() == n by {}
    lemma_flat_len(init, n);
    assert forall|i: int| 0 <= i < out_ct.len() implies (#[trigger] out_ct[i]).len() == n by {
        assert(ring_elem(out_ct[i], n));
    }
    lemma_flat_len(out_ct, n);
    params.lemma_lwe_dim_bound();
    let pis = public_prefix(params, testv, (params.lwe_dim + 2) as u64, out_ct) + hash_bsk + hash_lwe_1 + hash_lwe_2;
    assert(pis.subrange(0, a) =~= init.flatten());
    assert(pis[a] == params.lwe_dim + 2);
    assert(pis.subrange(a + 1, 2 * a + 1) =~= out_ct.flatten());
    assert(pis.subrange(2 * a + 1, 2 * a + 5) =~= hash_bsk);
    assert(pis.subrange(2 * a + 5, 2 * a + 9) =~= hash_lwe_1);
    assert(pis.subrange(2 * a + 9, 2 * a + 13) =~= hash_lwe_2);
}

/// Determinism: two runs on the same samples, weights, test vector and keys claim the same
/// output ciphertext, coefficient for coefficient.
pub proof fn lemma_runs_agree(
    params: Params,
    ct_1: Seq<u64>,
    ct_2: Seq<u64>,
    w_1: u64,
    w_2: u64,
    testv: Seq<u64>,
    bsk: Seq<Seq<Seq<Seq<Seq<u64>>>>>,
    ksk: Seq<Seq<Seq<Seq<u64>>>>,
    first_run: Seq<Seq<u64>>,
    second_run: Seq<Seq<u64>>,
)
    requires
        first_run == pbs_output(params, ct_1, ct_2, w_1, w_2, testv, bsk, ksk),
        second_run == pbs_output(params, ct_1, ct_2, w_1, w_2, testv, bsk, ksk),
    ensures
        forall|j: int, t: int| 0 <= j < first_run.len() && 0 <= t < first_run[j].len() ==> #[trigger] first_run[j][t]
            == second_run[j][t],
{
}

} // verus!
