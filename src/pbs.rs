use crate::field::{fadd, fe_add, fe_mul, fe_neg, fmul, fneg, P};
use crate::ggsw::{ext_prod, ggsw_flat, ggsw_wf, zero_ggsw, Ggsw};
use crate::glwe::{gadd, glwe_wf, grot, gsub, gtrivial, Glwe};
use crate::lwe::{lwe_sample, mod_switch, mod_switch_coeff};
use crate::params::{Params, MAX_GLWE_SIZE, MAX_RING_DIM};
use crate::poly::{canon, ring_elem, Poly};
use crate::shape::{all_canonical, ggsw_is_wf, poly_is_wf};
use vstd::prelude::*;

verus! {

/// Why a bootstrap could not start.
#[derive(Clone, Copy, Debug, PartialEq, Eq, Structural)]
pub enum PbsError {
    /// The dimensions of the inputs do not agree with each other or with the parameters.
    MalformedInput,
}

/// The claimed result of a bootstrap: the output ciphertext and the public inputs of the last
/// step that precede the hash commitments (initial accumulator, counter, final accumulator).
pub struct PbsOutput {
    pub out_ct: Glwe,
    pub public_inputs: Vec<u64>,
}

/// The LWE mask coordinate that a step consumes, combined from the two weighted inputs.
pub open spec fn mask_value(m1: u64, m2: u64, w1: u64, w2: u64) -> u64 {
    fadd(fmul(w1, m1), fmul(w2, m2))
}

/// One step of the chain, with the public counter `counter` (from 1 to n + 2). The first step
/// rotates by the negated body; the last one is a pure external product (the key switch); the
/// others are a CMUX: acc + GGSW ⊠ (acc * X^a - acc).
pub open spec fn step_spec(params: Params, counter: nat, acc: Seq<Seq<u64>>, g: Seq<Seq<Seq<Seq<u64>>>>, v: u64) -> Seq<Seq<u64>> {
    let n = params.ring_dim as nat;
    if counter == 1 {
        grot(acc, mod_switch_coeff(fneg(v), n) as int)
    } else if counter == params.lwe_dim + 2 {
        ext_prod(g, acc, params)
    } else {
        gadd(ext_prod(g, gsub(grot(acc, mod_switch_coeff(v, n) as int), acc), params), acc)
    }
}

/// The GGSW ciphertext that step `i` (from 0) consumes: the all-zero one, then the
/// bootstrapping key in order, then the key-switching key.
pub open spec fn step_ggsw(bsk: Seq<Seq<Seq<Seq<Seq<u64>>>>>, ksk: Seq<Seq<Seq<Seq<u64>>>>, params: Params, i: nat) -> Seq<Seq<Seq<Seq<u64>>>> {
    if i == 0 {
        zero_ggsw(params)
    } else if i <= params.lwe_dim {
        bsk[i - 1]
    } else {
        ksk
    }
}

/// The coordinate of an LWE sample that step `i` (from 0) consumes: the body, then the mask in
/// order, then zero.
pub open spec fn step_mask(ct: Seq<u64>, params: Params, i: nat) -> u64 {
    if i == 0 {
        ct[params.lwe_dim as int]
    } else if i <= params.lwe_dim {
        ct[i - 1]
    } else {
        0
    }
}

/// The accumulator after the first `i` steps, starting from the zero-padded test vector.
pub open spec fn chain_acc(
    params: Params,
    ct_1: Seq<u64>,
    ct_2: Seq<u64>,
    w_1: u64,
    w_2: u64,
    testv: Seq<u64>,
    bsk: Seq<Seq<Seq<Seq<Seq<u64>>>>>,
    ksk: Seq<Seq<Seq<Seq<u64>>>>,
    i: nat,
) -> Seq<Seq<u64>>
    decreases i,
{
    if i == 0 {
        gtrivial(testv, params.glwe_size as nat)
    } else {
        let j = (i - 1) as nat;
        step_spec(
            params,
            i,
            chain_acc(params, ct_1, ct_2, w_1, w_2, testv, bsk, ksk, j),
            step_ggsw(bsk, ksk, params, j),
            mask_value(step_mask(ct_1, params, j), step_mask(ct_2, params, j), w_1, w_2),
        )
    }
}

/// The output ciphertext of the whole chain of n + 2 steps.
pub open spec fn pbs_output(
    params: Params,
    ct_1: Seq<u64>,
    ct_2: Seq<u64>,
    w_1: u64,
    w_2: u64,
    testv: Seq<u64>,
    bsk: Seq<Seq<Seq<Seq<Seq<u64>>>>>,
    ksk: Seq<Seq<Seq<Seq<u64>>>>,
) -> Seq<Seq<u64>> {
    chain_acc(params, ct_1, ct_2, w_1, w_2, testv, bsk, ksk, (params.lwe_dim + 2) as nat)
}

/// The public inputs of a step before its hash commitments: the initial accumulator, the
/// counter and the accumulator after the step.
pub open spec fn public_prefix(params: Params, testv: Seq<u64>, counter: u64, acc: Seq<Seq<u64>>) -> Seq<u64> {
    gtrivial(testv, params.glwe_size as nat).flatten() + seq![counter] + acc.flatten()
}

/// The samples, test vector and keys agree with the parameters and with each other.
pub open spec fn key_material_wf(
    params: Params,
    ct_1: Seq<u64>,
    ct_2: Seq<u64>,
    testv: Seq<u64>,
    bsk: Seq<Seq<Seq<Seq<Seq<u64>>>>>,
    ksk: Seq<Seq<Seq<Seq<u64>>>>,
) -> bool {
    &&& params.wf()
    &&& lwe_sample(ct_1, params.lwe_dim as nat)
    &&& lwe_sample(ct_2, params.lwe_dim as nat)
    &&& ring_elem(testv, params.ring_dim as nat)
    &&& bsk.len() == params.lwe_dim
    &&& forall|i: int| 0 <= i < bsk.len() ==> ggsw_wf(#[trigger] bsk[i], params)
    &&& ggsw_wf(ksk, params)
}

/// The bootstrapping inputs agree with the parameters and with each other, and the weights
/// are field elements.
pub open spec fn pbs_inputs_wf(
    params: Params,
    ct_1: Seq<u64>,
    ct_2: Seq<u64>,
    w_1: u64,
    w_2: u64,
    testv: Seq<u64>,
    bsk: Seq<Seq<Seq<Seq<Seq<u64>>>>>,
    ksk: Seq<Seq<Seq<Seq<u64>>>>,
) -> bool {
    key_material_wf(params, ct_1, ct_2, testv, bsk, ksk) && w_1 < P && w_2 < P
}

/// The views of a list of GGSW ciphertexts.
pub open spec fn ggsws_view(v: Seq<Ggsw>) -> Seq<Seq<Seq<Seq<Seq<u64>>>>> {
    v.map_values(|g: Ggsw| g@)
}

/// The data that the GGSW hash chain absorbs, one entry per step.
pub open spec fn bsk_hash_data_spec(bsk: Seq<Seq<Seq<Seq<Seq<u64>>>>>, ksk: Seq<Seq<Seq<Seq<u64>>>>, params: Params) -> Seq<Seq<u64>> {
    Seq::new((params.lwe_dim + 2) as nat, |i: int| ggsw_flat(step_ggsw(bsk, ksk, params, i as nat)))
}

/// The data that the hash chain of an LWE sample absorbs, one entry per step.
pub open spec fn lwe_hash_data_spec(ct: Seq<u64>, params: Params) -> Seq<Seq<u64>> {
    Seq::new((params.lwe_dim + 2) as nat, |i: int| seq![step_mask(ct, params, i as nat)])
}

/// Whether the LWE sample has dimension n and canonical coordinates.
pub fn lwe_is_wf(ct: &Vec<u64>, n: usize) -> (r: bool)
    ensures
        r == lwe_sample(ct@, n as nat),
{
    ct.len() as u128 == n as u128 + 1 && all_canonical(ct)
}

/// Whether the samples, test vector and keys agree with `params` and with each other.
pub fn key_material_is_wf(
    params: Params,
    ct_1: &Vec<u64>,
    ct_2: &Vec<u64>,
    testv: &Poly,
    bsk: &Vec<Ggsw>,
    ksk: &Ggsw,
) -> (r: bool)
    ensures
        r == key_material_wf(params, ct_1@, ct_2@, testv@, ggsws_view(bsk@), ksk@),
{
    if !params.is_valid() || !lwe_is_wf(ct_1, params.lwe_dim) || !lwe_is_wf(ct_2, params.lwe_dim) {
        return false;
    }
    if !poly_is_wf(testv, params.ring_dim) {
        return false;
    }
    if bsk.len() != params.lwe_dim || !ggsw_is_wf(ksk, params) {
        return false;
    }
    let mut i: usize = 0;
    while i < bsk.len()
        invariant
            i <= bsk@.len(),
            forall|t: int| 0 <= t < i ==> ggsw_wf(#[trigger] ggsws_view(bsk@)[t], params),
        decreases bsk@.len() - i,
    {
        if !ggsw_is_wf(&bsk[i], params) {
            assert(!ggsw_wf(ggsws_view(bsk@)[i as int], params));
            return false;
        }
        i = i + 1;
    }
    true
}

/// One step of the chain (see `step_spec`); `counter` runs from 1 to n + 2, and the mask
/// coordinate is `weight_1 * m_1 + weight_2 * m_2`.
pub fn bootstrap_step(
    params: Params,
    counter: usize,
    acc: &Glwe,
    g: &Ggsw,
    m_1: u64,
    m_2: u64,
    weight_1: u64,
    weight_2: u64,
) -> (r: Glwe)
    requires
        params.wf(),
        glwe_wf(acc@, params),
        ggsw_wf(g@, params),
        m_1 < P,
        m_2 < P,
        weight_1 < P,
        weight_2 < P,
    ensures
        r@ == step_spec(params, counter as nat, acc@, g@, mask_value(m_1, m_2, weight_1, weight_2)),
        glwe_wf(r@, params),
{
    let a = fe_mul(weight_1, m_1);
    let b = fe_mul(weight_2, m_2);
    let v = fe_add(a, b);
    if counter == 1 {
        let s = mod_switch(fe_neg(v), params.ring_dim);
        acc.rotate(s, params)
    } else if counter as u128 == params.lwe_dim as u128 + 2 {
        g.external_product(acc, params)
    } else {
        let s = mod_switch(v, params.ring_dim);
        let rotated = acc.rotate(s, params);
        let diff = rotated.sub(acc, params);
        let prod = g.external_product(&diff, params);
        prod.add(acc, params)
    }
}

/// Runs the n + 2 steps of the programmable bootstrap on the weighted sum of two LWE samples:
/// the initial rotation by the body, one CMUX per bootstrapping-key entry, and the key switch.
/// Returns the output ciphertext and the public inputs that the last step's proof claims before
/// its hash commitments.
pub fn verified_pbs(
    params: Params,
    ct_1: &Vec<u64>,
    ct_2: &Vec<u64>,
    weight_1: u64,
    weight_2: u64,
    testv: &Poly,
    bsk: &Vec<Ggsw>,
    ksk: &Ggsw,
) -> (r: Result<PbsOutput, PbsError>)
    ensures
        match r {
            Ok(out) => {
                &&& pbs_inputs_wf(params, ct_1@, ct_2@, weight_1, weight_2, testv@, ggsws_view(bsk@), ksk@)
                &&& out.out_ct@ == pbs_output(params, ct_1@, ct_2@, weight_1, weight_2, testv@, ggsws_view(bsk@), ksk@)
                &&& glwe_wf(out.out_ct@, params)
                &&& out.public_inputs@ == public_prefix(params, testv@, (params.lwe_dim + 2) as u64, out.out_ct@)
            },
            Err(e) => {
                &&& e == PbsError::MalformedInput
                &&& !pbs_inputs_wf(params, ct_1@, ct_2@, weight_1, weight_2, testv@, ggsws_view(bsk@), ksk@)
            },
        },
{
    if weight_1 >= P || weight_2 >= P || !key_material_is_wf(params, ct_1, ct_2, testv, bsk, ksk) {
        return Err(PbsError::MalformedInput);
    }
    let ghost bv = ggsws_view(bsk@);
    let n = params.lwe_dim;
    let dummy = Ggsw::dummy_ct(params);
    let init = Glwe::trivial(testv, params.glwe_size);
    assert(glwe_wf(init@, params)) by {
        assert forall|j: int| 0 <= j < params.glwe_size implies ring_elem(#[trigger] init@[j], params.ring_dim as nat) by {}
    }
    let mut acc = init.copy();
    proof {
        params.lemma_lwe_dim_bound();
    }
    let mut i: usize = 0;
    while i < n + 2
        invariant
            pbs_inputs_wf(params, ct_1@, ct_2@, weight_1, weight_2, testv@, bv, ksk@),
            bv == ggsws_view(bsk@),
            n == params.lwe_dim,
            n <= MAX_GLWE_SIZE * MAX_RING_DIM,
            dummy@ == zero_ggsw(params),
            ggsw_wf(dummy@, params),
            i <= n + 2,
            acc@ == chain_acc(params, ct_1@, ct_2@, weight_1, weight_2, testv@, bv, ksk@, i as nat),
            glwe_wf(acc@, params),
        decreases n + 2 - i,
    {
        let g: &Ggsw = if i == 0 {
            &dummy
        } else if i <= n {
            assert(ggsw_wf(bv[i - 1], params));
            &bsk[i - 1]
        } else {
            ksk
        };
        let m_1 = if i == 0 {
            ct_1[n]
        } else if i <= n {
            ct_1[i - 1]
        } else {
            0
        };
        let m_2 = if i == 0 {
            ct_2[n]
        } else if i <= n {
            ct_2[i - 1]
        } else {
            0
        };
        assert(g@ == step_ggsw(bv, ksk@, params, i as nat));
        acc = bootstrap_step(params, i + 1, &acc, g, m_1, m_2, weight_1, weight_2);
        i = i + 1;
    }
    let mut public_inputs = init.flatten();
    public_inputs.push((n + 2) as u64);
    let mut acc_flat = acc.flatten();
    public_inputs.append(&mut acc_flat);
    Ok(PbsOutput { out_ct: acc, public_inputs })
}

/// The data that the GGSW hash chain absorbs: the all-zero GGSW, the bootstrapping key in
/// order, then the key-switching key, each flattened.
pub fn bsk_hash_data(bsk: &Vec<Ggsw>, ksk: &Ggsw, params: Params) -> (r: Vec<Vec<u64>>)
    requires
        params.wf(),
        bsk@.len() == params.lwe_dim,
    ensures
        r@.len() == params.lwe_dim + 2,
        forall|i: int| 0 <= i < r@.len() ==> (#[trigger] r@[i])@ == bsk_hash_data_spec(ggsws_view(bsk@), ksk@, params)[i],
{
    let n = params.lwe_dim;
    let dummy = Ggsw::dummy_ct(params);
    proof {
        params.lemma_lwe_dim_bound();
    }
    let mut v: Vec<Vec<u64>> = Vec::new();
    let mut i: usize = 0;
    while i < n + 2
        invariant
            params.wf(),
            n == params.lwe_dim,
            n <= MAX_GLWE_SIZE * MAX_RING_DIM,
            bsk@.len() == n,
            dummy@ == zero_ggsw(params),
            i <= n + 2,
            v@.len() == i,
            forall|t: int| 0 <= t < i ==> (#[trigger] v@[t])@ == bsk_hash_data_spec(ggsws_view(bsk@), ksk@, params)[t],
        decreases n + 2 - i,
    {
        let f = if i == 0 {
            dummy.flatten()
        } else if i <= n {
            bsk[i - 1].flatten()
        } else {
            ksk.flatten()
        };
        v.push(f);
        i = i + 1;
    }
    v
}

/// The data that the hash chain of an LWE sample absorbs: the body, the mask in order, then
/// zero, one coordinate per step.
pub fn lwe_hash_data(ct: &Vec<u64>, params: Params) -> (r: Vec<Vec<u64>>)
    requires
        params.wf(),
        ct@.len() == params.lwe_dim + 1,
    ensures
        r@.len() == params.lwe_dim + 2,
        forall|i: int| 0 <= i < r@.len() ==> (#[trigger] r@[i])@ == lwe_hash_data_spec(ct@, params)[i],
{
    let n = params.lwe_dim;
    proof {
        params.lemma_lwe_dim_bound();
    }
    let mut v: Vec<Vec<u64>> = Vec::new();
    let mut i: usize = 0;
    while i < n + 2
        invariant
            params.wf(),
            n == params.lwe_dim,
            n <= MAX_GLWE_SIZE * MAX_RING_DIM,
            ct@.len() == n + 1,
            i <= n + 2,
            v@.len() == i,
            forall|t: int| 0 <= t < i ==> (#[trigger] v@[t])@ == lwe_hash_data_spec(ct@, params)[t],
        decreases n + 2 - i,
    {
        let x = if i == 0 {
            ct[n]
        } else if i <= n {
            ct[i - 1]
        } else {
            0
        };
        let mut e: Vec<u64> = Vec::new();
        e.push(x);
        assert(e@ =~= seq![step_mask(ct@, params, i as nat)]);
        v.push(e);
        i = i + 1;
    }
    v
}

/// What one link of a hash chain absorbs: the previous commitment followed by the new data.
pub fn chain_link_input(prev: &Vec<u64>, data: &Vec<u64>) -> (r: Vec<u64>)
    ensures
        r@ == prev@ + data@,
{
    let mut r = prev.clone();
    let mut d = data.clone();
    r.append(&mut d);
    r
}

/// The commitment a hash chain starts from: four zero field elements.
pub fn initial_commitment() -> (r: Vec<u64>)
    ensures
        r@ == seq![0u64, 0u64, 0u64, 0u64],
{
    let r: Vec<u64> = vec![0, 0, 0, 0];
    assert(r@ =~= seq![0u64, 0u64, 0u64, 0u64]);
    r
}

} // verus!
