use crate::extprod::{lemma_external_product_exact, lemma_phase_gadd, lemma_pmul_psub};
use crate::field::{fred, lemma_fred_add, lemma_fred_add_right, lemma_fred_canonical, lemma_fred_sub, P};
use crate::ggsw::{ext_prod, ggsw_encrypts, ggsw_wf, pconst, zero_ggsw};
use crate::glwe::{binary, gadd, gdot, glwe_key_wf, glwe_phase, glwe_wf, grot, gsub, gtrivial, lemma_gdot_len};
use crate::lwe::mod_switch_coeff;
use crate::params::Params;
use crate::pbs::{chain_acc, mask_value, pbs_inputs_wf, pbs_output, step_ggsw, step_mask, step_spec};
use crate::poly::{canon, lemma_rotate_compose, lemma_rotate_zero, padd, pmul, prot, psub, pzero, ring_elem};
use crate::ring::{aext, lemma_aext_padd, lemma_pmul_comm, lemma_pmul_one, lemma_pmul_zero, lemma_prot_aext, lemma_prot_pmul, pone};
use vstd::prelude::*;

verus! {

/// Canonical coefficients congruent modulo P are equal.
proof fn lemma_congruent_canonical(a: u64, b: u64)
    requires
        a < P,
        b < P,
        fred(a as int) == fred(b as int),
    ensures
        a == b,
{
    lemma_fred_canonical(a);
    lemma_fred_canonical(b);
}

/// Rotation distributes over addition.
proof fn lemma_prot_padd(a: Seq<u64>, b: Seq<u64>, r: int)
    requires
        canon(a),
        canon(b),
        a.len() == b.len(),
        a.len() > 0,
    ensures
        prot(padd(a, b), r) == padd(prot(a, r), prot(b, r)),
{
    let n = a.len();
    assert forall|i: int| 0 <= i < n implies #[trigger] prot(padd(a, b), r)[i] == padd(prot(a, r), prot(b, r))[i] by {
        lemma_prot_aext(padd(a, b), r, i);
        lemma_prot_aext(a, r, i);
        lemma_prot_aext(b, r, i);
        lemma_aext_padd(a, b, i - r);
        let x = prot(a, r)[i] as int;
        let y = prot(b, r)[i] as int;
        lemma_fred_add(x, y);
        lemma_fred_add_right(fred(x) as int, y);
        lemma_fred_add(aext(a, i - r), y);
        lemma_fred_add(aext(a, i - r), fred(aext(b, i - r)) as int);
        lemma_fred_add_right(aext(a, i - r), aext(b, i - r));
        lemma_fred_add_right(aext(a, i - r), y);
        lemma_fred_canonical(prot(a, r)[i]);
        lemma_fred_canonical(prot(b, r)[i]);
        lemma_congruent_canonical(prot(padd(a, b), r)[i], padd(prot(a, r), prot(b, r))[i]);
    }
    assert(prot(padd(a, b), r) =~= padd(prot(a, r), prot(b, r)));
}

/// Rotation distributes over subtraction.
proof fn lemma_prot_psub(a: Seq<u64>, b: Seq<u64>, r: int)
    requires
        canon(a),
        canon(b),
        a.len() == b.len(),
        a.len() > 0,
    ensures
        prot(psub(a, b), r) == psub(prot(a, r), prot(b, r)),
{
    let n = a.len();
    let d = psub(a, b);
    // a = (a - b) + b, so rotating a is rotating (a - b) plus rotating b.
    assert(padd(d, b) =~= a) by {
        assert forall|i: int| 0 <= i < n implies #[trigger] padd(d, b)[i] == a[i] by {
            lemma_fred_add(a[i] - b[i], b[i] as int);
            lemma_fred_canonical(a[i]);
            assert(a[i] - b[i] + b[i] == a[i]);
        }
    }
    lemma_prot_padd(d, b, r);
    assert forall|i: int| 0 <= i < n implies #[trigger] prot(d, r)[i] == psub(prot(a, r), prot(b, r))[i] by {
        let x = prot(d, r)[i] as int;
        let y = prot(b, r)[i] as int;
        assert(prot(a, r)[i] == fred(x + y));
        lemma_fred_sub(x + y, y);
        assert(x + y - y == x);
        lemma_fred_canonical(prot(d, r)[i]);
    }
    assert(prot(d, r) =~= psub(prot(a, r), prot(b, r)));
}

proof fn lemma_prot_pzero(n: nat, r: int)
    requires
        n > 0,
    ensures
        prot(pzero(n), r) == pzero(n),
{
    assert forall|i: int| 0 <= i < n implies #[trigger] prot(pzero(n), r)[i] == pzero(n)[i] by {
        vstd::arithmetic::div_mod::lemma_mod_division_less_than_divisor(i - r, 2 * n as int);
    }
    assert(prot(pzero(n), r) =~= pzero(n));
}

/// The masks-times-key sum of a rotated ciphertext is the rotated sum.
proof fn lemma_gdot_grot(a: Seq<Seq<u64>>, s: Seq<Seq<u64>>, r: int, m: nat, n: nat)
    requires
        n > 0,
        m <= a.len(),
        m <= s.len(),
        forall|i: int| 0 <= i < m ==> ring_elem(#[trigger] a[i], n),
        forall|i: int| 0 <= i < m ==> ring_elem(#[trigger] s[i], n),
    ensures
        gdot(grot(a, r), s, m, n) == prot(gdot(a, s, m, n), r),
    decreases m,
{
    lemma_gdot_len(a, s, m, n);
    if m == 0 {
        lemma_prot_pzero(n, r);
    } else {
        let i = m - 1;
        lemma_gdot_grot(a, s, r, (m - 1) as nat, n);
        assert(ring_elem(a[i], n) && ring_elem(s[i], n));
        lemma_prot_pmul(a[i], s[i], r);
        lemma_gdot_len(a, s, (m - 1) as nat, n);
        lemma_prot_padd(gdot(a, s, (m - 1) as nat, n), pmul(a[i], s[i]), r);
    }
}

/// The phase of a rotated ciphertext is the rotated phase.
proof fn lemma_phase_grot(s: Seq<Seq<u64>>, a: Seq<Seq<u64>>, r: int, params: Params)
    requires
        params.wf(),
        glwe_key_wf(s, params),
        glwe_wf(a, params),
    ensures
        glwe_phase(s, grot(a, r)) == prot(glwe_phase(s, a), r),
        glwe_wf(grot(a, r), params),
{
    let n = params.ring_dim as nat;
    let k = s.len();
    assert(ring_elem(a[k as int], n));
    lemma_gdot_grot(a, s, r, k, n);
    lemma_gdot_len(a, s, k, n);
    lemma_prot_psub(a[k as int], gdot(a, s, k, n), r);
    assert forall|j: int| 0 <= j < params.glwe_size implies #[trigger] ring_elem(grot(a, r)[j], n) by {
        assert(ring_elem(a[j], n));
    }
}

/// The masks-times-key sum of a difference of ciphertexts is the difference of theirs.
proof fn lemma_gdot_gsub(a: Seq<Seq<u64>>, b: Seq<Seq<u64>>, s: Seq<Seq<u64>>, m: nat, n: nat)
    requires
        n > 0,
        m <= a.len(),
        a.len() == b.len(),
        m <= s.len(),
        forall|i: int| 0 <= i < m ==> ring_elem(#[trigger] a[i], n),
        forall|i: int| 0 <= i < m ==> ring_elem(#[trigger] b[i], n),
        forall|i: int| 0 <= i < m ==> ring_elem(#[trigger] s[i], n),
    ensures
        gdot(gsub(a, b), s, m, n) == psub(gdot(a, s, m, n), gdot(b, s, m, n)),
    decreases m,
{
    lemma_gdot_len(a, s, m, n);
    lemma_gdot_len(b, s, m, n);
    if m == 0 {
        assert(psub(pzero(n), pzero(n)) =~= pzero(n));
    } else {
        let i = m - 1;
        lemma_gdot_gsub(a, b, s, (m - 1) as nat, n);
        assert(ring_elem(a[i], n) && ring_elem(b[i], n) && ring_elem(s[i], n));
        lemma_pmul_comm(psub(a[i], b[i]), s[i]);
        lemma_pmul_psub(s[i], a[i], b[i]);
        lemma_pmul_comm(s[i], a[i]);
        lemma_pmul_comm(s[i], b[i]);
        let x = gdot(a, s, (m - 1) as nat, n);
        let y = gdot(b, s, (m - 1) as nat, n);
        lemma_gdot_len(a, s, (m - 1) as nat, n);
        lemma_gdot_len(b, s, (m - 1) as nat, n);
        let u = pmul(a[i], s[i]);
        let v = pmul(b[i], s[i]);
        assert forall|t: int| 0 <= t < n implies #[trigger] padd(psub(x, y), psub(u, v))[t] == psub(padd(x, u), padd(y, v))[t] by {
            lemma_fred_add(x[t] - y[t], fred(u[t] - v[t]) as int);
            lemma_fred_add_right(x[t] - y[t], u[t] - v[t]);
            lemma_fred_sub(x[t] + u[t], fred(y[t] + v[t]) as int);
            crate::field::lemma_fred_sub_right(x[t] + u[t], y[t] + v[t]);
            assert(x[t] - y[t] + (u[t] - v[t]) == x[t] + u[t] - (y[t] + v[t]));
        }
        assert(padd(psub(x, y), psub(u, v)) =~= psub(padd(x, u), padd(y, v)));
    }
}

/// The phase is compatible with subtraction.
proof fn lemma_phase_gsub(s: Seq<Seq<u64>>, a: Seq<Seq<u64>>, b: Seq<Seq<u64>>, params: Params)
    requires
        params.wf(),
        glwe_key_wf(s, params),
        glwe_wf(a, params),
        glwe_wf(b, params),
    ensures
        glwe_phase(s, gsub(a, b)) == psub(glwe_phase(s, a), glwe_phase(s, b)),
        glwe_wf(gsub(a, b), params),
{
    let n = params.ring_dim as nat;
    let k = s.len();
    assert(ring_elem(a[k as int], n) && ring_elem(b[k as int], n));
    lemma_gdot_gsub(a, b, s, k, n);
    lemma_gdot_len(a, s, k, n);
    lemma_gdot_len(b, s, k, n);
    let x = a[k as int];
    let y = b[k as int];
    let u = gdot(a, s, k, n);
    let v = gdot(b, s, k, n);
    assert forall|t: int| 0 <= t < n implies #[trigger] psub(psub(x, y), psub(u, v))[t] == psub(psub(x, u), psub(y, v))[t] by {
        lemma_fred_sub(x[t] - y[t], fred(u[t] - v[t]) as int);
        crate::field::lemma_fred_sub_right(x[t] - y[t], u[t] - v[t]);
        lemma_fred_sub(x[t] - u[t], fred(y[t] - v[t]) as int);
        crate::field::lemma_fred_sub_right(x[t] - u[t], y[t] - v[t]);
        assert(x[t] - y[t] - (u[t] - v[t]) == x[t] - u[t] - (y[t] - v[t]));
    }
    assert(psub(psub(x, y), psub(u, v)) =~= psub(psub(x, u), psub(y, v)));
    assert forall|j: int| 0 <= j < params.glwe_size implies #[trigger] ring_elem(gsub(a, b)[j], n) by {
        assert(ring_elem(a[j], n));
    }
}

/// The zero-padded test vector has the test vector as its phase under any key.
proof fn lemma_phase_trivial(s: Seq<Seq<u64>>, testv: Seq<u64>, params: Params)
    requires
        params.wf(),
        glwe_key_wf(s, params),
        ring_elem(testv, params.ring_dim as nat),
    ensures
        glwe_phase(s, gtrivial(testv, params.glwe_size as nat)) == testv,
        glwe_wf(gtrivial(testv, params.glwe_size as nat), params),
{
    let n = params.ring_dim as nat;
    let c = gtrivial(testv, params.glwe_size as nat);
    lemma_gdot_trivial(s, testv, params, s.len());
    assert forall|t: int| 0 <= t < n implies #[trigger] psub(testv, pzero(n))[t] == testv[t] by {
        lemma_fred_canonical(testv[t]);
    }
    assert(psub(testv, pzero(n)) =~= testv);
    assert forall|j: int| 0 <= j < params.glwe_size implies #[trigger] ring_elem(c[j], n) by {}
}

proof fn lemma_gdot_trivial(s: Seq<Seq<u64>>, testv: Seq<u64>, params: Params, m: nat)
    requires
        params.wf(),
        glwe_key_wf(s, params),
        ring_elem(testv, params.ring_dim as nat),
        m <= s.len(),
    ensures
        gdot(gtrivial(testv, params.glwe_size as nat), s, m, params.ring_dim as nat) == pzero(params.ring_dim as nat),
    decreases m,
{
    let n = params.ring_dim as nat;
    if m > 0 {
        let i = m - 1;
        lemma_gdot_trivial(s, testv, params, (m - 1) as nat);
        assert(ring_elem(s[i], n));
        lemma_pmul_comm(pzero(n), s[i]);
        lemma_pmul_zero(s[i]);
        crate::ring::lemma_padd_zero(pzero(n));
    }
}

/// The rotation that the first `i` steps apply to the test vector: the negated rounded body,
/// then, for each key bit that is set, the rounded mask coordinate (all modulo 2N).
pub open spec fn rotation_after(
    params: Params,
    ct_1: Seq<u64>,
    ct_2: Seq<u64>,
    w_1: u64,
    w_2: u64,
    s_lwe: Seq<u64>,
    i: nat,
) -> int
    decreases i,
{
    let n = params.ring_dim as nat;
    if i == 0 {
        0
    } else {
        let j = (i - 1) as nat;
        let v = mask_value(step_mask(ct_1, params, j), step_mask(ct_2, params, j), w_1, w_2);
        let step = if j == 0 {
            mod_switch_coeff(crate::field::fneg(v), n) as int
        } else {
            s_lwe[j - 1] * mod_switch_coeff(v, n)
        };
        (rotation_after(params, ct_1, ct_2, w_1, w_2, s_lwe, j) + step) % (2 * n as int)
    }
}

/// The keys are what `compute_bsk` and `compute_ksk` make without noise: a GGSW of each bit of
/// `s_lwe` for and under `s_glwe`, and one of 1 for `s_glwe` under `s_to`.
pub open spec fn noiseless_keys(
    params: Params,
    s_lwe: Seq<u64>,
    s_glwe: Seq<Seq<u64>>,
    s_to: Seq<Seq<u64>>,
    bsk: Seq<Seq<Seq<Seq<Seq<u64>>>>>,
    ksk: Seq<Seq<Seq<Seq<u64>>>>,
) -> bool {
    &&& glwe_key_wf(s_glwe, params)
    &&& glwe_key_wf(s_to, params)
    &&& s_lwe.len() == params.lwe_dim
    &&& binary(s_lwe)
    &&& forall|i: int| 0 <= i < params.lwe_dim ==> ggsw_encrypts(
        #[trigger] bsk[i],
        s_glwe,
        s_glwe,
        pconst(s_lwe[i], params.ring_dim as nat),
        0,
        params,
    )
    &&& ggsw_encrypts(ksk, s_to, s_glwe, pconst(1, params.ring_dim as nat), 0, params)
}

proof fn lemma_chain_phase(
    params: Params,
    ct_1: Seq<u64>,
    ct_2: Seq<u64>,
    w_1: u64,
    w_2: u64,
    testv: Seq<u64>,
    bsk: Seq<Seq<Seq<Seq<Seq<u64>>>>>,
    ksk: Seq<Seq<Seq<Seq<u64>>>>,
    s_lwe: Seq<u64>,
    s_glwe: Seq<Seq<u64>>,
    s_to: Seq<Seq<u64>>,
    i: nat,
)
    requires
        pbs_inputs_wf(params, ct_1, ct_2, w_1, w_2, testv, bsk, ksk),
        params.log_base * params.levels == 64,
        noiseless_keys(params, s_lwe, s_glwe, s_to, bsk, ksk),
        i <= params.lwe_dim + 1,
    ensures
        glwe_phase(s_glwe, chain_acc(params, ct_1, ct_2, w_1, w_2, testv, bsk, ksk, i)) == prot(
            testv,
            rotation_after(params, ct_1, ct_2, w_1, w_2, s_lwe, i),
        ),
        glwe_wf(chain_acc(params, ct_1, ct_2, w_1, w_2, testv, bsk, ksk, i), params),
        0 <= rotation_after(params, ct_1, ct_2, w_1, w_2, s_lwe, i) < 2 * params.ring_dim,
    decreases i,
{
    let n = params.ring_dim as nat;
    let m = 2 * n as int;
    if i == 0 {
        lemma_phase_trivial(s_glwe, testv, params);
        lemma_rotate_zero(testv);
    } else {
        let j = (i - 1) as nat;
        lemma_chain_phase(params, ct_1, ct_2, w_1, w_2, testv, bsk, ksk, s_lwe, s_glwe, s_to, j);
        let acc = chain_acc(params, ct_1, ct_2, w_1, w_2, testv, bsk, ksk, j);
        let prev = rotation_after(params, ct_1, ct_2, w_1, w_2, s_lwe, j);
        let v = mask_value(step_mask(ct_1, params, j), step_mask(ct_2, params, j), w_1, w_2);
        let ph = glwe_phase(s_glwe, acc);
        vstd::arithmetic::div_mod::lemma_mod_division_less_than_divisor(
            prev + (if j == 0 { mod_switch_coeff(crate::field::fneg(v), n) as int } else { s_lwe[j - 1] * mod_switch_coeff(v, n) }),
            m,
        );
        if j == 0 {
            let r = mod_switch_coeff(crate::field::fneg(v), n) as int;
            lemma_phase_grot(s_glwe, acc, r, params);
            lemma_rotate_compose(testv, prev, r);
        } else {
            let r = mod_switch_coeff(v, n) as int;
            let g = bsk[j - 1];
            let bit = s_lwe[j - 1];
            assert(ggsw_encrypts(g, s_glwe, s_glwe, pconst(bit, n), 0, params));
            assert(step_ggsw(bsk, ksk, params, j) == g);
            let rotated = grot(acc, r);
            lemma_phase_grot(s_glwe, acc, r, params);
            let diff = gsub(rotated, acc);
            lemma_phase_gsub(s_glwe, rotated, acc, params);
            lemma_external_product_exact(g, diff, s_glwe, s_glwe, pconst(bit, n), params);
            let prod = ext_prod(g, diff, params);
            lemma_phase_gadd(s_glwe, prod, acc, params);
            let d = psub(prot(ph, r), ph);
            if bit == 1 {
                assert(pconst(bit, n) =~= pone(n));
                lemma_pmul_one(d);
                assert(padd(d, ph) =~= prot(ph, r)) by {
                    assert forall|t: int| 0 <= t < n implies #[trigger] padd(d, ph)[t] == prot(ph, r)[t] by {
                        lemma_fred_add(prot(ph, r)[t] - ph[t], ph[t] as int);
                        assert(prot(ph, r)[t] - ph[t] + ph[t] == prot(ph, r)[t]);
                        lemma_fred_canonical(prot(ph, r)[t]);
                    }
                }
                lemma_rotate_compose(testv, prev, r);
                assert(bit * r == r) by (nonlinear_arith)
                    requires
                        bit == 1,
                ;
            } else {
                assert(bit == 0);
                assert(pconst(bit, n) =~= pzero(n));
                lemma_pmul_comm(pzero(n), d);
                lemma_pmul_zero(d);
                crate::ring::lemma_padd_zero(ph);
                assert(bit * r == 0) by (nonlinear_arith)
                    requires
                        bit == 0,
                ;
                vstd::arithmetic::div_mod::lemma_small_mod(prev as nat, m as nat);
            }
        }
    }
}

/// Correctness of the programmable bootstrap: with noiseless keys and a full-precision
/// decomposition, the output ciphertext's phase under the output key is the test vector
/// rotated by the negated rounded body plus the rounded mask coordinates of the set key bits,
/// all of the weighted sum of the two samples.
pub proof fn lemma_bootstrap_output(
    params: Params,
    ct_1: Seq<u64>,
    ct_2: Seq<u64>,
    w_1: u64,
    w_2: u64,
    testv: Seq<u64>,
    bsk: Seq<Seq<Seq<Seq<Seq<u64>>>>>,
    ksk: Seq<Seq<Seq<Seq<u64>>>>,
    s_lwe: Seq<u64>,
    s_glwe: Seq<Seq<u64>>,
    s_to: Seq<Seq<u64>>,
)
    requires
        pbs_inputs_wf(params, ct_1, ct_2, w_1, w_2, testv, bsk, ksk),
        params.log_base * params.levels == 64,
        noiseless_keys(params, s_lwe, s_glwe, s_to, bsk, ksk),
    ensures
        glwe_phase(s_to, pbs_output(params, ct_1, ct_2, w_1, w_2, testv, bsk, ksk)) == prot(
            testv,
            rotation_after(params, ct_1, ct_2, w_1, w_2, s_lwe, (params.lwe_dim + 1) as nat),
        ),
{
    let n = params.ring_dim as nat;
    let last = (params.lwe_dim + 1) as nat;
    lemma_chain_phase(params, ct_1, ct_2, w_1, w_2, testv, bsk, ksk, s_lwe, s_glwe, s_to, last);
    let acc = chain_acc(params, ct_1, ct_2, w_1, w_2, testv, bsk, ksk, last);
    assert(step_ggsw(bsk, ksk, params, last) == ksk);
    lemma_external_product_exact(ksk, acc, s_to, s_glwe, pconst(1, n), params);
    assert(pconst(1, n) =~= pone(n));
    lemma_pmul_one(glwe_phase(s_glwe, acc));
}

} // verus!
