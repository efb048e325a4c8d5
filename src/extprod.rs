use crate::field::{fred, lemma_fred_add, lemma_fred_add_right, lemma_fred_canonical, lemma_fred_sub, P};
use crate::ggsw::{
    component_sum, digit_poly, ext_prod, gadget_msg, gadget_weight, ggsw_encrypts, glev_wf, level_sum,
    noise_within, recompose_low, recomposed,
};
use crate::glwe::{gadd, gdot, glwe_key_wf, glwe_phase, glwe_wf, lemma_gdot_len};
use crate::params::Params;
use crate::poly::{canon, padd, pmul, pneg, pscale, psub, pzero, ring_elem};
use crate::ring::{
    lemma_padd_pmul, lemma_padd_zero, lemma_pmul_assoc, lemma_pmul_comm, lemma_pmul_padd, lemma_pmul_zero,
    lemma_pneg_is_scale, lemma_pscale_pmul, lemma_psub_is_add_neg,
};
use vstd::prelude::*;

verus! {

/// Every ring element of the ciphertext multiplied by `d`.
pub open spec fn gmul(d: Seq<u64>, a: Seq<Seq<u64>>) -> Seq<Seq<u64>> {
    Seq::new(a.len(), |p: int| pmul(d, a[p]))
}

/// The ciphertext of K zero ring elements.
pub open spec fn gzero(params: Params) -> Seq<Seq<u64>> {
    Seq::new(params.glwe_size as nat, |p: int| pzero(params.ring_dim as nat))
}

/// (x + y) + (a + b) = (x + a) + (y + b), coefficient by coefficient.
proof fn lemma_padd_swap(x: Seq<u64>, y: Seq<u64>, a: Seq<u64>, b: Seq<u64>)
    requires
        x.len() == y.len(),
        x.len() == a.len(),
        x.len() == b.len(),
    ensures
        padd(padd(x, y), padd(a, b)) == padd(padd(x, a), padd(y, b)),
{
    assert forall|t: int| 0 <= t < x.len() implies #[trigger] padd(padd(x, y), padd(a, b))[t] == padd(
        padd(x, a),
        padd(y, b),
    )[t] by {
        lemma_fred_add(x[t] + y[t], fred(a[t] + b[t]) as int);
        lemma_fred_add_right(x[t] + y[t], a[t] + b[t]);
        lemma_fred_add(x[t] + a[t], fred(y[t] + b[t]) as int);
        lemma_fred_add_right(x[t] + a[t], y[t] + b[t]);
        assert(x[t] + y[t] + (a[t] + b[t]) == x[t] + a[t] + (y[t] + b[t]));
    }
    assert(padd(padd(x, y), padd(a, b)) =~= padd(padd(x, a), padd(y, b)));
}

/// (a + b) - (c + d) = (a - c) + (b - d), coefficient by coefficient.
proof fn lemma_psub_padd(a: Seq<u64>, b: Seq<u64>, c: Seq<u64>, d: Seq<u64>)
    requires
        a.len() == b.len(),
        a.len() == c.len(),
        a.len() == d.len(),
    ensures
        psub(padd(a, b), padd(c, d)) == padd(psub(a, c), psub(b, d)),
{
    assert forall|t: int| 0 <= t < a.len() implies #[trigger] psub(padd(a, b), padd(c, d))[t] == padd(
        psub(a, c),
        psub(b, d),
    )[t] by {
        lemma_fred_sub(a[t] + b[t], fred(c[t] + d[t]) as int);
        crate::field::lemma_fred_sub_right(a[t] + b[t], c[t] + d[t]);
        lemma_fred_add(a[t] - c[t], fred(b[t] - d[t]) as int);
        lemma_fred_add_right(a[t] - c[t], b[t] - d[t]);
        assert(a[t] + b[t] - (c[t] + d[t]) == a[t] - c[t] + (b[t] - d[t]));
    }
    assert(psub(padd(a, b), padd(c, d)) =~= padd(psub(a, c), psub(b, d)));
}

/// Left multiplication commutes with negation.
pub proof fn lemma_pmul_pneg(d: Seq<u64>, g: Seq<u64>)
    requires
        d.len() == g.len(),
        d.len() > 0,
    ensures
        pmul(d, pneg(g)) == pneg(pmul(d, g)),
{
    lemma_pneg_is_scale(g);
    lemma_pmul_comm(d, pscale(g, (P - 1) as u64));
    lemma_pscale_pmul(g, d, (P - 1) as u64);
    lemma_pmul_comm(g, d);
    lemma_pneg_is_scale(pmul(d, g));
}

/// Left multiplication commutes with subtraction.
pub proof fn lemma_pmul_psub(d: Seq<u64>, a: Seq<u64>, g: Seq<u64>)
    requires
        d.len() == a.len(),
        d.len() == g.len(),
        d.len() > 0,
    ensures
        pmul(d, psub(a, g)) == psub(pmul(d, a), pmul(d, g)),
{
    lemma_psub_is_add_neg(a, g);
    lemma_pmul_padd(d, a, pneg(g));
    lemma_pmul_pneg(d, g);
    lemma_psub_is_add_neg(pmul(d, a), pmul(d, g));
}

/// The masks-times-key sum of a sum of ciphertexts is the sum of theirs.
proof fn lemma_gdot_gadd(a: Seq<Seq<u64>>, b: Seq<Seq<u64>>, s: Seq<Seq<u64>>, m: nat, n: nat)
    requires
        n > 0,
        m <= a.len(),
        a.len() == b.len(),
        m <= s.len(),
        forall|i: int| 0 <= i < m ==> ring_elem(#[trigger] a[i], n),
        forall|i: int| 0 <= i < m ==> ring_elem(#[trigger] b[i], n),
        forall|i: int| 0 <= i < m ==> ring_elem(#[trigger] s[i], n),
    ensures
        gdot(gadd(a, b), s, m, n) == padd(gdot(a, s, m, n), gdot(b, s, m, n)),
    decreases m,
{
    lemma_gdot_len(a, s, m, n);
    lemma_gdot_len(b, s, m, n);
    if m == 0 {
        lemma_padd_zero(pzero(n));
    } else {
        let i = m - 1;
        lemma_gdot_gadd(a, b, s, (m - 1) as nat, n);
        assert(ring_elem(a[i], n) && ring_elem(b[i], n) && ring_elem(s[i], n));
        lemma_padd_pmul(a[i], b[i], s[i]);
        lemma_gdot_len(a, s, (m - 1) as nat, n);
        lemma_gdot_len(b, s, (m - 1) as nat, n);
        lemma_padd_swap(gdot(a, s, (m - 1) as nat, n), gdot(b, s, (m - 1) as nat, n), pmul(a[i], s[i]), pmul(b[i], s[i]));
    }
}

/// The masks-times-key sum of `d` times a ciphertext is `d` times its sum.
proof fn lemma_gdot_gmul(d: Seq<u64>, a: Seq<Seq<u64>>, s: Seq<Seq<u64>>, m: nat, n: nat)
    requires
        n > 0,
        d.len() == n,
        m <= a.len(),
        m <= s.len(),
        forall|i: int| 0 <= i < m ==> ring_elem(#[trigger] a[i], n),
        forall|i: int| 0 <= i < m ==> ring_elem(#[trigger] s[i], n),
    ensures
        gdot(gmul(d, a), s, m, n) == pmul(d, gdot(a, s, m, n)),
    decreases m,
{
    if m == 0 {
        lemma_pmul_zero(d);
    } else {
        let i = m - 1;
        lemma_gdot_gmul(d, a, s, (m - 1) as nat, n);
        assert(ring_elem(a[i], n) && ring_elem(s[i], n));
        lemma_pmul_assoc(d, a[i], s[i]);
        lemma_gdot_len(a, s, (m - 1) as nat, n);
        lemma_pmul_padd(d, gdot(a, s, (m - 1) as nat, n), pmul(a[i], s[i]));
    }
}

proof fn lemma_gdot_gzero(s: Seq<Seq<u64>>, params: Params, m: nat)
    requires
        params.wf(),
        m <= s.len(),
        m < params.glwe_size,
        forall|i: int| 0 <= i < m ==> ring_elem(#[trigger] s[i], params.ring_dim as nat),
    ensures
        gdot(gzero(params), s, m, params.ring_dim as nat) == pzero(params.ring_dim as nat),
    decreases m,
{
    let n = params.ring_dim as nat;
    if m > 0 {
        let i = m - 1;
        lemma_gdot_gzero(s, params, (m - 1) as nat);
        assert(gzero(params)[i] == pzero(n));
        assert(ring_elem(s[i], n));
        lemma_pmul_comm(pzero(n), s[i]);
        lemma_pmul_zero(s[i]);
        lemma_padd_zero(pzero(n));
    }
}

/// The phase is additive.
pub proof fn lemma_phase_gadd(s: Seq<Seq<u64>>, a: Seq<Seq<u64>>, b: Seq<Seq<u64>>, params: Params)
    requires
        params.wf(),
        glwe_key_wf(s, params),
        glwe_wf(a, params),
        glwe_wf(b, params),
    ensures
        glwe_phase(s, gadd(a, b)) == padd(glwe_phase(s, a), glwe_phase(s, b)),
        glwe_wf(gadd(a, b), params),
{
    let n = params.ring_dim as nat;
    let k = s.len();
    assert(ring_elem(a[k as int], n) && ring_elem(b[k as int], n));
    lemma_gdot_gadd(a, b, s, k, n);
    lemma_gdot_len(a, s, k, n);
    lemma_gdot_len(b, s, k, n);
    lemma_psub_padd(a[k as int], b[k as int], gdot(a, s, k, n), gdot(b, s, k, n));
    assert forall|j: int| 0 <= j < params.glwe_size implies #[trigger] ring_elem(gadd(a, b)[j], n) by {
        assert(ring_elem(a[j], n));
    }
}

/// The phase commutes with multiplying every ring element by `d`.
proof fn lemma_phase_gmul(s: Seq<Seq<u64>>, d: Seq<u64>, a: Seq<Seq<u64>>, params: Params)
    requires
        params.wf(),
        glwe_key_wf(s, params),
        glwe_wf(a, params),
        ring_elem(d, params.ring_dim as nat),
    ensures
        glwe_phase(s, gmul(d, a)) == pmul(d, glwe_phase(s, a)),
        glwe_wf(gmul(d, a), params),
{
    let n = params.ring_dim as nat;
    let k = s.len();
    assert(ring_elem(a[k as int], n));
    lemma_gdot_gmul(d, a, s, k, n);
    lemma_gdot_len(a, s, k, n);
    lemma_pmul_psub(d, a[k as int], gdot(a, s, k, n));
}

proof fn lemma_phase_gzero(s: Seq<Seq<u64>>, params: Params)
    requires
        params.wf(),
        glwe_key_wf(s, params),
    ensures
        glwe_phase(s, gzero(params)) == pzero(params.ring_dim as nat),
        glwe_wf(gzero(params), params),
{
    let n = params.ring_dim as nat;
    lemma_gdot_gzero(s, params, s.len());
    assert(psub(pzero(n), pzero(n)) =~= pzero(n));
}

/// The level sums of component `j`, for every ring element, as one ciphertext.
pub open spec fn level_glwe(g: Seq<Seq<Seq<Seq<u64>>>>, c: Seq<Seq<u64>>, params: Params, j: int, m: nat) -> Seq<Seq<u64>> {
    Seq::new(params.glwe_size as nat, |p: int| level_sum(g, c, params, p, j, m))
}

/// The component sums, for every ring element, as one ciphertext.
pub open spec fn component_glwe(g: Seq<Seq<Seq<Seq<u64>>>>, c: Seq<Seq<u64>>, params: Params, m: nat) -> Seq<Seq<u64>> {
    Seq::new(params.glwe_size as nat, |p: int| component_sum(g, c, params, p, m))
}

/// Sum over the lowest `m` levels of the digit ring element times the phase of the matching
/// GLWE ciphertext of component `j`.
pub open spec fn level_phase(
    g: Seq<Seq<Seq<Seq<u64>>>>,
    c: Seq<Seq<u64>>,
    s: Seq<Seq<u64>>,
    params: Params,
    j: int,
    m: nat,
) -> Seq<u64>
    decreases m,
{
    if m == 0 {
        pzero(params.ring_dim as nat)
    } else {
        let l = params.levels - m;
        padd(level_phase(g, c, s, params, j, (m - 1) as nat), pmul(digit_poly(c[j], params, l), glwe_phase(s, g[j][l])))
    }
}

/// Sum over the lowest `m` levels of the digit ring element times its gadget weight.
pub open spec fn recompose_poly(y: Seq<u64>, params: Params, m: nat) -> Seq<u64>
    decreases m,
{
    if m == 0 {
        pzero(params.ring_dim as nat)
    } else {
        let l = params.levels - m;
        padd(recompose_poly(y, params, (m - 1) as nat), pscale(digit_poly(y, params, l), gadget_weight(params, l)))
    }
}

/// The ciphertext with every coefficient rounded to its top LOGB * ELL bits (as the
/// decomposition sees it).
pub open spec fn rounded_glwe(c: Seq<Seq<u64>>, params: Params) -> Seq<Seq<u64>> {
    Seq::new(c.len(), |j: int| Seq::new(c[j].len(), |t: int| fred(recomposed(c[j][t], params))))
}

/// Sum over the first `m` components of the recomposed component times its gadget message.
pub open spec fn component_phase(c: Seq<Seq<u64>>, s: Seq<Seq<u64>>, x: Seq<u64>, params: Params, m: nat) -> Seq<u64>
    decreases m,
{
    if m == 0 {
        pzero(params.ring_dim as nat)
    } else {
        padd(
            component_phase(c, s, x, params, (m - 1) as nat),
            pmul(recompose_poly(c[m - 1], params, params.levels as nat), gadget_msg(s, x, m - 1)),
        )
    }
}

proof fn lemma_noise_free(ph: Seq<u64>, ex: Seq<u64>)
    requires
        canon(ph),
        canon(ex),
        noise_within(ph, ex, 0),
    ensures
        ph == ex,
{
    assert forall|t: int| 0 <= t < ph.len() implies #[trigger] ph[t] == ex[t] by {
        assert(crate::lwe::is_small(crate::field::fsub(ph[t], ex[t]), 0));
        let a = ph[t] as int;
        let b = ex[t] as int;
        if a > b {
            vstd::arithmetic::div_mod::lemma_small_mod((a - b) as nat, P as nat);
        } else if a < b {
            vstd::arithmetic::div_mod::lemma_mod_add_multiples_vanish(a - b, P as int);
            vstd::arithmetic::div_mod::lemma_small_mod((a - b + P) as nat, P as nat);
        }
    }
    assert(ph =~= ex);
}

proof fn lemma_phase_level(g: Seq<Seq<Seq<Seq<u64>>>>, c: Seq<Seq<u64>>, s: Seq<Seq<u64>>, params: Params, j: int, m: nat)
    requires
        params.wf(),
        glwe_key_wf(s, params),
        crate::ggsw::ggsw_wf(g, params),
        glwe_wf(c, params),
        0 <= j < params.glwe_size,
        m <= params.levels,
    ensures
        glwe_phase(s, level_glwe(g, c, params, j, m)) == level_phase(g, c, s, params, j, m),
        glwe_wf(level_glwe(g, c, params, j, m), params),
    decreases m,
{
    if m == 0 {
        assert(level_glwe(g, c, params, j, m) =~= gzero(params));
        lemma_phase_gzero(s, params);
    } else {
        let l = params.levels - m;
        lemma_phase_level(g, c, s, params, j, (m - 1) as nat);
        let d = digit_poly(c[j], params, l);
        assert(ring_elem(c[j], params.ring_dim as nat));
        assert(glev_wf(g[j], params));
        assert(glwe_wf(g[j][l], params));
        lemma_phase_gmul(s, d, g[j][l], params);
        lemma_phase_gadd(s, level_glwe(g, c, params, j, (m - 1) as nat), gmul(d, g[j][l]), params);
        assert(level_glwe(g, c, params, j, m) =~= gadd(level_glwe(g, c, params, j, (m - 1) as nat), gmul(d, g[j][l])));
    }
}

proof fn lemma_level_phase_value(
    g: Seq<Seq<Seq<Seq<u64>>>>,
    c: Seq<Seq<u64>>,
    e: Seq<Seq<u64>>,
    s: Seq<Seq<u64>>,
    x: Seq<u64>,
    params: Params,
    j: int,
    m: nat,
)
    requires
        params.wf(),
        glwe_key_wf(e, params),
        glwe_key_wf(s, params),
        ring_elem(x, params.ring_dim as nat),
        ggsw_encrypts(g, e, s, x, 0, params),
        glwe_wf(c, params),
        0 <= j < params.glwe_size,
        m <= params.levels,
    ensures
        level_phase(g, c, e, params, j, m) == pmul(recompose_poly(c[j], params, m), gadget_msg(s, x, j)),
        ring_elem(recompose_poly(c[j], params, m), params.ring_dim as nat),
    decreases m,
{
    let n = params.ring_dim as nat;
    let msg = gadget_msg(s, x, j);
    if j < s.len() {
        assert(ring_elem(s[j], n));
    }
    assert(ring_elem(msg, n));
    if m == 0 {
        lemma_pmul_comm(pzero(n), msg);
        lemma_pmul_zero(msg);
    } else {
        let l = params.levels - m;
        lemma_level_phase_value(g, c, e, s, x, params, j, (m - 1) as nat);
        let d = digit_poly(c[j], params, l);
        let w = gadget_weight(params, l);
        let r = recompose_poly(c[j], params, (m - 1) as nat);
        assert(ring_elem(c[j], n));
        assert(glev_wf(g[j], params));
        assert(glwe_wf(g[j][l], params));
        assert(ring_elem(g[j][l][e.len() as int], n));
        lemma_gdot_len(g[j][l], e, e.len(), n);
        lemma_noise_free(glwe_phase(e, g[j][l]), pscale(msg, w));
        lemma_pmul_comm(d, pscale(msg, w));
        lemma_pscale_pmul(msg, d, w);
        lemma_pmul_comm(msg, d);
        lemma_pscale_pmul(d, msg, w);
        lemma_padd_pmul(r, pscale(d, w), msg);
    }
}

proof fn lemma_recompose_poly_coeff(y: Seq<u64>, params: Params, m: nat, t: int)
    requires
        params.wf(),
        ring_elem(y, params.ring_dim as nat),
        m <= params.levels,
        0 <= t < params.ring_dim,
    ensures
        recompose_poly(y, params, m).len() == params.ring_dim,
        recompose_poly(y, params, m)[t] == fred(recompose_low(y[t], params, m)),
    decreases m,
{
    if m == 0 {
    } else {
        let l = params.levels - m;
        lemma_recompose_poly_coeff(y, params, (m - 1) as nat, t);
        let dg = crate::ggsw::level_digit(y[t], params, l);
        let w = gadget_weight(params, l) as int;
        let prev = recompose_low(y[t], params, (m - 1) as nat);
        vstd::arithmetic::div_mod::lemma_mul_mod_noop_left(dg, w, P as int);
        lemma_fred_add(prev, fred(fred(dg) * w) as int);
        lemma_fred_add_right(prev, fred(dg) * w);
        lemma_fred_add_right(prev, dg * w);
    }
}

proof fn lemma_phase_component(
    g: Seq<Seq<Seq<Seq<u64>>>>,
    c: Seq<Seq<u64>>,
    e: Seq<Seq<u64>>,
    s: Seq<Seq<u64>>,
    x: Seq<u64>,
    params: Params,
    m: nat,
)
    requires
        params.wf(),
        glwe_key_wf(e, params),
        glwe_key_wf(s, params),
        ring_elem(x, params.ring_dim as nat),
        ggsw_encrypts(g, e, s, x, 0, params),
        glwe_wf(c, params),
        m <= params.glwe_size,
    ensures
        glwe_phase(e, component_glwe(g, c, params, m)) == component_phase(c, s, x, params, m),
        glwe_wf(component_glwe(g, c, params, m), params),
    decreases m,
{
    if m == 0 {
        assert(component_glwe(g, c, params, m) =~= gzero(params));
        lemma_phase_gzero(e, params);
    } else {
        let j = m - 1;
        lemma_phase_component(g, c, e, s, x, params, (m - 1) as nat);
        lemma_phase_level(g, c, e, params, j, params.levels as nat);
        lemma_level_phase_value(g, c, e, s, x, params, j, params.levels as nat);
        lemma_phase_gadd(e, component_glwe(g, c, params, (m - 1) as nat), level_glwe(g, c, params, j, params.levels as nat), params);
        assert(component_glwe(g, c, params, m) =~= gadd(
            component_glwe(g, c, params, (m - 1) as nat),
            level_glwe(g, c, params, j, params.levels as nat),
        ));
    }
}

proof fn lemma_pneg_padd(a: Seq<u64>, b: Seq<u64>)
    requires
        a.len() == b.len(),
    ensures
        pneg(padd(a, b)) == padd(pneg(a), pneg(b)),
{
    assert forall|t: int| 0 <= t < a.len() implies #[trigger] pneg(padd(a, b))[t] == padd(pneg(a), pneg(b))[t] by {
        crate::field::lemma_fred_sub_right(0, a[t] + b[t]);
        lemma_fred_add(-(a[t] as int), fred(-(b[t] as int)) as int);
        lemma_fred_add_right(-(a[t] as int), -(b[t] as int));
        assert(0 - (a[t] + b[t]) == -(a[t] as int) + -(b[t] as int));
    }
    assert(pneg(padd(a, b)) =~= padd(pneg(a), pneg(b)));
}

/// The recomposed components of a ciphertext, as one ciphertext.
pub open spec fn recomposed_glwe(c: Seq<Seq<u64>>, params: Params) -> Seq<Seq<u64>> {
    Seq::new(params.glwe_size as nat, |j: int| recompose_poly(c[j], params, params.levels as nat))
}

proof fn lemma_component_phase_masks(c: Seq<Seq<u64>>, s: Seq<Seq<u64>>, x: Seq<u64>, params: Params, m: nat)
    requires
        params.wf(),
        glwe_key_wf(s, params),
        ring_elem(x, params.ring_dim as nat),
        glwe_wf(c, params),
        m <= s.len(),
    ensures
        component_phase(c, s, x, params, m) == pneg(pmul(x, gdot(recomposed_glwe(c, params), s, m, params.ring_dim as nat))),
    decreases m,
{
    let n = params.ring_dim as nat;
    let rg = recomposed_glwe(c, params);
    if m == 0 {
        lemma_pmul_zero(x);
        assert(pneg(pzero(n)) =~= pzero(n));
    } else {
        let j = m - 1;
        lemma_component_phase_masks(c, s, x, params, (m - 1) as nat);
        assert(ring_elem(s[j], n));
        assert(ring_elem(c[j], n));
        crate::extprod::lemma_recompose_wf(c[j], params, params.levels as nat);
        let r = rg[j];
        let gd = gdot(rg, s, (m - 1) as nat, n);
        lemma_gdot_len(rg, s, (m - 1) as nat, n);
        lemma_pmul_pneg(r, pmul(s[j], x));
        lemma_pmul_assoc(r, s[j], x);
        lemma_pmul_comm(pmul(r, s[j]), x);
        lemma_pneg_padd(pmul(x, gd), pmul(x, pmul(r, s[j])));
        lemma_pmul_padd(x, gd, pmul(r, s[j]));
    }
}

proof fn lemma_recompose_wf(y: Seq<u64>, params: Params, m: nat)
    requires
        params.wf(),
        ring_elem(y, params.ring_dim as nat),
        m <= params.levels,
    ensures
        ring_elem(recompose_poly(y, params, m), params.ring_dim as nat),
    decreases m,
{
    if m > 0 {
        lemma_recompose_wf(y, params, (m - 1) as nat);
    }
}

/// Summed over all components, the recomposed components times their gadget messages give
/// `x` times the phase of the rounded ciphertext under `s`.
proof fn lemma_component_phase_total(c: Seq<Seq<u64>>, s: Seq<Seq<u64>>, x: Seq<u64>, params: Params)
    requires
        params.wf(),
        glwe_key_wf(s, params),
        ring_elem(x, params.ring_dim as nat),
        glwe_wf(c, params),
    ensures
        component_phase(c, s, x, params, params.glwe_size as nat) == pmul(x, glwe_phase(s, rounded_glwe(c, params))),
{
    let n = params.ring_dim as nat;
    let k = s.len();
    let kk = params.glwe_size as nat;
    lemma_component_phase_masks(c, s, x, params, k);
    let rg = recomposed_glwe(c, params);
    assert forall|j: int| 0 <= j < kk implies #[trigger] rg[j] == rounded_glwe(c, params)[j] by {
        assert(ring_elem(c[j], n));
        assert forall|t: int| 0 <= t < n implies #[trigger] rg[j][t] == rounded_glwe(c, params)[j][t] by {
            lemma_recompose_poly_coeff(c[j], params, params.levels as nat, t);
        }
        lemma_recompose_wf(c[j], params, params.levels as nat);
        assert(rg[j] =~= rounded_glwe(c, params)[j]);
    }
    assert(rg =~= rounded_glwe(c, params));
    // The body component carries x itself.
    let rk = rg[k as int];
    assert(ring_elem(c[k as int], n));
    lemma_recompose_wf(c[k as int], params, params.levels as nat);
    let gd = gdot(rg, s, k, n);
    lemma_gdot_len(rg, s, k, n);
    lemma_pmul_comm(rk, x);
    lemma_pmul_psub(x, rk, gd);
    lemma_psub_is_add_neg(pmul(x, rk), pmul(x, gd));
    crate::ring::lemma_padd_comm(pneg(pmul(x, gd)), pmul(x, rk));
}

/// The external product of a noiseless GGSW ciphertext of `x` for the key `s`, made under the
/// key `e`, with a ciphertext `c` under `s` is a ciphertext under `e` whose phase is `x` times
/// the phase of `c` rounded to its top LOGB * ELL bits: the only error of the product is that
/// rounding, at most 2^(63 - LOGB * ELL) per coefficient (see `lemma_rounding_error`), times
/// `x`. With `e == s` this is the CMUX's product; with another `e`, a key switch.
pub proof fn lemma_external_product_phase(
    g: Seq<Seq<Seq<Seq<u64>>>>,
    c: Seq<Seq<u64>>,
    e: Seq<Seq<u64>>,
    s: Seq<Seq<u64>>,
    x: Seq<u64>,
    params: Params,
)
    requires
        params.wf(),
        glwe_key_wf(e, params),
        glwe_key_wf(s, params),
        ring_elem(x, params.ring_dim as nat),
        ggsw_encrypts(g, e, s, x, 0, params),
        glwe_wf(c, params),
    ensures
        glwe_phase(e, ext_prod(g, c, params)) == pmul(x, glwe_phase(s, rounded_glwe(c, params))),
        glwe_wf(ext_prod(g, c, params), params),
{
    let kk = params.glwe_size as nat;
    assert(ext_prod(g, c, params) =~= component_glwe(g, c, params, kk));
    lemma_phase_component(g, c, e, s, x, params, kk);
    lemma_component_phase_total(c, s, x, params);
}

/// The noise that level sums of component `j` carry: the digit ring elements times the
/// noise of the GGSW ciphertexts, over the lowest `m` levels.
pub open spec fn noise_level(c: Seq<Seq<u64>>, nv: Seq<Seq<Seq<u64>>>, params: Params, j: int, m: nat) -> Seq<u64>
    decreases m,
{
    if m == 0 {
        pzero(params.ring_dim as nat)
    } else {
        let l = params.levels - m;
        padd(noise_level(c, nv, params, j, (m - 1) as nat), pmul(digit_poly(c[j], params, l), nv[j][l]))
    }
}

/// The noise of an external product: the sum over components and levels of the digit ring
/// element times the noise of the matching GGSW ciphertext.
pub open spec fn noise_total(c: Seq<Seq<u64>>, nv: Seq<Seq<Seq<u64>>>, params: Params, m: nat) -> Seq<u64>
    decreases m,
{
    if m == 0 {
        pzero(params.ring_dim as nat)
    } else {
        padd(noise_total(c, nv, params, (m - 1) as nat), noise_level(c, nv, params, m - 1, params.levels as nat))
    }
}

proof fn lemma_level_phase_noisy(
    g: Seq<Seq<Seq<Seq<u64>>>>,
    c: Seq<Seq<u64>>,
    e: Seq<Seq<u64>>,
    s: Seq<Seq<u64>>,
    x: Seq<u64>,
    nv: Seq<Seq<Seq<u64>>>,
    params: Params,
    j: int,
    m: nat,
)
    requires
        params.wf(),
        glwe_key_wf(e, params),
        glwe_key_wf(s, params),
        ring_elem(x, params.ring_dim as nat),
        crate::ggsw::noise_shape(nv, params),
        crate::ggsw::ggsw_encrypts_with(g, e, s, x, nv, params),
        glwe_wf(c, params),
        0 <= j < params.glwe_size,
        m <= params.levels,
    ensures
        level_phase(g, c, e, params, j, m) == padd(
            pmul(recompose_poly(c[j], params, m), gadget_msg(s, x, j)),
            noise_level(c, nv, params, j, m),
        ),
        ring_elem(recompose_poly(c[j], params, m), params.ring_dim as nat),
        noise_level(c, nv, params, j, m).len() == params.ring_dim,
    decreases m,
{
    let n = params.ring_dim as nat;
    let msg = gadget_msg(s, x, j);
    if j < s.len() {
        assert(ring_elem(s[j], n));
    }
    assert(ring_elem(msg, n));
    if m == 0 {
        lemma_pmul_comm(pzero(n), msg);
        lemma_pmul_zero(msg);
        lemma_padd_zero(pzero(n));
    } else {
        let l = params.levels - m;
        lemma_level_phase_noisy(g, c, e, s, x, nv, params, j, (m - 1) as nat);
        let d = digit_poly(c[j], params, l);
        let w = gadget_weight(params, l);
        let r = recompose_poly(c[j], params, (m - 1) as nat);
        let nl = noise_level(c, nv, params, j, (m - 1) as nat);
        assert(ring_elem(c[j], n));
        assert(crate::glwe::ring_vec(nv[j], params.levels as nat, n));
        let en = nv[j][l];
        assert(ring_elem(en, n));
        lemma_pmul_padd(d, pscale(msg, w), en);
        lemma_pmul_comm(d, pscale(msg, w));
        lemma_pscale_pmul(msg, d, w);
        lemma_pmul_comm(msg, d);
        lemma_pscale_pmul(d, msg, w);
        lemma_padd_swap(pmul(r, msg), nl, pmul(pscale(d, w), msg), pmul(d, en));
        lemma_padd_pmul(r, pscale(d, w), msg);
    }
}

proof fn lemma_component_phase_len(c: Seq<Seq<u64>>, s: Seq<Seq<u64>>, x: Seq<u64>, nv: Seq<Seq<Seq<u64>>>, params: Params, m: nat)
    ensures
        component_phase(c, s, x, params, m).len() == params.ring_dim,
        noise_total(c, nv, params, m).len() == params.ring_dim,
    decreases m,
{
    if m > 0 {
        lemma_component_phase_len(c, s, x, nv, params, (m - 1) as nat);
    }
}

proof fn lemma_phase_component_noisy(
    g: Seq<Seq<Seq<Seq<u64>>>>,
    c: Seq<Seq<u64>>,
    e: Seq<Seq<u64>>,
    s: Seq<Seq<u64>>,
    x: Seq<u64>,
    nv: Seq<Seq<Seq<u64>>>,
    params: Params,
    m: nat,
)
    requires
        params.wf(),
        glwe_key_wf(e, params),
        glwe_key_wf(s, params),
        ring_elem(x, params.ring_dim as nat),
        crate::ggsw::noise_shape(nv, params),
        crate::ggsw::ggsw_encrypts_with(g, e, s, x, nv, params),
        glwe_wf(c, params),
        m <= params.glwe_size,
    ensures
        glwe_phase(e, component_glwe(g, c, params, m)) == padd(
            component_phase(c, s, x, params, m),
            noise_total(c, nv, params, m),
        ),
        glwe_wf(component_glwe(g, c, params, m), params),
    decreases m,
{
    let n = params.ring_dim as nat;
    if m == 0 {
        assert(component_glwe(g, c, params, m) =~= gzero(params));
        lemma_phase_gzero(e, params);
        lemma_padd_zero(pzero(n));
    } else {
        let j = m - 1;
        lemma_phase_component_noisy(g, c, e, s, x, nv, params, (m - 1) as nat);
        lemma_phase_level(g, c, e, params, j, params.levels as nat);
        lemma_level_phase_noisy(g, c, e, s, x, nv, params, j, params.levels as nat);
        lemma_phase_gadd(e, component_glwe(g, c, params, (m - 1) as nat), level_glwe(g, c, params, j, params.levels as nat), params);
        assert(component_glwe(g, c, params, m) =~= gadd(
            component_glwe(g, c, params, (m - 1) as nat),
            level_glwe(g, c, params, j, params.levels as nat),
        ));
        lemma_component_phase_len(c, s, x, nv, params, (m - 1) as nat);
        lemma_padd_swap(
            component_phase(c, s, x, params, (m - 1) as nat),
            noise_total(c, nv, params, (m - 1) as nat),
            pmul(recompose_poly(c[j], params, params.levels as nat), gadget_msg(s, x, j)),
            noise_level(c, nv, params, j, params.levels as nat),
        );
    }
}

/// The external product of a GGSW ciphertext of `x` for `s`, made under `e` with the noise
/// `nv`, with a ciphertext `c` under `s`: its phase under `e` is `x` times the phase of `c`
/// rounded to its top LOGB * ELL bits, plus the noise of the GGSW ciphertexts weighted by the
/// digits of `c` (`noise_total`). The digits below the top level are balanced, in
/// [-B/2, B/2) (see `lemma_decomposition_recomposes`), so a smaller base weighs the noise less.
pub proof fn lemma_external_product_noisy(
    g: Seq<Seq<Seq<Seq<u64>>>>,
    c: Seq<Seq<u64>>,
    e: Seq<Seq<u64>>,
    s: Seq<Seq<u64>>,
    x: Seq<u64>,
    nv: Seq<Seq<Seq<u64>>>,
    params: Params,
)
    requires
        params.wf(),
        glwe_key_wf(e, params),
        glwe_key_wf(s, params),
        ring_elem(x, params.ring_dim as nat),
        crate::ggsw::noise_shape(nv, params),
        crate::ggsw::ggsw_encrypts_with(g, e, s, x, nv, params),
        glwe_wf(c, params),
    ensures
        glwe_phase(e, ext_prod(g, c, params)) == padd(
            pmul(x, glwe_phase(s, rounded_glwe(c, params))),
            noise_total(c, nv, params, params.glwe_size as nat),
        ),
{
    let kk = params.glwe_size as nat;
    assert(ext_prod(g, c, params) =~= component_glwe(g, c, params, kk));
    lemma_phase_component_noisy(g, c, e, s, x, nv, params, kk);
    lemma_component_phase_total(c, s, x, params);
}

/// With a full-precision decomposition (LOGB * ELL = 64) the external product of a noiseless
/// GGSW ciphertext of `x` for `s`, made under `e`, with `c` has under `e` exactly the phase `x`
/// times the phase of `c` under `s`.
pub proof fn lemma_external_product_exact(
    g: Seq<Seq<Seq<Seq<u64>>>>,
    c: Seq<Seq<u64>>,
    e: Seq<Seq<u64>>,
    s: Seq<Seq<u64>>,
    x: Seq<u64>,
    params: Params,
)
    requires
        params.wf(),
        params.log_base * params.levels == 64,
        glwe_key_wf(e, params),
        glwe_key_wf(s, params),
        ring_elem(x, params.ring_dim as nat),
        ggsw_encrypts(g, e, s, x, 0, params),
        glwe_wf(c, params),
    ensures
        glwe_phase(e, ext_prod(g, c, params)) == pmul(x, glwe_phase(s, c)),
        glwe_wf(ext_prod(g, c, params), params),
{
    lemma_external_product_phase(g, c, e, s, x, params);
    let n = params.ring_dim as nat;
    assert forall|j: int| 0 <= j < c.len() implies #[trigger] rounded_glwe(c, params)[j] == c[j] by {
        assert(ring_elem(c[j], n));
        assert forall|t: int| 0 <= t < c[j].len() implies #[trigger] rounded_glwe(c, params)[j][t] == c[j][t] by {
            let y = c[j][t];
            crate::ggsw::lemma_decomposition_recomposes(y, params);
            vstd::arithmetic::power2::lemma2_to64();
            assert(crate::ggsw::shift_of(params) == 0);
            assert(crate::ggsw::rounded(y, params) == y as int);
            assert(vstd::arithmetic::power2::pow2(crate::ggsw::shift_of(params)) == 1);
            assert(recomposed(y, params) == crate::ggsw::rounded(y, params) * 1);
            assert(recomposed(y, params) == y as int);
            lemma_fred_canonical(y);
        }
        assert(rounded_glwe(c, params)[j] =~= c[j]);
    }
    assert(rounded_glwe(c, params) =~= c);
}

} // verus!
