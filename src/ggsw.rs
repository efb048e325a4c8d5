use crate::field::{fint, fsub, P};
use crate::lwe::is_small;
use crate::glwe::{
    glwe_body, glwe_key_wf, gtrivial, sample_noise_poly, small_poly, glwe_phase, glwe_wf, lemma_flatten_push, lemma_glwe_decrypt_encrypt,
    polys_view, random_polys, ring_vec, Glwe,
};
use crate::ntt::NttTable;
use crate::params::Params;
use crate::poly::{canon, padd, pmul, pneg, pscale, pzero, ring_elem, Poly};
use vstd::arithmetic::power2::{lemma2_to64, lemma_pow2_strictly_increases, lemma_pow2_unfold, pow2};
use vstd::prelude::*;

verus! {

/// A gadget ciphertext: ELL GLWE ciphertexts of one message, scaled by the gadget weights.
pub struct Glev {
    pub glwes: Vec<Glwe>,
}

/// A GGSW ciphertext: one Glev per component of a GLWE ciphertext.
pub struct Ggsw {
    pub glevs: Vec<Glev>,
}

impl View for Glev {
    type V = Seq<Seq<Seq<u64>>>;

    open spec fn view(&self) -> Seq<Seq<Seq<u64>>> {
        self.glwes@.map_values(|g: Glwe| g@)
    }
}

impl View for Ggsw {
    type V = Seq<Seq<Seq<Seq<u64>>>>;

    open spec fn view(&self) -> Seq<Seq<Seq<Seq<u64>>>> {
        self.glevs@.map_values(|g: Glev| g@)
    }
}

pub open spec fn glev_wf(g: Seq<Seq<Seq<u64>>>, params: Params) -> bool {
    g.len() == params.levels && forall|l: int| 0 <= l < g.len() ==> glwe_wf(#[trigger] g[l], params)
}

pub open spec fn ggsw_wf(g: Seq<Seq<Seq<Seq<u64>>>>, params: Params) -> bool {
    g.len() == params.glwe_size && forall|j: int| 0 <= j < g.len() ==> glev_wf(#[trigger] g[j], params)
}

/// The decomposition base B = 2^LOGB.
pub open spec fn base(params: Params) -> int {
    pow2(params.log_base as nat) as int
}

/// The low bits that the decomposition drops: 64 - LOGB * ELL.
pub open spec fn shift_of(params: Params) -> nat {
    (64 - params.log_base * params.levels) as nat
}

/// The coefficient rounded to its top LOGB * ELL bits.
pub open spec fn rounded(y: u64, params: Params) -> int {
    let s = shift_of(params);
    if s == 0 {
        y as int
    } else {
        (y + pow2((s - 1) as nat)) / (pow2(s) as int)
    }
}

/// The balanced representative of a digit `r` in `[0, b)`: in `[-b/2, b/2)`.
pub open spec fn bal(r: int, b: int) -> int {
    if 2 * r >= b {
        r - b
    } else {
        r
    }
}

/// What is left of `yr` after taking off its `q` lowest balanced digits.
pub open spec fn decomp_rem(yr: int, b: int, q: nat) -> int
    decreases q,
{
    if q == 0 {
        yr
    } else {
        let r = decomp_rem(yr, b, (q - 1) as nat);
        (r - bal(r % b, b)) / b
    }
}

/// The signed digit of level `l` (level 0 is the most significant; it takes whatever is left).
pub open spec fn level_digit(y: u64, params: Params, l: int) -> int {
    let q = (params.levels - 1 - l) as nat;
    let r = decomp_rem(rounded(y, params), base(params), q);
    if l == 0 {
        r
    } else {
        bal(r % base(params), base(params))
    }
}

/// The gadget weight of level `l`: 2^(64 - LOGB * (l + 1)), standing for P / B^(l+1).
pub open spec fn gadget_weight(params: Params, l: int) -> u64 {
    pow2((64 - params.log_base * (l + 1)) as nat) as u64
}

/// The digits of level `l` of every coefficient, as field elements.
pub open spec fn digit_poly(p: Seq<u64>, params: Params, l: int) -> Seq<u64> {
    Seq::new(p.len(), |t: int| fint(level_digit(p[t], params, l)))
}

/// Sum over the lowest `m` levels `l` of `digit_poly(c_j, l) * G[j][l][p]`.
pub open spec fn level_sum(g: Seq<Seq<Seq<Seq<u64>>>>, c: Seq<Seq<u64>>, params: Params, p: int, j: int, m: nat) -> Seq<u64>
    decreases m,
{
    if m == 0 {
        pzero(params.ring_dim as nat)
    } else {
        let l = params.levels - m;
        padd(level_sum(g, c, params, p, j, (m - 1) as nat), pmul(digit_poly(c[j], params, l), g[j][l][p]))
    }
}

/// Sum over the first `m` components of the level sums.
pub open spec fn component_sum(g: Seq<Seq<Seq<Seq<u64>>>>, c: Seq<Seq<u64>>, params: Params, p: int, m: nat) -> Seq<u64>
    decreases m,
{
    if m == 0 {
        pzero(params.ring_dim as nat)
    } else {
        padd(component_sum(g, c, params, p, (m - 1) as nat), level_sum(g, c, params, p, m - 1, params.levels as nat))
    }
}

/// The external product of a GGSW ciphertext with a GLWE ciphertext: the digit-weighted sum of
/// the GGSW's GLWE ciphertexts.
pub open spec fn ext_prod(g: Seq<Seq<Seq<Seq<u64>>>>, c: Seq<Seq<u64>>, params: Params) -> Seq<Seq<u64>> {
    Seq::new(params.glwe_size as nat, |p: int| component_sum(g, c, params, p, params.glwe_size as nat))
}

/// The message of component `j` of a GGSW of `x` for the key `s`: -s_j * x for a mask
/// component, x for the body.
pub open spec fn gadget_msg(s: Seq<Seq<u64>>, x: Seq<u64>, j: int) -> Seq<u64> {
    if j < s.len() {
        pneg(pmul(s[j], x))
    } else {
        x
    }
}

/// `phase` is `expected` plus noise of absolute value at most `bound` in every coefficient.
pub open spec fn noise_within(phase: Seq<u64>, expected: Seq<u64>, bound: u64) -> bool {
    phase.len() == expected.len() && forall|t: int| 0 <= t < phase.len() ==> #[trigger] is_small(
        fsub(phase[t], expected[t]),
        bound,
    )
}

/// A GGSW ciphertext under `enc_key` of `x` for the key `s`: every GLWE ciphertext of it has
/// phase `gadget_msg(s, x, j) * gadget_weight(l)`, up to noise of at most `bound`.
pub open spec fn ggsw_encrypts(
    g: Seq<Seq<Seq<Seq<u64>>>>,
    enc_key: Seq<Seq<u64>>,
    s: Seq<Seq<u64>>,
    x: Seq<u64>,
    bound: u64,
    params: Params,
) -> bool {
    &&& ggsw_wf(g, params)
    &&& forall|j: int, l: int|
        0 <= j < params.glwe_size && 0 <= l < params.levels ==> noise_within(
            glwe_phase(enc_key, #[trigger] g[j][l]),
            pscale(gadget_msg(s, x, j), gadget_weight(params, l)),
            bound,
        )
}

/// The noise polynomials of a GGSW ciphertext, by component and level.
pub open spec fn noise_view(v: Seq<Vec<Poly>>) -> Seq<Seq<Seq<u64>>> {
    v.map_values(|w: Vec<Poly>| polys_view(w@))
}

/// One canonical ring element of noise for each component and level.
pub open spec fn noise_shape(nv: Seq<Seq<Seq<u64>>>, params: Params) -> bool {
    &&& nv.len() == params.glwe_size
    &&& forall|j: int| 0 <= j < nv.len() ==> ring_vec(#[trigger] nv[j], params.levels as nat, params.ring_dim as nat)
}

/// A GGSW ciphertext under `enc_key` of `x` for the key `s` whose GLWE ciphertext of
/// component `j` and level `l` has phase `gadget_msg(s, x, j) * gadget_weight(l)` plus
/// exactly the noise `nv[j][l]`.
pub open spec fn ggsw_encrypts_with(
    g: Seq<Seq<Seq<Seq<u64>>>>,
    enc_key: Seq<Seq<u64>>,
    s: Seq<Seq<u64>>,
    x: Seq<u64>,
    nv: Seq<Seq<Seq<u64>>>,
    params: Params,
) -> bool {
    &&& ggsw_wf(g, params)
    &&& forall|j: int, l: int|
        0 <= j < params.glwe_size && 0 <= l < params.levels ==> glwe_phase(enc_key, #[trigger] g[j][l])
            == padd(pscale(gadget_msg(s, x, j), gadget_weight(params, l)), nv[j][l])
}

/// The all-zero GGSW ciphertext.
pub open spec fn zero_ggsw(params: Params) -> Seq<Seq<Seq<Seq<u64>>>> {
    Seq::new(
        params.glwe_size as nat,
        |j: int| Seq::new(params.levels as nat, |l: int| gtrivial(pzero(params.ring_dim as nat), params.glwe_size as nat)),
    )
}

/// The constant ring element `c`.
pub open spec fn pconst(c: u64, n: nat) -> Seq<u64> {
    Seq::new(n, |t: int| if t == 0 { c } else { 0u64 })
}

/// The coefficients of a Glev in order.
pub open spec fn glev_flat(g: Seq<Seq<Seq<u64>>>) -> Seq<u64> {
    g.map_values(|c: Seq<Seq<u64>>| c.flatten()).flatten()
}

/// The coefficients of a GGSW in order: component, level, ring element, coefficient.
pub open spec fn ggsw_flat(g: Seq<Seq<Seq<Seq<u64>>>>) -> Seq<u64> {
    g.map_values(|v: Seq<Seq<Seq<u64>>>| glev_flat(v)).flatten()
}

/// Sum of the balanced digits below position `q`, each weighted by B^position.
pub open spec fn low_sum(yr: int, params: Params, q: nat) -> int
    decreases q,
{
    if q == 0 {
        0
    } else {
        let r = decomp_rem(yr, base(params), (q - 1) as nat);
        low_sum(yr, params, (q - 1) as nat) + bal(r % base(params), base(params)) * pow2(
            (params.log_base * (q - 1)) as nat,
        )
    }
}

/// The digits of the lowest `m` levels, each times its gadget weight, summed over the integers.
pub open spec fn recompose_low(y: u64, params: Params, m: nat) -> int
    decreases m,
{
    if m == 0 {
        0
    } else {
        let l = params.levels - m;
        recompose_low(y, params, (m - 1) as nat) + level_digit(y, params, l) * gadget_weight(params, l)
    }
}

/// The signed digits of every level, times the gadget weights, summed over the integers.
pub open spec fn recomposed(y: u64, params: Params) -> int {
    recompose_low(y, params, params.levels as nat)
}

/// Taking off the balanced low digit leaves a multiple of the base.
proof fn lemma_rem_step(r: int, b: int)
    requires
        b > 0,
    ensures
        ((r - bal(r % b, b)) / b) * b == r - bal(r % b, b),
{
    vstd::arithmetic::div_mod::lemma_fundamental_div_mod(r, b);
    let m = r % b;
    let qt = r / b;
    if 2 * m >= b {
        assert(bal(m, b) == m - b);
        assert(r - (m - b) == b * (qt + 1)) by (nonlinear_arith)
            requires
                r == b * qt + m,
        ;
        vstd::arithmetic::div_mod::lemma_div_multiples_vanish(qt + 1, b);
        assert((b * (qt + 1)) / b * b == b * (qt + 1)) by (nonlinear_arith)
            requires
                (b * (qt + 1)) / b == qt + 1,
        ;
    } else {
        assert(bal(m, b) == m);
        assert(r - m == b * qt);
        vstd::arithmetic::div_mod::lemma_div_multiples_vanish(qt, b);
        assert((b * qt) / b * b == b * qt) by (nonlinear_arith)
            requires
                (b * qt) / b == qt,
        ;
    }
}

/// The low digits and what is left above them give back the rounded value.
proof fn lemma_low_sum(yr: int, params: Params, q: nat)
    requires
        params.wf(),
    ensures
        yr == low_sum(yr, params, q) + decomp_rem(yr, base(params), q) * pow2((params.log_base * q) as nat),
    decreases q,
{
    let lb = params.log_base;
    let b = base(params);
    vstd::arithmetic::power2::lemma_pow2_pos(lb as nat);
    if q == 0 {
        assert(lb * q == 0) by (nonlinear_arith)
            requires
                q == 0,
        ;
        vstd::arithmetic::power2::lemma2_to64();
    } else {
        let q1 = (q - 1) as nat;
        lemma_low_sum(yr, params, q1);
        let r = decomp_rem(yr, b, q1);
        let d = bal(r % b, b);
        let w = pow2((lb * q1) as nat) as int;
        lemma_rem_step(r, b);
        assert(lb * q == lb * q1 + lb) by (nonlinear_arith)
            requires
                q == q1 + 1,
        ;
        vstd::arithmetic::power2::lemma_pow2_adds((lb * q1) as nat, lb as nat);
        let nr = decomp_rem(yr, b, q);
        assert(nr == (r - d) / b);
        assert(pow2((lb * q) as nat) == w * b);
        assert(nr * pow2((lb * q) as nat) == (r - d) * w) by (nonlinear_arith)
            requires
                nr * b == r - d,
                pow2((lb * q) as nat) == w * b,
        ;
        assert(low_sum(yr, params, q) == low_sum(yr, params, q1) + d * w);
        assert(d * w + (r - d) * w == r * w) by (nonlinear_arith);
    }
}

/// The digits of the lowest `m` levels, below the top one, weighted: 2^shift times the low sum.
proof fn lemma_recompose_low(y: u64, params: Params, m: nat)
    requires
        params.wf(),
        m < params.levels,
    ensures
        recompose_low(y, params, m) == pow2(shift_of(params)) * low_sum(rounded(y, params), params, m),
    decreases m,
{
    let s = shift_of(params);
    if m == 0 {
    } else {
        let m1 = (m - 1) as nat;
        lemma_recompose_low(y, params, m1);
        let l = params.levels - m;
        lemma_weight_split(params, l);
        assert(params.levels - 1 - l == m1);
        let b = base(params);
        let yr = rounded(y, params);
        let t = pow2((params.log_base * m1) as nat) as int;
        let dg = level_digit(y, params, l);
        assert(dg == bal(decomp_rem(yr, b, m1) % b, b));
        assert(low_sum(yr, params, m) == low_sum(yr, params, m1) + dg * t);
        assert(recompose_low(y, params, m) == recompose_low(y, params, m1) + dg * (pow2(s) * t));
        assert(pow2(s) * low_sum(yr, params, m1) + dg * (pow2(s) * t) == pow2(s) * (low_sum(yr, params, m1) + dg * t))
            by (nonlinear_arith);
    }
}

/// The gadget weight of level `l` is 2^shift times B^(ELL - 1 - l), and fits in 63 bits.
proof fn lemma_weight_split(params: Params, l: int)
    requires
        params.wf(),
        0 <= l < params.levels,
    ensures
        gadget_weight(params, l) as int == pow2(shift_of(params)) * pow2(
            (params.log_base * (params.levels - 1 - l)) as nat,
        ),
{
    let lb = params.log_base;
    let ll = params.levels;
    let e = 64 - lb * (l + 1);
    assert(lb * (l + 1) <= lb * ll && lb * (l + 1) >= 1) by (nonlinear_arith)
        requires
            l + 1 <= ll,
            lb >= 1,
            l >= 0,
    ;
    assert(e == shift_of(params) + lb * (ll - 1 - l)) by (nonlinear_arith)
        requires
            e == 64 - lb * (l + 1),
            shift_of(params) == 64 - lb * ll,
    ;
    assert(lb * (ll - 1 - l) >= 0) by (nonlinear_arith)
        requires
            ll - 1 - l >= 0,
            lb >= 1,
    ;
    vstd::arithmetic::power2::lemma_pow2_adds(shift_of(params), (lb * (ll - 1 - l)) as nat);
    vstd::arithmetic::power2::lemma2_to64();
    if e < 64 {
        lemma_pow2_strictly_increases(e as nat, 64);
    }
}

/// The digits of all levels, weighted by the gadget weights, add up to the coefficient rounded
/// to its top LOGB * ELL bits; the lower digits are balanced, in [-B/2, B/2).
pub proof fn lemma_decomposition_recomposes(y: u64, params: Params)
    requires
        params.wf(),
    ensures
        recomposed(y, params) == rounded(y, params) * pow2(shift_of(params)),
        forall|l: int| 1 <= l < params.levels ==> -base(params) <= 2 * #[trigger] level_digit(y, params, l) < base(params),
{
    let ll = params.levels;
    let lb = params.log_base;
    let yr = rounded(y, params);
    let m1 = (ll - 1) as nat;
    lemma_recompose_low(y, params, m1);
    lemma_low_sum(yr, params, m1);
    lemma_weight_split(params, 0);
    assert(lb * (ll - 1 - 0) == lb * m1);
    let top = decomp_rem(yr, base(params), m1);
    assert(level_digit(y, params, 0) == top);
    let p2s = pow2(shift_of(params)) as int;
    let t = pow2((lb * m1) as nat) as int;
    assert(recomposed(y, params) == p2s * low_sum(yr, params, m1) + top * (p2s * t));
    assert(p2s * low_sum(yr, params, m1) + top * (p2s * t) == p2s * (low_sum(yr, params, m1) + top * t)) by (nonlinear_arith);
    vstd::arithmetic::power2::lemma_pow2_pos(lb as nat);
    assert forall|l: int| 1 <= l < params.levels implies -base(params) <= 2 * #[trigger] level_digit(y, params, l) < base(params) by {
        let r = decomp_rem(yr, base(params), (params.levels - 1 - l) as nat);
        vstd::arithmetic::div_mod::lemma_mod_division_less_than_divisor(r, base(params));
    }
}

/// The rounding to the top LOGB * ELL bits is off by at most half a step, 2^(shift - 1), and
/// is exact when LOGB * ELL = 64.
pub proof fn lemma_rounding_error(y: u64, params: Params)
    requires
        params.wf(),
    ensures
        shift_of(params) == 0 ==> rounded(y, params) * pow2(shift_of(params)) == y,
        shift_of(params) > 0 ==> {
            let h = pow2((shift_of(params) - 1) as nat) as int;
            -h < rounded(y, params) * pow2(shift_of(params)) - y <= h
        },
{
    let s = shift_of(params);
    vstd::arithmetic::power2::lemma2_to64();
    if s > 0 {
        let h = pow2((s - 1) as nat) as int;
        let d = pow2(s) as int;
        lemma_pow2_unfold(s);
        vstd::arithmetic::power2::lemma_pow2_pos((s - 1) as nat);
        let x = y + h;
        vstd::arithmetic::div_mod::lemma_fundamental_div_mod(x, d);
        vstd::arithmetic::div_mod::lemma_mod_division_less_than_divisor(x, d);
        assert(rounded(y, params) == x / d);
        assert((x / d) * d == d * (x / d)) by (nonlinear_arith);
    }
}

/// A message plus small noise is within that noise of the message.
proof fn lemma_noise_within(m: Seq<u64>, e: Seq<u64>, bound: u64)
    requires
        canon(m),
        e.len() == m.len(),
        small_poly(e, bound),
    ensures
        noise_within(padd(m, e), m, bound),
{
    assert forall|t: int| 0 <= t < m.len() implies #[trigger] is_small(fsub(padd(m, e)[t], m[t]), bound) by {
        assert(is_small(e[t], bound));
        crate::field::lemma_fred_sub(m[t] + e[t], m[t] as int);
        assert(m[t] + e[t] - m[t] == e[t]);
        crate::field::lemma_fred_canonical(e[t]);
    }
}

/// 2^e.
fn pow2_exec(e: usize) -> (r: u128)
    requires
        e <= 64,
    ensures
        r == pow2(e as nat),
        r <= 0x1_0000_0000_0000_0000u128,
{
    let mut r: u128 = 1;
    let mut i: usize = 0;
    proof {
        lemma2_to64();
    }
    while i < e
        invariant
            i <= e,
            e <= 64,
            r == pow2(i as nat),
            pow2(64) == 0x1_0000_0000_0000_0000u128,
        decreases e - i,
    {
        proof {
            lemma_pow2_unfold((i + 1) as nat);
            if i + 1 < 64 {
                lemma_pow2_strictly_increases((i + 1) as nat, 64);
            }
        }
        r = r * 2;
        i = i + 1;
    }
    proof {
        if e < 64 {
            lemma_pow2_strictly_increases(e as nat, 64);
        }
    }
    r
}

/// The field element of the signed digit of level `l` of `y`.
pub fn level_digit_exec(y: u64, l: usize, params: Params) -> (r: u64)
    requires
        params.wf(),
        l < params.levels,
    ensures
        r == fint(level_digit(y, params, l as int)),
        r < P,
{
    let lb = params.log_base;
    assert(lb <= 64) by (nonlinear_arith)
        requires
            lb * params.levels <= 64,
            params.levels >= 1,
    ;
    let s = 64 - lb * params.levels;
    proof {
        lemma2_to64();
    }
    let yr: u128 = if s == 0 {
        y as u128
    } else {
        let h = pow2_exec(s - 1);
        let d = pow2_exec(s);
        proof {
            lemma_pow2_strictly_increases((s - 1) as nat, 64);
            vstd::arithmetic::power2::lemma_pow2_pos(s as nat);
        }
        (y as u128 + h) / d
    };
    assert(yr <= 0x2_0000_0000_0000_0000u128) by {
        if s > 0 {
            vstd::arithmetic::power2::lemma_pow2_pos(s as nat);
            lemma_pow2_unfold(s as nat);
            vstd::arithmetic::power2::lemma_pow2_pos((s - 1) as nat);
            vstd::arithmetic::div_mod::lemma_div_is_ordered(y + pow2((s - 1) as nat), 0x2_0000_0000_0000_0000int, pow2(s as nat) as int);
            vstd::arithmetic::div_mod::lemma_div_basics_2(pow2(s as nat) as int);
            vstd::arithmetic::div_mod::lemma_div_decreases(0x2_0000_0000_0000_0000int, pow2(s as nat) as int);
        }
    }
    let b = pow2_exec(lb);
    proof {
        lemma_pow2_unfold(lb as nat);
        vstd::arithmetic::power2::lemma_pow2_pos((lb - 1) as nat);
    }
    let q_end = params.levels - 1 - l;
    let mut r: u128 = yr;
    let mut q: usize = 0;
    while q < q_end
        invariant
            q <= q_end,
            2 <= b <= 0x1_0000_0000_0000_0000u128,
            b == base(params),
            yr == rounded(y, params),
            r == decomp_rem(yr as int, b as int, q as nat),
            r <= 0x2_0000_0000_0000_0000u128,
        decreases q_end - q,
    {
        let m = r % b;
        assert(m <= r) by {
            vstd::arithmetic::div_mod::lemma_fundamental_div_mod(r as int, b as int);
            vstd::arithmetic::div_mod::lemma_div_pos_is_pos(r as int, b as int);
            assert(b * (r / b) >= 0) by (nonlinear_arith)
                requires
                    b >= 2,
                    r / b >= 0,
            ;
        }
        let v: u128 = if 2 * m >= b {
            r + (b - m)
        } else {
            r - m
        };
        assert(v == r - bal(m as int, b as int));
        let nr = v / b;
        assert(nr <= 0x2_0000_0000_0000_0000u128) by {
            vstd::arithmetic::div_mod::lemma_fundamental_div_mod(v as int, b as int);
            vstd::arithmetic::div_mod::lemma_mod_division_less_than_divisor(v as int, b as int);
            assert(2 * nr <= v) by (nonlinear_arith)
                requires
                    b >= 2,
                    nr >= 0,
                    v == b * nr + v % b,
                    v % b >= 0,
            ;
        }
        r = nr;
        q = q + 1;
    }
    if l == 0 {
        (r % (P as u128)) as u64
    } else {
        let m = r % b;
        if 2 * m >= b {
            let x = b - m;
            assert(x <= 0x8000_0000_0000_0000u128) by {
                assert(b <= 0x1_0000_0000_0000_0000u128);
            }
            proof {
                vstd::arithmetic::div_mod::lemma_mod_add_multiples_vanish(m - b, P as int);
                vstd::arithmetic::div_mod::lemma_small_mod((P + m - b) as nat, P as nat);
            }
            (P as u128 - x) as u64
        } else {
            proof {
                vstd::arithmetic::div_mod::lemma_small_mod(m as nat, P as nat);
            }
            m as u64
        }
    }
}

/// The digits of level `l` of every coefficient.
pub fn digit_poly_exec(p: &Poly, l: usize, params: Params) -> (r: Poly)
    requires
        params.wf(),
        l < params.levels,
    ensures
        r@ == digit_poly(p@, params, l as int),
        canon(r@),
{
    let mut v: Vec<u64> = Vec::new();
    let mut t: usize = 0;
    while t < p.coeffs.len()
        invariant
            params.wf(),
            l < params.levels,
            t <= p@.len(),
            v@ == digit_poly(p@, params, l as int).take(t as int),
            canon(v@),
        decreases p@.len() - t,
    {
        v.push(level_digit_exec(p.coeffs[t], l, params));
        t = t + 1;
        assert(v@ =~= digit_poly(p@, params, l as int).take(t as int));
    }
    assert(v@ =~= digit_poly(p@, params, l as int));
    Poly { coeffs: v }
}

/// The gadget weight of level `l` as a field element.
pub fn gadget_weight_exec(l: usize, params: Params) -> (r: u64)
    requires
        params.wf(),
        l < params.levels,
    ensures
        r == gadget_weight(params, l as int),
        r < P,
{
    assert(params.log_base * (l + 1) <= params.log_base * params.levels) by (nonlinear_arith)
        requires
            l + 1 <= params.levels,
    ;
    assert(params.log_base * (l + 1) >= 1) by (nonlinear_arith)
        requires
            l + 1 >= 1,
            params.log_base >= 1,
    ;
    let e = 64 - params.log_base * (l + 1);
    let w = pow2_exec(e);
    proof {
        lemma2_to64();
        lemma_pow2_unfold(64);
        if e < 63 {
            lemma_pow2_strictly_increases(e as nat, 63);
        }
    }
    w as u64
}

impl Ggsw {
    /// The all-zero GGSW ciphertext: the placeholder consumed by the first step of the chain.
    pub fn dummy_ct(params: Params) -> (r: Ggsw)
        requires
            params.wf(),
        ensures
            ggsw_wf(r@, params),
            r@ == zero_ggsw(params),
    {
        let mut glevs: Vec<Glev> = Vec::new();
        let mut j: usize = 0;
        while j < params.glwe_size
            invariant
                params.wf(),
                j <= params.glwe_size,
                glevs@.len() == j,
                forall|i: int| 0 <= i < j ==> glev_wf((#[trigger] glevs@[i])@, params),
                forall|i: int| 0 <= i < j ==> (#[trigger] glevs@[i])@ == zero_ggsw(params)[i],
            decreases params.glwe_size - j,
        {
            let mut glwes: Vec<Glwe> = Vec::new();
            let mut l: usize = 0;
            while l < params.levels
                invariant
                    params.wf(),
                    l <= params.levels,
                    glwes@.len() == l,
                    forall|i: int| 0 <= i < l ==> glwe_wf((#[trigger] glwes@[i])@, params),
                    forall|i: int| 0 <= i < l ==> (#[trigger] glwes@[i])@ == gtrivial(pzero(params.ring_dim as nat), params.glwe_size as nat),
                decreases params.levels - l,
            {
                let z = Poly::zero(params.ring_dim);
                let c = Glwe::trivial(&z, params.glwe_size);
                assert(glwe_wf(c@, params)) by {
                    assert forall|i: int| 0 <= i < params.glwe_size implies ring_elem(#[trigger] c@[i], params.ring_dim as nat) by {}
                }
                glwes.push(c);
                l = l + 1;
            }
            let g = Glev { glwes };
            assert(glev_wf(g@, params)) by {
                assert forall|i: int| 0 <= i < g@.len() implies glwe_wf(#[trigger] g@[i], params) by {
                    assert(glwe_wf(glwes@[i]@, params));
                }
            }
            assert(g@ =~= zero_ggsw(params)[j as int]);
            glevs.push(g);
            j = j + 1;
        }
        let r = Ggsw { glevs };
        assert forall|i: int| 0 <= i < r@.len() implies glev_wf(#[trigger] r@[i], params) by {
            assert(glev_wf(glevs@[i]@, params));
        }
        assert(r@ =~= zero_ggsw(params));
        r
    }

    /// The GGSW ciphertext under `enc_key` of `x` for the key `s` (see `ggsw_encrypts_with`),
    /// with freshly drawn masks and the given noise: `noise[j][l]` for the GLWE ciphertext of
    /// component `j` and level `l`.
    pub fn encrypt_with_noise(enc_key: &Vec<Poly>, s: &Vec<Poly>, x: &Poly, noise: &Vec<Vec<Poly>>, params: Params) -> (r: Ggsw)
        requires
            params.wf(),
            noise_shape(noise_view(noise@), params),
            glwe_key_wf(polys_view(enc_key@), params),
            glwe_key_wf(polys_view(s@), params),
            ring_elem(x@, params.ring_dim as nat),
        ensures
            ggsw_encrypts_with(r@, polys_view(enc_key@), polys_view(s@), x@, noise_view(noise@), params),
    {
        let ghost ek = polys_view(enc_key@);
        let ghost sk = polys_view(s@);
        let k = params.glwe_size - 1;
        let mut glevs: Vec<Glev> = Vec::new();
        let mut j: usize = 0;
        while j < params.glwe_size
            invariant
                params.wf(),
                k == params.glwe_size - 1,
                ek == polys_view(enc_key@),
                sk == polys_view(s@),
                glwe_key_wf(ek, params),
                glwe_key_wf(sk, params),
                ring_elem(x@, params.ring_dim as nat),
                noise_shape(noise_view(noise@), params),
                j <= params.glwe_size,
                glevs@.len() == j,
                forall|i: int| 0 <= i < j ==> glev_wf((#[trigger] glevs@[i])@, params),
                forall|i: int, l: int|
                    0 <= i < j && 0 <= l < params.levels ==> glwe_phase(ek, #[trigger] glevs@[i]@[l]) == padd(pscale(gadget_msg(sk, x@, i), gadget_weight(params, l)), noise_view(noise@)[i][l]),
            decreases params.glwe_size - j,
        {
            let msg = if j < k {
                assert(ring_elem(sk[j as int], params.ring_dim as nat));
                s[j].mul(x).neg()
            } else {
                x.copy()
            };
            assert(msg@ == gadget_msg(sk, x@, j as int));
            let mut glwes: Vec<Glwe> = Vec::new();
            let mut l: usize = 0;
            while l < params.levels
                invariant
                    params.wf(),
                    k == params.glwe_size - 1,
                    ek == polys_view(enc_key@),
                    glwe_key_wf(ek, params),
                    ring_elem(msg@, params.ring_dim as nat),
                    msg@ == gadget_msg(sk, x@, j as int),
                    j < params.glwe_size,
                    noise_shape(noise_view(noise@), params),
                    l <= params.levels,
                    glwes@.len() == l,
                    forall|i: int| 0 <= i < l ==> glwe_wf((#[trigger] glwes@[i])@, params),
                    forall|i: int| 0 <= i < l ==> glwe_phase(ek, (#[trigger] glwes@[i])@) == padd(pscale(gadget_msg(sk, x@, j as int), gadget_weight(params, i)), noise_view(noise@)[j as int][i]),
                decreases params.levels - l,
            {
                let w = gadget_weight_exec(l, params);
                let scaled = msg.scalar_mul(w);
                let masks = random_polys(k, params.ring_dim);
                let ghost mv = polys_view(masks@);
                assert(ring_vec(noise_view(noise@)[j as int], params.levels as nat, params.ring_dim as nat));
                assert(ring_elem(noise_view(noise@)[j as int][l as int], params.ring_dim as nat));
                assert(noise@[j as int]@[l as int]@ == noise_view(noise@)[j as int][l as int]);
                let c = Glwe::encrypt_with_masks(enc_key, masks, &scaled, &noise[j][l], params);
                proof {
                    assert forall|i: int| 0 <= i < mv.len() implies (#[trigger] mv[i]).len() == scaled@.len() by {
                        assert(ring_elem(mv[i], params.ring_dim as nat));
                    }
                    lemma_glwe_decrypt_encrypt(ek, mv, scaled@, noise@[j as int]@[l as int]@);
                }
                glwes.push(c);
                l = l + 1;
            }
            let g = Glev { glwes };
            assert(glev_wf(g@, params)) by {
                assert forall|i: int| 0 <= i < g@.len() implies glwe_wf(#[trigger] g@[i], params) by {
                    assert(glwe_wf(glwes@[i]@, params));
                }
            }
            assert forall|l: int| 0 <= l < params.levels implies glwe_phase(ek, #[trigger] g@[l]) == padd(pscale(gadget_msg(sk, x@, j as int), gadget_weight(params, l)), noise_view(noise@)[j as int][l]) by {
                assert(glwe_phase(ek, glwes@[l]@) == padd(pscale(gadget_msg(sk, x@, j as int), gadget_weight(params, l)), noise_view(noise@)[j as int][l]));
            }
            glevs.push(g);
            j = j + 1;
        }
        let r = Ggsw { glevs };
        assert forall|i: int| 0 <= i < r@.len() implies glev_wf(#[trigger] r@[i], params) by {
            assert(glev_wf(glevs@[i]@, params));
        }
        assert forall|i: int, l: int|
            0 <= i < params.glwe_size && 0 <= l < params.levels implies glwe_phase(ek, #[trigger] r@[i][l]) == padd(pscale(gadget_msg(sk, x@, i), gadget_weight(params, l)), noise_view(noise@)[i][l]) by {
            assert(glwe_phase(ek, glevs@[i]@[l]) == padd(pscale(gadget_msg(sk, x@, i), gadget_weight(params, l)), noise_view(noise@)[i][l]));
        }
        r
    }

    /// The GGSW ciphertext under `enc_key` of `x` for the key `s` (see `ggsw_encrypts`), with
    /// freshly drawn masks and noise drawn from [-noise_bound, noise_bound].
    pub fn encrypt(enc_key: &Vec<Poly>, s: &Vec<Poly>, x: &Poly, noise_bound: u64, params: Params) -> (r: Ggsw)
        requires
            params.wf(),
            noise_bound < P / 2,
            glwe_key_wf(polys_view(enc_key@), params),
            glwe_key_wf(polys_view(s@), params),
            ring_elem(x@, params.ring_dim as nat),
        ensures
            ggsw_encrypts(r@, polys_view(enc_key@), polys_view(s@), x@, noise_bound, params),
    {
        let ghost ek = polys_view(enc_key@);
        let ghost sk = polys_view(s@);
        let k = params.glwe_size - 1;
        let mut glevs: Vec<Glev> = Vec::new();
        let mut j: usize = 0;
        while j < params.glwe_size
            invariant
                params.wf(),
                k == params.glwe_size - 1,
                ek == polys_view(enc_key@),
                sk == polys_view(s@),
                glwe_key_wf(ek, params),
                glwe_key_wf(sk, params),
                ring_elem(x@, params.ring_dim as nat),
                noise_bound < P / 2,
                j <= params.glwe_size,
                glevs@.len() == j,
                forall|i: int| 0 <= i < j ==> glev_wf((#[trigger] glevs@[i])@, params),
                forall|i: int, l: int|
                    0 <= i < j && 0 <= l < params.levels ==> noise_within(
                        glwe_phase(ek, #[trigger] glevs@[i]@[l]),
                        pscale(gadget_msg(sk, x@, i), gadget_weight(params, l)),
                        noise_bound,
                    ),
            decreases params.glwe_size - j,
        {
            let msg = if j < k {
                assert(ring_elem(sk[j as int], params.ring_dim as nat));
                s[j].mul(x).neg()
            } else {
                x.copy()
            };
            assert(msg@ == gadget_msg(sk, x@, j as int));
            let mut glwes: Vec<Glwe> = Vec::new();
            let mut l: usize = 0;
            while l < params.levels
                invariant
                    params.wf(),
                    k == params.glwe_size - 1,
                    ek == polys_view(enc_key@),
                    glwe_key_wf(ek, params),
                    ring_elem(msg@, params.ring_dim as nat),
                    msg@ == gadget_msg(sk, x@, j as int),
                    noise_bound < P / 2,
                    l <= params.levels,
                    glwes@.len() == l,
                    forall|i: int| 0 <= i < l ==> glwe_wf((#[trigger] glwes@[i])@, params),
                    forall|i: int| 0 <= i < l ==> noise_within(
                        glwe_phase(ek, (#[trigger] glwes@[i])@),
                        pscale(gadget_msg(sk, x@, j as int), gadget_weight(params, i)),
                        noise_bound,
                    ),
                decreases params.levels - l,
            {
                let w = gadget_weight_exec(l, params);
                let scaled = msg.scalar_mul(w);
                let masks = random_polys(k, params.ring_dim);
                let ghost mv = polys_view(masks@);
                let e = sample_noise_poly(params.ring_dim, noise_bound);
                let c = Glwe::encrypt_with_masks(enc_key, masks, &scaled, &e, params);
                proof {
                    assert forall|i: int| 0 <= i < mv.len() implies (#[trigger] mv[i]).len() == scaled@.len() by {
                        assert(ring_elem(mv[i], params.ring_dim as nat));
                    }
                    lemma_glwe_decrypt_encrypt(ek, mv, scaled@, e@);
                    lemma_noise_within(scaled@, e@, noise_bound);
                }
                glwes.push(c);
                l = l + 1;
            }
            let g = Glev { glwes };
            assert(glev_wf(g@, params)) by {
                assert forall|i: int| 0 <= i < g@.len() implies glwe_wf(#[trigger] g@[i], params) by {
                    assert(glwe_wf(glwes@[i]@, params));
                }
            }
            assert forall|l: int| 0 <= l < params.levels implies noise_within(
                glwe_phase(ek, #[trigger] g@[l]),
                pscale(gadget_msg(sk, x@, j as int), gadget_weight(params, l)),
                noise_bound,
            ) by {
                assert(noise_within(
                    glwe_phase(ek, glwes@[l]@),
                    pscale(gadget_msg(sk, x@, j as int), gadget_weight(params, l)),
                    noise_bound,
                ));
            }
            glevs.push(g);
            j = j + 1;
        }
        let r = Ggsw { glevs };
        assert forall|i: int| 0 <= i < r@.len() implies glev_wf(#[trigger] r@[i], params) by {
            assert(glev_wf(glevs@[i]@, params));
        }
        assert forall|i: int, l: int|
            0 <= i < params.glwe_size && 0 <= l < params.levels implies noise_within(
                glwe_phase(ek, #[trigger] r@[i][l]),
                pscale(gadget_msg(sk, x@, i), gadget_weight(params, l)),
                noise_bound,
            ) by {
            assert(noise_within(
                glwe_phase(ek, glevs@[i]@[l]),
                pscale(gadget_msg(sk, x@, i), gadget_weight(params, l)),
                noise_bound,
            ));
        }
        r
    }

    /// The external product with a GLWE ciphertext (see `ext_prod`), with the ring products
    /// taken directly.
    pub fn external_product(&self, c: &Glwe, params: Params) -> (r: Glwe)
        requires
            params.wf(),
            ggsw_wf(self@, params),
            glwe_wf(c@, params),
        ensures
            r@ == ext_prod(self@, c@, params),
            glwe_wf(r@, params),
    {
        self.external_product_with(c, params, None)
    }

    /// The external product with a GLWE ciphertext (see `ext_prod`), with the ring products
    /// taken through the number-theoretic transform of `table`.
    pub fn external_product_ntt(&self, c: &Glwe, params: Params, table: &NttTable) -> (r: Glwe)
        requires
            params.wf(),
            ggsw_wf(self@, params),
            glwe_wf(c@, params),
            table.wf(),
            table.n == params.ring_dim,
        ensures
            r@ == ext_prod(self@, c@, params),
            glwe_wf(r@, params),
    {
        self.external_product_with(c, params, Some(table))
    }

    fn external_product_with(&self, c: &Glwe, params: Params, table: Option<&NttTable>) -> (r: Glwe)
        requires
            params.wf(),
            ggsw_wf(self@, params),
            glwe_wf(c@, params),
            table matches Some(t) ==> t.wf() && t.n == params.ring_dim,
        ensures
            r@ == ext_prod(self@, c@, params),
            glwe_wf(r@, params),
    {
        let ghost g = self@;
        let ghost cv = c@;
        let mut out: Vec<Poly> = Vec::new();
        let mut p: usize = 0;
        while p < params.glwe_size
            invariant
                params.wf(),
                table matches Some(t) ==> t.wf() && t.n == params.ring_dim,
                g == self@,
                cv == c@,
                ggsw_wf(g, params),
                glwe_wf(cv, params),
                p <= params.glwe_size,
                out@.len() == p,
                forall|i: int| 0 <= i < p ==> (#[trigger] out@[i])@ == ext_prod(g, cv, params)[i],
                forall|i: int| 0 <= i < p ==> ring_elem((#[trigger] out@[i])@, params.ring_dim as nat),
            decreases params.glwe_size - p,
        {
            let mut acc = Poly::zero(params.ring_dim);
            let mut j: usize = 0;
            while j < params.glwe_size
                invariant
                    params.wf(),
                    table matches Some(t) ==> t.wf() && t.n == params.ring_dim,
                    g == self@,
                    cv == c@,
                    ggsw_wf(g, params),
                    glwe_wf(cv, params),
                    p < params.glwe_size,
                    j <= params.glwe_size,
                    acc@ == component_sum(g, cv, params, p as int, j as nat),
                    ring_elem(acc@, params.ring_dim as nat),
                decreases params.glwe_size - j,
            {
                let mut inner = Poly::zero(params.ring_dim);
                let mut l: usize = 0;
                assert(glev_wf(g[j as int], params));
                assert(ring_elem(cv[j as int], params.ring_dim as nat));
                while l < params.levels
                    invariant
                        params.wf(),
                        table matches Some(t) ==> t.wf() && t.n == params.ring_dim,
                        g == self@,
                        cv == c@,
                        ggsw_wf(g, params),
                        glwe_wf(cv, params),
                        glev_wf(g[j as int], params),
                        ring_elem(cv[j as int], params.ring_dim as nat),
                        p < params.glwe_size,
                        j < params.glwe_size,
                        l <= params.levels,
                        inner@ == level_sum(g, cv, params, p as int, j as int, l as nat),
                        ring_elem(inner@, params.ring_dim as nat),
                    decreases params.levels - l,
                {
                    let lv = params.levels - 1 - l;
                    let d = digit_poly_exec(&c.polys[j], lv, params);
                    assert(glwe_wf(g[j as int][lv as int], params));
                    assert(ring_elem(g[j as int][lv as int][p as int], params.ring_dim as nat));
                    let term = ring_mul(&d, &self.glevs[j].glwes[lv].polys[p], table);
                    inner = inner.add(&term);
                    l = l + 1;
                }
                acc = acc.add(&inner);
                j = j + 1;
            }
            out.push(acc);
            p = p + 1;
        }
        let r = Glwe { polys: out };
        assert(r@ =~= ext_prod(g, cv, params));
        r
    }

    /// The coefficients in order (see `ggsw_flat`).
    pub fn flatten(&self) -> (r: Vec<u64>)
        ensures
            r@ == ggsw_flat(self@),
    {
        let ghost g = self@;
        let mut v: Vec<u64> = Vec::new();
        let mut j: usize = 0;
        while j < self.glevs.len()
            invariant
                g == self@,
                j <= g.len(),
                v@ == g.take(j as int).map_values(|x: Seq<Seq<Seq<u64>>>| glev_flat(x)).flatten(),
            decreases g.len() - j,
        {
            let mut f = glev_flatten(&self.glevs[j]);
            proof {
                let prev = g.take(j as int).map_values(|x: Seq<Seq<Seq<u64>>>| glev_flat(x));
                lemma_flatten_push(prev, glev_flat(g[j as int]));
                assert(prev.push(glev_flat(g[j as int])) =~= g.take(j + 1).map_values(
                    |x: Seq<Seq<Seq<u64>>>| glev_flat(x),
                ));
            }
            v.append(&mut f);
            j = j + 1;
        }
        assert(g.take(g.len() as int) =~= g);
        v
    }
}

/// The ring product, through the transform of `table` when one is given.
fn ring_mul(a: &Poly, b: &Poly, table: Option<&NttTable>) -> (r: Poly)
    requires
        canon(a@),
        canon(b@),
        a@.len() == b@.len(),
        table matches Some(t) ==> t.wf() && t.n == a@.len(),
    ensures
        r@ == pmul(a@, b@),
        canon(r@),
{
    match table {
        Some(t) => t.mul(a, b),
        None => a.mul(b),
    }
}

fn glev_flatten(g: &Glev) -> (r: Vec<u64>)
    ensures
        r@ == glev_flat(g@),
{
    let ghost gv = g@;
    let mut v: Vec<u64> = Vec::new();
    let mut l: usize = 0;
    while l < g.glwes.len()
        invariant
            gv == g@,
            l <= gv.len(),
            v@ == gv.take(l as int).map_values(|c: Seq<Seq<u64>>| c.flatten()).flatten(),
        decreases gv.len() - l,
    {
        let mut f = g.glwes[l].flatten();
        proof {
            let prev = gv.take(l as int).map_values(|c: Seq<Seq<u64>>| c.flatten());
            lemma_flatten_push(prev, gv[l as int].flatten());
            assert(prev.push(gv[l as int].flatten()) =~= gv.take(l + 1).map_values(|c: Seq<Seq<u64>>| c.flatten()));
        }
        v.append(&mut f);
        l = l + 1;
    }
    assert(gv.take(gv.len() as int) =~= gv);
    v
}

/// The bootstrapping key: for each LWE key coordinate, a GGSW under the GLWE key of that
/// coordinate as a constant.
pub fn compute_bsk(s_lwe: &Vec<u64>, s_glwe: &Vec<Poly>, noise_bound: u64, params: Params) -> (r: Vec<Ggsw>)
    requires
        params.wf(),
        noise_bound < P / 2,
        canon(s_lwe@),
        glwe_key_wf(polys_view(s_glwe@), params),
    ensures
        r@.len() == s_lwe@.len(),
        forall|i: int| 0 <= i < r@.len() ==> ggsw_encrypts(
            (#[trigger] r@[i])@,
            polys_view(s_glwe@),
            polys_view(s_glwe@),
            pconst(s_lwe@[i], params.ring_dim as nat),
            noise_bound,
            params,
        ),
{
    let mut v: Vec<Ggsw> = Vec::new();
    let mut i: usize = 0;
    while i < s_lwe.len()
        invariant
            params.wf(),
            noise_bound < P / 2,
            canon(s_lwe@),
            glwe_key_wf(polys_view(s_glwe@), params),
            i <= s_lwe@.len(),
            v@.len() == i,
            forall|t: int| 0 <= t < i ==> ggsw_encrypts(
                (#[trigger] v@[t])@,
                polys_view(s_glwe@),
                polys_view(s_glwe@),
                pconst(s_lwe@[t], params.ring_dim as nat),
                noise_bound,
                params,
            ),
        decreases s_lwe@.len() - i,
    {
        let x = const_poly(s_lwe[i], params.ring_dim);
        let g = Ggsw::encrypt(s_glwe, s_glwe, &x, noise_bound, params);
        v.push(g);
        i = i + 1;
    }
    v
}

/// The key-switching key: a GGSW under `s_to` of 1 for the key `s_glwe`. Its external product
/// with a ciphertext under `s_glwe` is a ciphertext of the same phase under `s_to`.
pub fn compute_ksk(s_to: &Vec<Poly>, s_glwe: &Vec<Poly>, noise_bound: u64, params: Params) -> (r: Ggsw)
    requires
        params.wf(),
        noise_bound < P / 2,
        glwe_key_wf(polys_view(s_to@), params),
        glwe_key_wf(polys_view(s_glwe@), params),
    ensures
        ggsw_encrypts(
            r@,
            polys_view(s_to@),
            polys_view(s_glwe@),
            pconst(1, params.ring_dim as nat),
            noise_bound,
            params,
        ),
{
    let one = const_poly(1, params.ring_dim);
    Ggsw::encrypt(s_to, s_glwe, &one, noise_bound, params)
}

/// The bootstrapping key with the given noise: `noise[i]` for the GGSW ciphertext of
/// coordinate `i` (see `Ggsw::encrypt_with_noise`).
pub fn compute_bsk_with_noise(s_lwe: &Vec<u64>, s_glwe: &Vec<Poly>, noise: &Vec<Vec<Vec<Poly>>>, params: Params) -> (r: Vec<Ggsw>)
    requires
        params.wf(),
        canon(s_lwe@),
        glwe_key_wf(polys_view(s_glwe@), params),
        noise@.len() == s_lwe@.len(),
        forall|i: int| 0 <= i < noise@.len() ==> noise_shape(noise_view((#[trigger] noise@[i])@), params),
    ensures
        r@.len() == s_lwe@.len(),
        forall|i: int| 0 <= i < r@.len() ==> ggsw_encrypts_with(
            (#[trigger] r@[i])@,
            polys_view(s_glwe@),
            polys_view(s_glwe@),
            pconst(s_lwe@[i], params.ring_dim as nat),
            noise_view(noise@[i]@),
            params,
        ),
{
    let mut v: Vec<Ggsw> = Vec::new();
    let mut i: usize = 0;
    while i < s_lwe.len()
        invariant
            params.wf(),
            canon(s_lwe@),
            glwe_key_wf(polys_view(s_glwe@), params),
            noise@.len() == s_lwe@.len(),
            forall|t: int| 0 <= t < noise@.len() ==> noise_shape(noise_view((#[trigger] noise@[t])@), params),
            i <= s_lwe@.len(),
            v@.len() == i,
            forall|t: int| 0 <= t < i ==> ggsw_encrypts_with(
                (#[trigger] v@[t])@,
                polys_view(s_glwe@),
                polys_view(s_glwe@),
                pconst(s_lwe@[t], params.ring_dim as nat),
                noise_view(noise@[t]@),
                params,
            ),
        decreases s_lwe@.len() - i,
    {
        let x = const_poly(s_lwe[i], params.ring_dim);
        assert(noise_shape(noise_view(noise@[i as int]@), params));
        let g = Ggsw::encrypt_with_noise(s_glwe, s_glwe, &x, &noise[i], params);
        v.push(g);
        i = i + 1;
    }
    v
}

/// The key-switching key with the given noise (see `Ggsw::encrypt_with_noise`).
pub fn compute_ksk_with_noise(s_to: &Vec<Poly>, s_glwe: &Vec<Poly>, noise: &Vec<Vec<Poly>>, params: Params) -> (r: Ggsw)
    requires
        params.wf(),
        glwe_key_wf(polys_view(s_to@), params),
        glwe_key_wf(polys_view(s_glwe@), params),
        noise_shape(noise_view(noise@), params),
    ensures
        ggsw_encrypts_with(
            r@,
            polys_view(s_to@),
            polys_view(s_glwe@),
            pconst(1, params.ring_dim as nat),
            noise_view(noise@),
            params,
        ),
{
    let one = const_poly(1, params.ring_dim);
    Ggsw::encrypt_with_noise(s_to, s_glwe, &one, noise, params)
}

/// The constant ring element `c`.
pub fn const_poly(c: u64, n: usize) -> (r: Poly)
    requires
        c < P,
    ensures
        r@ == pconst(c, n as nat),
        ring_elem(r@, n as nat),
{
    let mut v: Vec<u64> = Vec::new();
    let mut t: usize = 0;
    while t < n
        invariant
            c < P,
            t <= n,
            v@ == pconst(c, n as nat).take(t as int),
            canon(v@),
        decreases n - t,
    {
        if t == 0 {
            v.push(c);
        } else {
            v.push(0);
        }
        t = t + 1;
        assert(v@ =~= pconst(c, n as nat).take(t as int));
    }
    assert(v@ =~= pconst(c, n as nat));
    Poly { coeffs: v }
}

} // verus!
