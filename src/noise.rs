use crate::field::{fred, P};
use crate::ggsw::{base, bal, decomp_rem, level_digit, rounded, shift_of};
use crate::params::Params;
use vstd::arithmetic::power2::{lemma2_to64, lemma_pow2_adds, lemma_pow2_pos, lemma_pow2_unfold, pow2};
use vstd::prelude::*;

verus! {

/// The rounded coefficient has at most LOGB * ELL bits: it is at most 2^(LOGB * ELL).
proof fn lemma_rounded_bound(y: u64, params: Params)
    requires
        params.wf(),
        y < P,
    ensures
        0 <= rounded(y, params) <= pow2((params.log_base * params.levels) as nat),
{
    lemma2_to64();
    let s = shift_of(params);
    let le = (params.log_base * params.levels) as nat;
    lemma_pow2_adds(le, s);
    assert(le + s == 64);
    if s > 0 {
        let h = pow2((s - 1) as nat) as int;
        let d = pow2(s) as int;
        lemma_pow2_unfold(s);
        lemma_pow2_pos((s - 1) as nat);
        lemma_pow2_pos(le);
        let x = y + h;
        vstd::arithmetic::div_mod::lemma_fundamental_div_mod(x, d);
        vstd::arithmetic::div_mod::lemma_mod_division_less_than_divisor(x, d);
        vstd::arithmetic::div_mod::lemma_div_pos_is_pos(x, d);
        let q = x / d;
        let t = pow2(le) as int;
        assert(q <= t) by (nonlinear_arith)
            requires
                x == d * q + x % d,
                x % d >= 0,
                x < t * d + d,
                d > 0,
        ;
    }
}

/// What is left above the lowest q digits of a value of at most B^ELL is at most
/// B^(ELL - q) + 1.
proof fn lemma_rem_bound(yr: int, params: Params, q: nat)
    requires
        params.wf(),
        q < params.levels,
        0 <= yr <= pow2((params.log_base * params.levels) as nat),
    ensures
        0 <= decomp_rem(yr, base(params), q) <= pow2((params.log_base * (params.levels - q)) as nat) + 1,
    decreases q,
{
    let b = base(params);
    let lb = params.log_base;
    lemma_pow2_pos(lb as nat);
    lemma_pow2_unfold(lb as nat);
    lemma_pow2_pos((lb - 1) as nat);
    if q == 0 {
    } else {
        let q1 = (q - 1) as nat;
        lemma_rem_bound(yr, params, q1);
        let r = decomp_rem(yr, b, q1);
        let m = r % b;
        vstd::arithmetic::div_mod::lemma_mod_division_less_than_divisor(r, b);
        vstd::arithmetic::div_mod::lemma_fundamental_div_mod(r, b);
        let v = r - bal(m, b);
        let t = pow2((lb * (params.levels - q)) as nat) as int;
        assert(lb * (params.levels - q1) == lb * (params.levels - q) + lb) by (nonlinear_arith)
            requires
                q == q1 + 1,
        ;
        lemma_pow2_adds((lb * (params.levels - q)) as nat, lb as nat);
        assert(pow2((lb * (params.levels - q1)) as nat) == t * b);
        // v = r - bal(m) lies in [0, r + b/2], and v / b is what is left.
        assert(0 <= v <= r + b / 2);
        vstd::arithmetic::div_mod::lemma_fundamental_div_mod(v, b);
        vstd::arithmetic::div_mod::lemma_mod_division_less_than_divisor(v, b);
        vstd::arithmetic::div_mod::lemma_div_pos_is_pos(v, b);
        let nq = v / b;
        assert(nq <= t + 1) by (nonlinear_arith)
            requires
                v == b * nq + v % b,
                v % b >= 0,
                v <= r + b / 2,
                r <= t * b + 1,
                b >= 2,
                b / 2 * 2 <= b,
        ;
    }
}

/// Every signed digit has absolute value at most B + 1.
pub proof fn lemma_digit_bound(y: u64, params: Params, l: int)
    requires
        params.wf(),
        y < P,
        0 <= l < params.levels,
    ensures
        -(base(params) + 1) <= level_digit(y, params, l) <= base(params) + 1,
{
    crate::ggsw::lemma_decomposition_recomposes(y, params);
    if l == 0 {
        lemma_rounded_bound(y, params);
        let q = (params.levels - 1) as nat;
        lemma_rem_bound(rounded(y, params), params, q);
        assert(params.log_base * (params.levels - q) == params.log_base);
    } else {
        assert(-base(params) <= 2 * level_digit(y, params, l) < base(params));
    }
}

/// The field element `x` stands for an integer of absolute value at most `b`.
pub open spec fn csmall(x: u64, b: int) -> bool {
    x < P && (x <= b || x >= P - b)
}

/// The integer in (-P/2, P/2] that the field element `x` stands for.
pub open spec fn cval(x: u64) -> int {
    if x <= P / 2 {
        x as int
    } else {
        x - P
    }
}

/// Every coefficient stands for an integer of absolute value at most `b`.
pub open spec fn small_coeffs(e: Seq<u64>, b: int) -> bool {
    forall|t: int| 0 <= t < e.len() ==> #[trigger] csmall(e[t], b)
}

proof fn lemma_csmall_fred(v: int, b: int)
    requires
        -b <= v <= b,
        2 * b < P,
    ensures
        csmall(fred(v), b),
{
    if v >= 0 {
        vstd::arithmetic::div_mod::lemma_small_mod(v as nat, P as nat);
    } else {
        vstd::arithmetic::div_mod::lemma_mod_add_multiples_vanish(v, P as int);
        vstd::arithmetic::div_mod::lemma_small_mod((v + P) as nat, P as nat);
    }
}

proof fn lemma_cval(x: u64, b: int)
    requires
        csmall(x, b),
        2 * b < P,
    ensures
        -b <= cval(x) <= b,
        fred(cval(x)) == x,
{
    if x <= P / 2 {
        vstd::arithmetic::div_mod::lemma_small_mod(x as nat, P as nat);
    } else {
        vstd::arithmetic::div_mod::lemma_mod_add_multiples_vanish(x - P, P as int);
        vstd::arithmetic::div_mod::lemma_small_mod(x as nat, P as nat);
    }
}

/// The sum of two small elements is small.
proof fn lemma_fadd_small(a: u64, b: u64, ba: int, bb: int)
    requires
        csmall(a, ba),
        csmall(b, bb),
        ba >= 0,
        bb >= 0,
        2 * (ba + bb) < P,
    ensures
        csmall(crate::field::fadd(a, b), ba + bb),
{
    lemma_cval(a, ba);
    lemma_cval(b, bb);
    crate::field::lemma_fred_add(cval(a), b as int);
    crate::field::lemma_fred_add_right(cval(a), cval(b));
    lemma_csmall_fred(cval(a) + cval(b), ba + bb);
}

proof fn lemma_sum_abs(f: spec_fn(int) -> int, lo: int, n: nat, m: int)
    requires
        m >= 0,
        forall|i: int| lo <= i < lo + n ==> -m <= #[trigger] f(i) <= m,
    ensures
        -(n * m) <= crate::sums::sum(f, lo, n) <= n * m,
    decreases n,
{
    if n > 0 {
        lemma_sum_abs(f, lo, (n - 1) as nat, m);
        assert(n * m == (n - 1) * m + m) by (nonlinear_arith);
    } else {
        assert(n * m == 0) by (nonlinear_arith)
            requires
                n == 0,
        ;
    }
}

/// A product of digits of absolute value at most `dm` with small noise is small.
proof fn lemma_pmul_small(d: Seq<u64>, di: spec_fn(int) -> int, e: Seq<u64>, dm: int, b: int, t: int)
    requires
        d.len() == e.len(),
        d.len() > 0,
        0 <= t < d.len(),
        dm >= 0,
        b >= 0,
        forall|i: int| 0 <= i < d.len() ==> #[trigger] d[i] == fred(di(i)) && -dm <= di(i) <= dm,
        small_coeffs(e, b),
        2 * b < P,
        2 * (d.len() * (dm * b)) < P,
    ensures
        csmall(crate::poly::pmul(d, e)[t], d.len() * (dm * b)),
{
    let n = d.len();
    crate::ring::lemma_pmul_iprod(d, e, t);
    assert(dm * b <= n * (dm * b)) by (nonlinear_arith)
        requires
            n >= 1,
            dm * b >= 0,
    ;
    assert(dm * b >= 0) by (nonlinear_arith)
        requires
            dm >= 0,
            b >= 0,
    ;
    let f0 = |i: int| d[i] * crate::ring::aext(e, t - i);
    let f1 = |i: int| di(i) * crate::ring::signed(t - i, n as int, cval(e[(t - i) % (n as int)]));
    assert forall|i: int| 0 <= i < n implies fred(#[trigger] f0(i)) == fred(f1(i)) && -(dm * b) <= f1(i) <= dm * b by {
        let r = (t - i) % (n as int);
        vstd::arithmetic::div_mod::lemma_mod_division_less_than_divisor(t - i, n as int);
        assert(csmall(e[r], b));
        lemma_cval(e[r], b);
        let a0 = crate::ring::aext(e, t - i);
        let a1 = crate::ring::signed(t - i, n as int, cval(e[r]));
        assert(fred(a0) == fred(a1)) by {
            if ((t - i) / (n as int)) % 2 == 0 {
                crate::field::lemma_fred_canonical(e[r]);
            } else {
                crate::field::lemma_fred_sub_right(0, cval(e[r]));
                crate::field::lemma_fred_sub_right(0, e[r] as int);
                crate::field::lemma_fred_canonical(e[r]);
            }
        }
        assert(-b <= a1 <= b);
        vstd::arithmetic::div_mod::lemma_mul_mod_noop_general(d[i] as int, a0, P as int);
        vstd::arithmetic::div_mod::lemma_mul_mod_noop_general(di(i), a1, P as int);
        crate::field::lemma_fred_canonical(d[i]);
        assert(-(dm * b) <= di(i) * a1 <= dm * b) by (nonlinear_arith)
            requires
                -dm <= di(i) <= dm,
                -b <= a1 <= b,
        ;
    }
    crate::sums::lemma_sum_congruent(f0, f1, 0, n);
    assert forall|i: int| 0 <= i < 0 + n implies -(dm * b) <= #[trigger] f1(i) <= dm * b by {
        assert(fred(f0(i)) == fred(f1(i)) && -(dm * b) <= f1(i) <= dm * b);
    }
    lemma_sum_abs(f1, 0, n, dm * b);
    lemma_csmall_fred(crate::sums::sum(f1, 0, n), n * (dm * b));
}

/// The bound on the noise of an external product: K ELL N (B + 1) b, for GGSW noise of
/// absolute value at most b.
pub open spec fn error_bound(params: Params, b: int) -> int {
    params.glwe_size * (params.levels * (params.ring_dim * ((base(params) + 1) * b)))
}

/// Every GGSW noise polynomial has coefficients of absolute value at most `b`.
pub open spec fn noise_small(nv: Seq<Seq<Seq<u64>>>, params: Params, b: int) -> bool {
    forall|j: int, l: int| 0 <= j < params.glwe_size && 0 <= l < params.levels ==> small_coeffs(#[trigger] nv[j][l], b)
}

proof fn lemma_bound_parts(params: Params, b: int, m: int, mm: int)
    requires
        params.wf(),
        b >= 0,
        0 <= m <= params.levels,
        0 <= mm <= params.glwe_size,
    ensures
        base(params) >= 2,
        params.ring_dim * ((base(params) + 1) * b) >= 0,
        m * (params.ring_dim * ((base(params) + 1) * b)) <= params.levels * (params.ring_dim * ((base(params) + 1) * b)),
        mm * (params.levels * (params.ring_dim * ((base(params) + 1) * b))) <= error_bound(params, b),
        b <= error_bound(params, b),
{
    lemma_pow2_unfold(params.log_base as nat);
    lemma_pow2_pos((params.log_base - 1) as nat);
    let u = params.ring_dim * ((base(params) + 1) * b);
    assert(u >= b) by (nonlinear_arith)
        requires
            params.ring_dim >= 1,
            base(params) >= 2,
            b >= 0,
            u == params.ring_dim * ((base(params) + 1) * b),
    ;
    assert(m * u <= params.levels * u) by (nonlinear_arith)
        requires
            m <= params.levels,
            u >= 0,
    ;
    let v = params.levels * u;
    assert(v >= u) by (nonlinear_arith)
        requires
            params.levels >= 1,
            u >= 0,
            v == params.levels * u,
    ;
    assert(mm * v <= params.glwe_size * v && params.glwe_size * v >= v) by (nonlinear_arith)
        requires
            mm <= params.glwe_size,
            params.glwe_size >= 1,
            v >= 0,
    ;
}

proof fn lemma_noise_level_small(c: Seq<Seq<u64>>, nv: Seq<Seq<Seq<u64>>>, params: Params, b: int, j: int, m: nat)
    requires
        params.wf(),
        crate::glwe::glwe_wf(c, params),
        crate::ggsw::noise_shape(nv, params),
        noise_small(nv, params, b),
        b >= 0,
        2 * error_bound(params, b) < P,
        0 <= j < params.glwe_size,
        m <= params.levels,
    ensures
        crate::extprod::noise_level(c, nv, params, j, m).len() == params.ring_dim,
        small_coeffs(crate::extprod::noise_level(c, nv, params, j, m), m * (params.ring_dim * ((base(params) + 1) * b))),
    decreases m,
{
    let n = params.ring_dim as nat;
    let u = params.ring_dim * ((base(params) + 1) * b);
    lemma_bound_parts(params, b, m as int, 1);
    if m == 0 {
        assert forall|t: int| 0 <= t < n implies #[trigger] csmall(crate::extprod::noise_level(c, nv, params, j, m)[t], m * u) by {}
    } else {
        let l = params.levels - m;
        lemma_noise_level_small(c, nv, params, b, j, (m - 1) as nat);
        lemma_bound_parts(params, b, (m - 1) as int, 1);
        assert(crate::poly::ring_elem(c[j], n));
        assert(crate::glwe::ring_vec(nv[j], params.levels as nat, n));
        let e = nv[j][l];
        assert(crate::poly::ring_elem(e, n));
        assert(small_coeffs(e, b));
        let d = crate::ggsw::digit_poly(c[j], params, l);
        let di = |i: int| level_digit(c[j][i], params, l);
        let dm = base(params) + 1;
        assert forall|i: int| 0 <= i < d.len() implies #[trigger] d[i] == fred(di(i)) && -dm <= di(i) <= dm by {
            lemma_digit_bound(c[j][i], params, l);
        }
        let prev = crate::extprod::noise_level(c, nv, params, j, (m - 1) as nat);
        assert(m * u == (m - 1) * u + u) by (nonlinear_arith);
        assert forall|t: int| 0 <= t < n implies #[trigger] csmall(crate::extprod::noise_level(c, nv, params, j, m)[t], m * u) by {
            lemma_pmul_small(d, di, e, dm, b, t);
            assert(csmall(prev[t], (m - 1) * u));
            lemma_fadd_small(prev[t], crate::poly::pmul(d, e)[t], (m - 1) * u, u);
        }
    }
}

proof fn lemma_noise_total_small(c: Seq<Seq<u64>>, nv: Seq<Seq<Seq<u64>>>, params: Params, b: int, m: nat)
    requires
        params.wf(),
        crate::glwe::glwe_wf(c, params),
        crate::ggsw::noise_shape(nv, params),
        noise_small(nv, params, b),
        b >= 0,
        2 * error_bound(params, b) < P,
        m <= params.glwe_size,
    ensures
        crate::extprod::noise_total(c, nv, params, m).len() == params.ring_dim,
        small_coeffs(
            crate::extprod::noise_total(c, nv, params, m),
            m * (params.levels * (params.ring_dim * ((base(params) + 1) * b))),
        ),
    decreases m,
{
    let n = params.ring_dim as nat;
    let v = params.levels * (params.ring_dim * ((base(params) + 1) * b));
    lemma_bound_parts(params, b, params.levels as int, m as int);
    if m == 0 {
        assert forall|t: int| 0 <= t < n implies #[trigger] csmall(crate::extprod::noise_total(c, nv, params, m)[t], m * v) by {}
    } else {
        lemma_noise_total_small(c, nv, params, b, (m - 1) as nat);
        lemma_bound_parts(params, b, params.levels as int, (m - 1) as int);
        lemma_noise_level_small(c, nv, params, b, m - 1, params.levels as nat);
        let prev = crate::extprod::noise_total(c, nv, params, (m - 1) as nat);
        let lv = crate::extprod::noise_level(c, nv, params, m - 1, params.levels as nat);
        assert(m * v == (m - 1) * v + v) by (nonlinear_arith);
        assert forall|t: int| 0 <= t < n implies #[trigger] csmall(crate::extprod::noise_total(c, nv, params, m)[t], m * v) by {
            assert(csmall(prev[t], (m - 1) * v));
            assert(csmall(lv[t], v));
            lemma_fadd_small(prev[t], lv[t], (m - 1) * v, v);
        }
    }
}

/// External product correctness with noise: for a GGSW ciphertext of `x` whose noise
/// coefficients are at most `b` in absolute value, the phase of the external product with `c`
/// is `x` times the phase of `c` rounded to its top LOGB * ELL bits (a rounding of at most
/// 2^(63 - LOGB * ELL) per coefficient, see `lemma_rounding_error`), plus an error whose
/// coefficients are at most K ELL N (B + 1) b in absolute value. That bound shrinks with the
/// base B = 2^LOGB.
pub proof fn lemma_external_product_error(
    g: Seq<Seq<Seq<Seq<u64>>>>,
    c: Seq<Seq<u64>>,
    e: Seq<Seq<u64>>,
    s: Seq<Seq<u64>>,
    x: Seq<u64>,
    nv: Seq<Seq<Seq<u64>>>,
    params: Params,
    b: int,
)
    requires
        params.wf(),
        crate::glwe::glwe_key_wf(e, params),
        crate::glwe::glwe_key_wf(s, params),
        crate::poly::ring_elem(x, params.ring_dim as nat),
        crate::ggsw::noise_shape(nv, params),
        crate::ggsw::ggsw_encrypts_with(g, e, s, x, nv, params),
        noise_small(nv, params, b),
        crate::glwe::glwe_wf(c, params),
        b >= 0,
        2 * error_bound(params, b) < P,
    ensures
        exists|err: Seq<u64>|
            err.len() == params.ring_dim && small_coeffs(err, error_bound(params, b)) && crate::glwe::glwe_phase(
                e,
                crate::ggsw::ext_prod(g, c, params),
            ) == crate::poly::padd(
                crate::poly::pmul(x, crate::glwe::glwe_phase(s, crate::extprod::rounded_glwe(c, params))),
                err,
            ),
{
    crate::extprod::lemma_external_product_noisy(g, c, e, s, x, nv, params);
    lemma_noise_total_small(c, nv, params, b, params.glwe_size as nat);
    let err = crate::extprod::noise_total(c, nv, params, params.glwe_size as nat);
    assert(small_coeffs(err, error_bound(params, b)));
}

/// For fixed N, K, ELL and noise, the error bound of the external product does not grow as
/// LOGB decreases.
pub proof fn lemma_error_bound_monotone(p1: Params, p2: Params, b: int)
    requires
        p1.wf(),
        p2.wf(),
        p1.ring_dim == p2.ring_dim,
        p1.glwe_size == p2.glwe_size,
        p1.levels == p2.levels,
        p2.log_base <= p1.log_base,
        b >= 0,
    ensures
        error_bound(p2, b) <= error_bound(p1, b),
{
    if p2.log_base < p1.log_base {
        vstd::arithmetic::power2::lemma_pow2_strictly_increases(p2.log_base as nat, p1.log_base as nat);
    }
    let b1 = base(p1);
    let b2 = base(p2);
    let k = p1.glwe_size as int;
    let l = p1.levels as int;
    let n = p1.ring_dim as int;
    assert(k * (l * (n * ((b2 + 1) * b))) <= k * (l * (n * ((b1 + 1) * b)))) by (nonlinear_arith)
        requires
            b2 <= b1,
            b >= 0,
            k >= 0,
            l >= 0,
            n >= 0,
    ;
}

} // verus!
