use crate::field::{fadd, fred, lemma_fred_add, lemma_fred_add_right, lemma_fred_canonical, P};
use crate::poly::{canon, conv_sum, conv_term, padd, pmul, pneg, pscale, psub, pzero, ring_elem};
use crate::sums::{
    lemma_sum_add, lemma_sum_congruent, lemma_sum_ext, lemma_sum_period, lemma_sum_reverse,
    lemma_sum_scale, lemma_sum_shift, lemma_sum_swap, sum,
};
use vstd::arithmetic::div_mod::{lemma_div_minus_one, lemma_div_plus_one, lemma_mod_add_multiples_vanish, lemma_mod_sub_multiples_vanish, lemma_small_mod};
use vstd::prelude::*;

verus! {

/// `v` with the sign that X^N = -1 gives to exponent `t`.
pub open spec fn signed(t: int, n: int, v: int) -> int {
    if (t / n) % 2 == 0 {
        v
    } else {
        -v
    }
}

/// Coefficient `t` of the ring element for any exponent, reading X^N as -1.
pub open spec fn aext(a: Seq<u64>, t: int) -> int {
    signed(t, a.len() as int, a[t % (a.len() as int)] as int)
}

/// Coefficient `k` of the product before reduction, for any exponent `k`.
pub open spec fn iprod(a: Seq<u64>, b: Seq<u64>, k: int) -> int {
    sum(|i: int| a[i] * aext(b, k - i), 0, a.len())
}

proof fn lemma_sgn_anti(t: int, n: int)
    requires
        n > 0,
    ensures
        forall|v: int| #[trigger] signed(t + n, n, v) == -signed(t, n, v),
        (t + n) % n == t % n,
{
    lemma_div_plus_one(t, n);
    lemma_mod_add_multiples_vanish(t, n);
    assert((n + t) == t + n);
    let q = t / n;
    assert(((q + 1) % 2 == 0) == (q % 2 != 0));
}

pub proof fn lemma_aext_anti(a: Seq<u64>, t: int)
    requires
        a.len() > 0,
    ensures
        aext(a, t + a.len()) == -aext(a, t),
{
    lemma_sgn_anti(t, a.len() as int);
}

pub proof fn lemma_aext_range(a: Seq<u64>, t: int)
    requires
        a.len() > 0,
        -a.len() <= t < a.len(),
    ensures
        0 <= t ==> aext(a, t) == a[t],
        t < 0 ==> aext(a, t) == -a[t + a.len()],
{
    let n = a.len() as int;
    if t >= 0 {
        lemma_small_mod(t as nat, n as nat);
        vstd::arithmetic::div_mod::lemma_basic_div(t, n);
    } else {
        lemma_sgn_anti(t, n);
        lemma_small_mod((t + n) as nat, n as nat);
        vstd::arithmetic::div_mod::lemma_basic_div(t + n, n);
        let v = a[t % n] as int;
        assert(signed(t + n, n, v) == -signed(t, n, v));
    }
}

/// A function that flips sign every `n` steps is its value at the reduced exponent, signed.
proof fn lemma_antiperiodic(f: spec_fn(int) -> int, n: int, t: int)
    requires
        n > 0,
        forall|x: int| #[trigger] f(x + n) == -f(x),
    ensures
        f(t) == signed(t, n, f(t % n)),
    decreases (if t >= 0 { t / n } else { -(t / n) }),
{
    vstd::arithmetic::div_mod::lemma_fundamental_div_mod(t, n);
    vstd::arithmetic::div_mod::lemma_mod_division_less_than_divisor(t, n);
    if 0 <= t < n {
        lemma_small_mod(t as nat, n as nat);
        vstd::arithmetic::div_mod::lemma_basic_div(t, n);
    } else if t >= n {
        assert(f(t - n + n) == -f(t - n));
        lemma_sgn_anti(t - n, n);
        assert(t - n + n == t);
        lemma_div_minus_one(t, n);
        lemma_antiperiodic(f, n, t - n);
    } else {
        assert(f(t + n) == -f(t));
        lemma_sgn_anti(t, n);
        lemma_div_plus_one(t, n);
        lemma_antiperiodic(f, n, t + n);
    }
}

/// The product flips sign every N exponents.
proof fn lemma_iprod_anti(a: Seq<u64>, b: Seq<u64>, k: int)
    requires
        a.len() == b.len(),
        a.len() > 0,
    ensures
        iprod(a, b, k + a.len()) == -iprod(a, b, k),
{
    let n = a.len();
    let f = |i: int| a[i] * aext(b, k - i);
    let g = |i: int| a[i] * aext(b, k + n - i);
    let h = |i: int| -1 * f(i);
    assert forall|i: int| 0 <= i < n implies #[trigger] g(i) == h(i) by {
        lemma_aext_anti(b, k - i);
        assert(k - i + n == k + n - i);
        let x = aext(b, k - i);
        assert(a[i] * (-x) == -1 * (a[i] * x)) by (nonlinear_arith);
    }
    lemma_sum_ext(g, h, 0, n);
    lemma_sum_scale(f, -1, 0, n);
}

/// The coefficients of `pmul` are the reduced unreduced products.
pub proof fn lemma_pmul_iprod(a: Seq<u64>, b: Seq<u64>, k: int)
    requires
        a.len() == b.len(),
        a.len() > 0,
        0 <= k < a.len(),
    ensures
        pmul(a, b)[k] == fred(iprod(a, b, k)),
{
    lemma_conv_prefix(a, b, k, a.len());
}

proof fn lemma_conv_prefix(a: Seq<u64>, b: Seq<u64>, k: int, m: nat)
    requires
        a.len() == b.len(),
        a.len() > 0,
        0 <= k < a.len(),
        m <= a.len(),
    ensures
        conv_sum(a, b, k, m) == sum(|i: int| a[i] * aext(b, k - i), 0, m),
    decreases m,
{
    if m > 0 {
        lemma_conv_prefix(a, b, k, (m - 1) as nat);
        let i = m - 1;
        lemma_aext_range(b, k - i);
        if i <= k {
            assert(conv_term(a, b, k, i) == a[i] * aext(b, k - i));
        } else {
            assert(conv_term(a, b, k, i) == a[i] * aext(b, k - i)) by (nonlinear_arith)
                requires
                    conv_term(a, b, k, i) == -(a[i] * b[a.len() + k - i]),
                    aext(b, k - i) == -b[k - i + a.len()],
                    a.len() + k - i == k - i + a.len(),
            ;
        }
    }
}

/// Reading a product at any exponent agrees, modulo P, with the unreduced product there.
pub proof fn lemma_aext_pmul(a: Seq<u64>, b: Seq<u64>, t: int)
    requires
        a.len() == b.len(),
        a.len() > 0,
    ensures
        fred(aext(pmul(a, b), t)) == fred(iprod(a, b, t)),
{
    let n = a.len() as int;
    let r = t % n;
    vstd::arithmetic::div_mod::lemma_mod_division_less_than_divisor(t, n);
    lemma_pmul_iprod(a, b, r);
    let f = |x: int| iprod(a, b, x);
    assert forall|x: int| #[trigger] f(x + n) == -f(x) by {
        lemma_iprod_anti(a, b, x);
    }
    lemma_antiperiodic(f, n, t);
    let v = iprod(a, b, r);
    if (t / n) % 2 == 0 {
        crate::field::lemma_fred_bound(v);
        lemma_fred_canonical(fred(v));
    } else {
        crate::field::lemma_fred_sub_right(0, v);
    }
}

/// Multiplication in Z_P[X]/(X^N + 1) is commutative.
pub proof fn lemma_pmul_comm(a: Seq<u64>, b: Seq<u64>)
    requires
        a.len() == b.len(),
        a.len() > 0,
    ensures
        pmul(a, b) == pmul(b, a),
{
    let n = a.len();
    assert forall|k: int| 0 <= k < n implies #[trigger] pmul(a, b)[k] == pmul(b, a)[k] by {
        lemma_pmul_iprod(a, b, k);
        lemma_pmul_iprod(b, a, k);
        let f = |i: int| aext(a, i) * aext(b, k - i);
        let f0 = |i: int| a[i] * aext(b, k - i);
        assert forall|i: int| 0 <= i < n implies #[trigger] f0(i) == f(i) by {
            lemma_aext_range(a, i);
        }
        lemma_sum_ext(f0, f, 0, n);
        lemma_sum_reverse(f, k, 0, n);
        let h = |j: int| f(k - j);
        assert forall|j: int| #[trigger] h(j + n) == h(j) by {
            lemma_aext_anti(b, j);
            assert(k - (j + n) + n == k - j);
            lemma_aext_anti(a, k - (j + n));
            assert(aext(a, k - (j + n)) * aext(b, j + n) == aext(a, k - j) * aext(b, j)) by (nonlinear_arith)
                requires
                    aext(a, k - j) == -aext(a, k - (j + n)),
                    aext(b, j + n) == -aext(b, j),
            ;
        }
        lemma_sum_period(h, n, k - (n - 1));
        let h0 = |j: int| b[j] * aext(a, k - j);
        assert forall|j: int| 0 <= j < n implies #[trigger] h(j) == h0(j) by {
            lemma_aext_range(b, j);
            assert(k - (k - j) == j);
            let x = aext(a, k - j);
            let y = b[j] as int;
            assert(x * y == y * x) by (nonlinear_arith);
        }
        lemma_sum_ext(h, h0, 0, n);
    }
    assert(pmul(a, b) =~= pmul(b, a));
}

/// Sum over a full period of b(j) c(t - j): the unreduced product at `t`.
proof fn lemma_window_product(b: Seq<u64>, c: Seq<u64>, t: int, i: int)
    requires
        b.len() == c.len(),
        b.len() > 0,
    ensures
        sum(|m: int| aext(b, m - i) * aext(c, t + i - m), 0, b.len()) == iprod(b, c, t),
{
    let n = b.len();
    let f = |m: int| aext(b, m - i) * aext(c, t + i - m);
    lemma_sum_shift(f, i, 0, n);
    let h = |j: int| aext(b, j) * aext(c, t - j);
    let fs = |j: int| f(j + i);
    assert forall|j: int| -i <= j < -i + n implies #[trigger] fs(j) == h(j) by {
        assert(j + i - i == j);
        assert(t + i - (j + i) == t - j);
    }
    lemma_sum_ext(fs, h, -i, n);
    assert forall|j: int| #[trigger] h(j + n) == h(j) by {
        lemma_aext_anti(b, j);
        lemma_aext_anti(c, t - (j + n));
        assert(t - (j + n) + n == t - j);
        let x = aext(b, j);
        let y = aext(c, t - (j + n));
        assert((-x) * y == x * (-y)) by (nonlinear_arith);
    }
    lemma_sum_period(h, n, -i);
    let h0 = |j: int| b[j] * aext(c, t - j);
    assert forall|j: int| 0 <= j < n implies #[trigger] h(j) == h0(j) by {
        lemma_aext_range(b, j);
    }
    lemma_sum_ext(h, h0, 0, n);
}

/// Multiplication in Z_P[X]/(X^N + 1) is associative.
pub proof fn lemma_pmul_assoc(a: Seq<u64>, b: Seq<u64>, c: Seq<u64>)
    requires
        a.len() == b.len(),
        a.len() == c.len(),
        a.len() > 0,
    ensures
        pmul(pmul(a, b), c) == pmul(a, pmul(b, c)),
{
    let n = a.len();
    let ab = pmul(a, b);
    let bc = pmul(b, c);
    assert forall|k: int| 0 <= k < n implies #[trigger] pmul(ab, c)[k] == pmul(a, bc)[k] by {
        lemma_pmul_iprod(ab, c, k);
        lemma_pmul_iprod(a, bc, k);
        // Left side: reduce the inner product's coefficients first.
        let l0 = |m: int| ab[m] * aext(c, k - m);
        let l1 = |m: int| iprod(a, b, m) * aext(c, k - m);
        assert forall|m: int| 0 <= m < n implies fred(#[trigger] l0(m)) == fred(l1(m)) by {
            lemma_pmul_iprod(a, b, m);
            vstd::arithmetic::div_mod::lemma_mul_mod_noop_left(iprod(a, b, m), aext(c, k - m), P as int);
        }
        lemma_sum_congruent(l0, l1, 0, n);
        let g = |m: int, i: int| aext(c, k - m) * (a[i] * aext(b, m - i));
        let l2 = |m: int| sum(|i: int| g(m, i), 0, n);
        assert forall|m: int| 0 <= m < n implies #[trigger] l1(m) == l2(m) by {
            let fm = |i: int| a[i] * aext(b, m - i);
            lemma_sum_scale(fm, aext(c, k - m), 0, n);
            let sc = |j: int| aext(c, k - m) * fm(j);
            let gm = |i: int| g(m, i);
            assert forall|j: int| 0 <= j < n implies #[trigger] sc(j) == gm(j) by {}
            lemma_sum_ext(sc, gm, 0, n);
            let x = iprod(a, b, m);
            let y = aext(c, k - m);
            assert(x * y == y * x) by (nonlinear_arith);
        }
        lemma_sum_ext(l1, l2, 0, n);
        lemma_sum_swap(g, 0, n, 0, n);
        let l3 = |i: int| sum(|m: int| g(m, i), 0, n);
        let l4 = |i: int| a[i] * iprod(b, c, k - i);
        assert forall|i: int| 0 <= i < n implies #[trigger] l3(i) == l4(i) by {
            let w = |m: int| aext(b, m - i) * aext(c, k - i + i - m);
            lemma_window_product(b, c, k - i, i);
            lemma_sum_scale(w, a[i] as int, 0, n);
            let sw = |m: int| (a[i] as int) * w(m);
            let gi = |m: int| g(m, i);
            assert forall|m: int| 0 <= m < n implies #[trigger] gi(m) == sw(m) by {
                assert(k - i + i - m == k - m);
                let x = aext(c, k - m);
                let y = a[i] as int;
                let z = aext(b, m - i);
                assert(x * (y * z) == y * (z * x)) by (nonlinear_arith);
            }
            lemma_sum_ext(gi, sw, 0, n);
        }
        lemma_sum_ext(l3, l4, 0, n);
        // Right side: read the inner product through its unreduced coefficients.
        let r0 = |i: int| a[i] * aext(bc, k - i);
        assert forall|i: int| 0 <= i < n implies fred(#[trigger] r0(i)) == fred(l4(i)) by {
            lemma_aext_pmul(b, c, k - i);
            vstd::arithmetic::div_mod::lemma_mul_mod_noop_right(a[i] as int, aext(bc, k - i), P as int);
            vstd::arithmetic::div_mod::lemma_mul_mod_noop_right(a[i] as int, iprod(b, c, k - i), P as int);
        }
        lemma_sum_congruent(r0, l4, 0, n);
    }
    assert(pmul(ab, c) =~= pmul(a, bc));
}

/// Coefficient `t` of a sum, read through X^N = -1, is congruent to the sum of the readings.
pub proof fn lemma_aext_padd(b: Seq<u64>, c: Seq<u64>, t: int)
    requires
        b.len() == c.len(),
        b.len() > 0,
    ensures
        fred(aext(padd(b, c), t)) == fred(aext(b, t) + aext(c, t)),
{
    let n = b.len() as int;
    let r = t % n;
    vstd::arithmetic::div_mod::lemma_mod_division_less_than_divisor(t, n);
    let v = b[r] + c[r];
    if (t / n) % 2 == 0 {
        crate::field::lemma_fred_bound(v);
        lemma_fred_canonical(fred(v));
    } else {
        crate::field::lemma_fred_sub_right(0, v);
    }
}

/// Left multiplication distributes over addition.
pub proof fn lemma_pmul_padd(a: Seq<u64>, b: Seq<u64>, c: Seq<u64>)
    requires
        a.len() == b.len(),
        a.len() == c.len(),
        a.len() > 0,
    ensures
        pmul(a, padd(b, c)) == padd(pmul(a, b), pmul(a, c)),
{
    let n = a.len();
    let bc = padd(b, c);
    assert forall|k: int| 0 <= k < n implies #[trigger] pmul(a, bc)[k] == padd(pmul(a, b), pmul(a, c))[k] by {
        lemma_pmul_iprod(a, bc, k);
        lemma_pmul_iprod(a, b, k);
        lemma_pmul_iprod(a, c, k);
        let f0 = |i: int| a[i] * aext(bc, k - i);
        let fb = |i: int| a[i] * aext(b, k - i);
        let fc = |i: int| a[i] * aext(c, k - i);
        let f1 = |i: int| fb(i) + fc(i);
        assert forall|i: int| 0 <= i < n implies fred(#[trigger] f0(i)) == fred(f1(i)) by {
            lemma_aext_padd(b, c, k - i);
            let x = aext(bc, k - i);
            let y = aext(b, k - i) + aext(c, k - i);
            vstd::arithmetic::div_mod::lemma_mul_mod_noop_right(a[i] as int, x, P as int);
            vstd::arithmetic::div_mod::lemma_mul_mod_noop_right(a[i] as int, y, P as int);
            assert(a[i] * y == fb(i) + fc(i)) by (nonlinear_arith)
                requires
                    y == aext(b, k - i) + aext(c, k - i),
                    fb(i) == a[i] * aext(b, k - i),
                    fc(i) == a[i] * aext(c, k - i),
            ;
        }
        lemma_sum_congruent(f0, f1, 0, n);
        lemma_sum_add(fb, fc, 0, n);
        crate::field::lemma_fred_add(iprod(a, b, k), iprod(a, c, k) as int);
        lemma_fred_add_right(fred(iprod(a, b, k)) as int, iprod(a, c, k));
    }
    assert(pmul(a, bc) =~= padd(pmul(a, b), pmul(a, c)));
}

/// Right multiplication distributes over addition.
pub proof fn lemma_padd_pmul(a: Seq<u64>, b: Seq<u64>, c: Seq<u64>)
    requires
        a.len() == b.len(),
        a.len() == c.len(),
        a.len() > 0,
    ensures
        pmul(padd(a, b), c) == padd(pmul(a, c), pmul(b, c)),
{
    lemma_pmul_comm(padd(a, b), c);
    lemma_pmul_padd(c, a, b);
    lemma_pmul_comm(c, a);
    lemma_pmul_comm(c, b);
}

/// Scaling a factor scales the product.
pub proof fn lemma_pscale_pmul(a: Seq<u64>, b: Seq<u64>, w: u64)
    requires
        a.len() == b.len(),
        a.len() > 0,
    ensures
        pmul(pscale(a, w), b) == pscale(pmul(a, b), w),
{
    let n = a.len();
    let aw = pscale(a, w);
    assert forall|k: int| 0 <= k < n implies #[trigger] pmul(aw, b)[k] == pscale(pmul(a, b), w)[k] by {
        lemma_pmul_iprod(aw, b, k);
        lemma_pmul_iprod(a, b, k);
        let f0 = |i: int| aw[i] * aext(b, k - i);
        let f = |i: int| a[i] * aext(b, k - i);
        let f1 = |i: int| (w as int) * f(i);
        assert forall|i: int| 0 <= i < n implies fred(#[trigger] f0(i)) == fred(f1(i)) by {
            let e = aext(b, k - i);
            vstd::arithmetic::div_mod::lemma_mul_mod_noop_left(a[i] * w, e, P as int);
            assert((a[i] * w) * e == (w as int) * (a[i] * e)) by (nonlinear_arith);
        }
        lemma_sum_congruent(f0, f1, 0, n);
        lemma_sum_scale(f, w as int, 0, n);
        vstd::arithmetic::div_mod::lemma_mul_mod_noop_left(iprod(a, b, k), w as int, P as int);
        assert(iprod(a, b, k) * w == (w as int) * iprod(a, b, k)) by (nonlinear_arith);
    }
    assert(pmul(aw, b) =~= pscale(pmul(a, b), w));
}

/// Negation is scaling by -1.
pub proof fn lemma_pneg_is_scale(a: Seq<u64>)
    ensures
        pneg(a) == pscale(a, (P - 1) as u64),
{
    assert forall|i: int| 0 <= i < a.len() implies #[trigger] pneg(a)[i] == pscale(a, (P - 1) as u64)[i] by {
        assert(a[i] * (P - 1) == -(a[i] as int) + (a[i] as int) * P) by (nonlinear_arith);
        vstd::arithmetic::div_mod::lemma_mod_multiples_vanish(a[i] as int, -(a[i] as int), P as int);
    }
    assert(pneg(a) =~= pscale(a, (P - 1) as u64));
}

/// Subtraction is adding the negation.
pub proof fn lemma_psub_is_add_neg(a: Seq<u64>, b: Seq<u64>)
    requires
        a.len() == b.len(),
    ensures
        psub(a, b) == padd(a, pneg(b)),
{
    assert forall|i: int| 0 <= i < a.len() implies #[trigger] psub(a, b)[i] == padd(a, pneg(b))[i] by {
        lemma_fred_add_right(a[i] as int, -(b[i] as int));
    }
    assert(psub(a, b) =~= padd(a, pneg(b)));
}

pub proof fn lemma_padd_comm(a: Seq<u64>, b: Seq<u64>)
    requires
        a.len() == b.len(),
    ensures
        padd(a, b) == padd(b, a),
{
    assert(padd(a, b) =~= padd(b, a));
}

pub proof fn lemma_padd_zero(a: Seq<u64>)
    requires
        canon(a),
    ensures
        padd(a, pzero(a.len())) == a,
        padd(pzero(a.len()), a) == a,
{
    assert forall|i: int| 0 <= i < a.len() implies #[trigger] padd(a, pzero(a.len()))[i] == a[i] by {
        lemma_fred_canonical(a[i]);
    }
    assert forall|i: int| 0 <= i < a.len() implies #[trigger] padd(pzero(a.len()), a)[i] == a[i] by {
        lemma_fred_canonical(a[i]);
    }
    assert(padd(a, pzero(a.len())) =~= a);
    assert(padd(pzero(a.len()), a) =~= a);
}

/// The product with zero is zero.
pub proof fn lemma_pmul_zero(a: Seq<u64>)
    requires
        a.len() > 0,
    ensures
        pmul(a, pzero(a.len())) == pzero(a.len()),
{
    let n = a.len();
    let z = pzero(n);
    assert forall|k: int| 0 <= k < n implies #[trigger] pmul(a, z)[k] == z[k] by {
        lemma_pmul_iprod(a, z, k);
        let f = |i: int| a[i] * aext(z, k - i);
        assert forall|i: int| 0 <= i < n implies #[trigger] f(i) == (|i: int| 0int)(i) by {
            vstd::arithmetic::div_mod::lemma_mod_division_less_than_divisor(k - i, n as int);
        }
        lemma_sum_ext(f, |i: int| 0int, 0, n);
        crate::sums::lemma_sum_zero(0, n);
    }
    assert(pmul(a, z) =~= z);
}

/// A rotated coefficient is, modulo P, the coefficient read through X^N = -1.
pub proof fn lemma_prot_aext(a: Seq<u64>, r: int, i: int)
    requires
        canon(a),
        a.len() > 0,
        0 <= i < a.len(),
    ensures
        fred(crate::poly::prot(a, r)[i] as int) == fred(aext(a, i - r)),
{
    let n = a.len() as int;
    let m = 2 * n;
    let t = (i - r) % m;
    vstd::arithmetic::div_mod::lemma_fundamental_div_mod(i - r, m);
    vstd::arithmetic::div_mod::lemma_mod_division_less_than_divisor(i - r, m);
    let q = (i - r) / m;
    assert(m * q == (2 * q) * n && m * q + n == (2 * q + 1) * n) by (nonlinear_arith)
        requires
            m == 2 * n,
    ;
    if t < n {
        vstd::arithmetic::div_mod::lemma_fundamental_div_mod_converse(i - r, n, 2 * q, t);
        assert((2 * q) % 2 == 0);
        lemma_fred_canonical(a[t]);
        crate::field::lemma_fred_bound(a[t] as int);
    } else {
        vstd::arithmetic::div_mod::lemma_fundamental_div_mod_converse(i - r, n, 2 * q + 1, t - n);
        assert((2 * q + 1) % 2 == 1);
    }
}

/// Rotating a product rotates a factor.
pub proof fn lemma_prot_pmul(a: Seq<u64>, b: Seq<u64>, r: int)
    requires
        canon(a),
        a.len() == b.len(),
        a.len() > 0,
    ensures
        crate::poly::prot(pmul(a, b), r) == pmul(crate::poly::prot(a, r), b),
{
    let n = a.len();
    let ra = crate::poly::prot(a, r);
    let ab = pmul(a, b);
    assert forall|k: int| 0 <= k < n implies #[trigger] crate::poly::prot(ab, r)[k] == pmul(ra, b)[k] by {
        lemma_pmul_iprod(ra, b, k);
        // Left: the rotated product read at k is the product read at k - r.
        lemma_prot_aext(ab, r, k);
        lemma_aext_pmul(a, b, k - r);
        lemma_fred_canonical(crate::poly::prot(ab, r)[k]);
        // Right: read the rotated factor through X^N = -1 and slide the window.
        let f0 = |i: int| ra[i] * aext(b, k - i);
        let f1 = |i: int| aext(a, i - r) * aext(b, k - i);
        assert forall|i: int| 0 <= i < n implies fred(#[trigger] f0(i)) == fred(f1(i)) by {
            lemma_prot_aext(a, r, i);
            vstd::arithmetic::div_mod::lemma_mul_mod_noop_left(ra[i] as int, aext(b, k - i), P as int);
            vstd::arithmetic::div_mod::lemma_mul_mod_noop_left(aext(a, i - r), aext(b, k - i), P as int);
        }
        lemma_sum_congruent(f0, f1, 0, n);
        lemma_window_product(a, b, k - r, r);
        let w = |m: int| aext(a, m - r) * aext(b, k - r + r - m);
        assert forall|i: int| 0 <= i < n implies #[trigger] f1(i) == w(i) by {
            assert(k - r + r - i == k - i);
        }
        lemma_sum_ext(f1, w, 0, n);
    }
    assert(crate::poly::prot(ab, r) =~= pmul(ra, b));
}

/// The unit ring element 1.
pub open spec fn pone(n: nat) -> Seq<u64> {
    Seq::new(n, |t: int| if t == 0 { 1u64 } else { 0u64 })
}

/// Multiplying by 1 changes nothing.
pub proof fn lemma_pmul_one(y: Seq<u64>)
    requires
        canon(y),
        y.len() > 0,
    ensures
        pmul(pone(y.len()), y) == y,
{
    let n = y.len();
    let one = pone(n);
    assert forall|k: int| 0 <= k < n implies #[trigger] pmul(one, y)[k] == y[k] by {
        lemma_pmul_iprod(one, y, k);
        let f = |i: int| one[i] * aext(y, k - i);
        crate::sums::lemma_sum_front(f, 0, n);
        assert forall|i: int| 1 <= i < 1 + (n - 1) implies #[trigger] f(i) == (|i: int| 0int)(i) by {}
        lemma_sum_ext(f, |i: int| 0int, 1, (n - 1) as nat);
        crate::sums::lemma_sum_zero(1, (n - 1) as nat);
        lemma_aext_range(y, k);
        lemma_fred_canonical(y[k]);
    }
    assert(pmul(one, y) =~= y);
}

} // verus!
