use crate::field::{
    fadd, fe_add, fe_mul, fe_neg, fe_sub, fmul, fneg, fred, fsub, lemma_fneg_fneg, lemma_fred_add,
    lemma_fred_add_right, lemma_fred_sub, lemma_fred_sub_right, P,
};
use vstd::prelude::*;

verus! {

/// An element of Z_P[X]/(X^N + 1), as its N coefficients from the constant term up.
pub struct Poly {
    pub coeffs: Vec<u64>,
}

impl View for Poly {
    type V = Seq<u64>;

    open spec fn view(&self) -> Seq<u64> {
        self.coeffs@
    }
}

/// Every coefficient is a canonical field element.
pub open spec fn canon(s: Seq<u64>) -> bool {
    forall|i: int| 0 <= i < s.len() ==> #[trigger] s[i] < P
}

/// A canonical ring element of degree bound `n`.
pub open spec fn ring_elem(s: Seq<u64>, n: nat) -> bool {
    s.len() == n && canon(s)
}

pub open spec fn pzero(n: nat) -> Seq<u64> {
    Seq::new(n, |i: int| 0u64)
}

pub open spec fn padd(a: Seq<u64>, b: Seq<u64>) -> Seq<u64> {
    Seq::new(a.len(), |i: int| fadd(a[i], b[i]))
}

pub open spec fn psub(a: Seq<u64>, b: Seq<u64>) -> Seq<u64> {
    Seq::new(a.len(), |i: int| fsub(a[i], b[i]))
}

pub open spec fn pneg(a: Seq<u64>) -> Seq<u64> {
    Seq::new(a.len(), |i: int| fneg(a[i]))
}

pub open spec fn pscale(a: Seq<u64>, c: u64) -> Seq<u64> {
    Seq::new(a.len(), |i: int| fmul(a[i], c))
}

/// Coefficient `i` of `a * X^s`, for `0 <= s < 2N`: the coefficient that moves there, negated
/// when it wrapped past degree N.
pub open spec fn rot_coeff(a: Seq<u64>, s: int, i: int) -> u64 {
    let t = (i - s) % (2 * a.len() as int);
    if t < a.len() {
        a[t]
    } else {
        fneg(a[t - a.len()])
    }
}

/// Multiplication by the monomial X^s.
pub open spec fn prot(a: Seq<u64>, s: int) -> Seq<u64> {
    Seq::new(a.len(), |i: int| rot_coeff(a, s, i))
}

/// Term `i` of coefficient `k` of the negacyclic product: a_i * b_(k-i), with a sign flip where
/// the index wraps.
pub open spec fn conv_term(a: Seq<u64>, b: Seq<u64>, k: int, i: int) -> int {
    if i <= k {
        a[i] * b[k - i]
    } else {
        -(a[i] * b[a.len() + k - i])
    }
}

/// Sum of the first `m` terms of coefficient `k` of the negacyclic product, over the integers.
pub open spec fn conv_sum(a: Seq<u64>, b: Seq<u64>, k: int, m: nat) -> int
    decreases m,
{
    if m == 0 {
        0
    } else {
        conv_sum(a, b, k, (m - 1) as nat) + conv_term(a, b, k, m - 1)
    }
}

/// The product in Z_P[X]/(X^N + 1): the convolution of the coefficients, reduced mod X^N + 1.
pub open spec fn pmul(a: Seq<u64>, b: Seq<u64>) -> Seq<u64> {
    Seq::new(a.len(), |k: int| fred(conv_sum(a, b, k, a.len())))
}

/// Rotating by `s` and then by `u` is rotating by `s + u`, modulo 2N.
pub proof fn lemma_rotate_compose(a: Seq<u64>, s: int, u: int)
    requires
        canon(a),
        a.len() > 0,
    ensures
        prot(prot(a, s), u) == prot(a, (s + u) % (2 * a.len() as int)),
{
    let n = a.len() as int;
    let m = 2 * n;
    let inner = prot(a, s);
    assert forall|i: int| 0 <= i < n implies #[trigger] prot(inner, u)[i] == prot(a, (s + u) % m)[i] by {
        let t2 = (i - u) % m;
        let t = (i - s - u) % m;
        assert((i - (s + u) % m) % m == t) by {
            vstd::arithmetic::div_mod::lemma_sub_mod_noop_right(i, s + u, m);
        }
        if t2 < n {
            assert((t2 - s) % m == t) by {
                vstd::arithmetic::div_mod::lemma_sub_mod_noop(i - u, s, m);
                vstd::arithmetic::div_mod::lemma_mod_twice(s, m);
                vstd::arithmetic::div_mod::lemma_sub_mod_noop(i - u, s % m, m);
                vstd::arithmetic::div_mod::lemma_sub_mod_noop_right(t2, s, m);
            }
        } else {
            let t1 = (t2 - n - s) % m;
            assert(t1 == (t + n) % m) by {
                vstd::arithmetic::div_mod::lemma_sub_mod_noop(i - u, n + s, m);
                vstd::arithmetic::div_mod::lemma_sub_mod_noop_right(t2, n + s, m);
                vstd::arithmetic::div_mod::lemma_mod_add_multiples_vanish(t - n, m);
                vstd::arithmetic::div_mod::lemma_add_mod_noop(i - u - n - s, m, m);
                vstd::arithmetic::div_mod::lemma_sub_mod_noop(i - u - s, n, m);
                vstd::arithmetic::div_mod::lemma_add_mod_noop(i - u - s, n, m);
                vstd::arithmetic::div_mod::lemma_mod_twice(n, m);
                vstd::arithmetic::div_mod::lemma_small_mod(n as nat, m as nat);
            }
            if t < n {
                assert((t + n) % m == t + n) by {
                    vstd::arithmetic::div_mod::lemma_small_mod((t + n) as nat, m as nat);
                }
                lemma_fneg_fneg(a[t]);
            } else {
                assert((t + n) % m == t - n) by {
                    vstd::arithmetic::div_mod::lemma_mod_sub_multiples_vanish(t + n, m);
                    vstd::arithmetic::div_mod::lemma_small_mod((t - n) as nat, m as nat);
                }
            }
        }
    }
    assert(prot(inner, u) =~= prot(a, (s + u) % m));
}

/// Rotating by N negates: X^N = -1.
pub proof fn lemma_rotate_half_turn(a: Seq<u64>)
    requires
        canon(a),
        a.len() > 0,
    ensures
        prot(a, a.len() as int) == pneg(a),
{
    let n = a.len() as int;
    assert forall|i: int| 0 <= i < n implies #[trigger] prot(a, n)[i] == pneg(a)[i] by {
        assert((i - n) % (2 * n) == i + n) by {
            vstd::arithmetic::div_mod::lemma_mod_add_multiples_vanish(i - n, 2 * n);
            vstd::arithmetic::div_mod::lemma_small_mod((i + n) as nat, (2 * n) as nat);
        }
    }
    assert(prot(a, n) =~= pneg(a));
}

/// Rotating by 0 changes nothing.
pub proof fn lemma_rotate_zero(a: Seq<u64>)
    requires
        a.len() > 0,
    ensures
        prot(a, 0) == a,
{
    let n = a.len() as int;
    assert forall|i: int| 0 <= i < n implies #[trigger] prot(a, 0)[i] == a[i] by {
        vstd::arithmetic::div_mod::lemma_small_mod(i as nat, (2 * n) as nat);
    }
    assert(prot(a, 0) =~= a);
}

/// Rotating by `s` and then by `2N - s` gives the element back; rotating by `N - s` instead
/// gives its negation, since X^N = -1.
pub proof fn lemma_rotate_round_trip(a: Seq<u64>, s: int)
    requires
        canon(a),
        a.len() > 0,
        0 <= s < a.len(),
    ensures
        prot(prot(a, s), 2 * a.len() - s) == a,
        prot(prot(a, s), a.len() - s) == pneg(a),
{
    let n = a.len() as int;
    lemma_rotate_compose(a, s, 2 * n - s);
    vstd::arithmetic::div_mod::lemma_mod_self_0(2 * n);
    lemma_rotate_zero(a);
    lemma_rotate_compose(a, s, n - s);
    vstd::arithmetic::div_mod::lemma_small_mod(n as nat, (2 * n) as nat);
    lemma_rotate_half_turn(a);
}

impl Poly {
    pub fn zero(n: usize) -> (r: Poly)
        ensures
            r@ == pzero(n as nat),
            ring_elem(r@, n as nat),
    {
        let mut v: Vec<u64> = Vec::new();
        let mut i: usize = 0;
        while i < n
            invariant
                i <= n,
                v@ == pzero(i as nat),
            decreases n - i,
        {
            v.push(0);
            i = i + 1;
            assert(v@ =~= pzero(i as nat));
        }
        Poly { coeffs: v }
    }

    /// A copy of the ring element.
    pub fn copy(&self) -> (r: Poly)
        ensures
            r@ == self@,
    {
        Poly { coeffs: self.coeffs.clone() }
    }

    pub fn add(&self, other: &Poly) -> (r: Poly)
        requires
            canon(self@),
            canon(other@),
            self@.len() == other@.len(),
        ensures
            r@ == padd(self@, other@),
            canon(r@),
    {
        let n = self.coeffs.len();
        let mut v: Vec<u64> = Vec::new();
        let mut i: usize = 0;
        while i < n
            invariant
                n == self@.len(),
                n == other@.len(),
                canon(self@),
                canon(other@),
                i <= n,
                v@ == padd(self@, other@).take(i as int),
                canon(v@),
            decreases n - i,
        {
            let c = fe_add(self.coeffs[i], other.coeffs[i]);
            v.push(c);
            i = i + 1;
            assert(v@ =~= padd(self@, other@).take(i as int));
        }
        assert(v@ =~= padd(self@, other@));
        Poly { coeffs: v }
    }

    pub fn sub(&self, other: &Poly) -> (r: Poly)
        requires
            canon(self@),
            canon(other@),
            self@.len() == other@.len(),
        ensures
            r@ == psub(self@, other@),
            canon(r@),
    {
        let n = self.coeffs.len();
        let mut v: Vec<u64> = Vec::new();
        let mut i: usize = 0;
        while i < n
            invariant
                n == self@.len(),
                n == other@.len(),
                canon(self@),
                canon(other@),
                i <= n,
                v@ == psub(self@, other@).take(i as int),
                canon(v@),
            decreases n - i,
        {
            let c = fe_sub(self.coeffs[i], other.coeffs[i]);
            v.push(c);
            i = i + 1;
            assert(v@ =~= psub(self@, other@).take(i as int));
        }
        assert(v@ =~= psub(self@, other@));
        Poly { coeffs: v }
    }

    pub fn neg(&self) -> (r: Poly)
        requires
            canon(self@),
        ensures
            r@ == pneg(self@),
            canon(r@),
    {
        let n = self.coeffs.len();
        let mut v: Vec<u64> = Vec::new();
        let mut i: usize = 0;
        while i < n
            invariant
                n == self@.len(),
                canon(self@),
                i <= n,
                v@ == pneg(self@).take(i as int),
                canon(v@),
            decreases n - i,
        {
            let c = fe_neg(self.coeffs[i]);
            v.push(c);
            i = i + 1;
            assert(v@ =~= pneg(self@).take(i as int));
        }
        assert(v@ =~= pneg(self@));
        Poly { coeffs: v }
    }

    pub fn scalar_mul(&self, c: u64) -> (r: Poly)
        requires
            canon(self@),
            c < P,
        ensures
            r@ == pscale(self@, c),
            canon(r@),
    {
        let n = self.coeffs.len();
        let mut v: Vec<u64> = Vec::new();
        let mut i: usize = 0;
        while i < n
            invariant
                n == self@.len(),
                canon(self@),
                c < P,
                i <= n,
                v@ == pscale(self@, c).take(i as int),
                canon(v@),
            decreases n - i,
        {
            let x = fe_mul(self.coeffs[i], c);
            v.push(x);
            i = i + 1;
            assert(v@ =~= pscale(self@, c).take(i as int));
        }
        assert(v@ =~= pscale(self@, c));
        Poly { coeffs: v }
    }

    /// Multiplication by X^s, for `0 <= s < 2N`.
    pub fn rotate(&self, s: usize) -> (r: Poly)
        requires
            canon(self@),
            0 < self@.len() <= 0x1000_0000,
            s < 2 * self@.len(),
        ensures
            r@ == prot(self@, s as int),
            canon(r@),
    {
        let n = self.coeffs.len();
        let m = 2 * n;
        let mut v: Vec<u64> = Vec::new();
        let mut i: usize = 0;
        while i < n
            invariant
                n == self@.len(),
                0 < n <= 0x1000_0000,
                m == 2 * n,
                s < m,
                canon(self@),
                i <= n,
                v@ == prot(self@, s as int).take(i as int),
                canon(v@),
            decreases n - i,
        {
            let t = (i + m - s) % m;
            proof {
                vstd::arithmetic::div_mod::lemma_mod_add_multiples_vanish(i - s, m as int);
                assert(t as int == (i - s) % (m as int));
            }
            let c = if t < n {
                self.coeffs[t]
            } else {
                fe_neg(self.coeffs[t - n])
            };
            v.push(c);
            i = i + 1;
            assert(v@ =~= prot(self@, s as int).take(i as int));
        }
        assert(v@ =~= prot(self@, s as int));
        Poly { coeffs: v }
    }

    /// The product in Z_P[X]/(X^N + 1), computed coefficient by coefficient.
    pub fn mul(&self, other: &Poly) -> (r: Poly)
        requires
            canon(self@),
            canon(other@),
            self@.len() == other@.len(),
        ensures
            r@ == pmul(self@, other@),
            canon(r@),
    {
        let n = self.coeffs.len();
        let ghost a = self@;
        let ghost b = other@;
        let mut v: Vec<u64> = Vec::new();
        let mut k: usize = 0;
        while k < n
            invariant
                n == a.len(),
                n == b.len(),
                a == self@,
                b == other@,
                canon(a),
                canon(b),
                k <= n,
                v@ == pmul(a, b).take(k as int),
                canon(v@),
            decreases n - k,
        {
            let mut acc: u64 = 0;
            let mut i: usize = 0;
            while i < n
                invariant
                    n == a.len(),
                    n == b.len(),
                    a == self@,
                    b == other@,
                    canon(a),
                    canon(b),
                    k < n,
                    i <= n,
                    acc < P,
                    acc == fred(conv_sum(a, b, k as int, i as nat)),
                decreases n - i,
            {
                if i <= k {
                    let prod = fe_mul(self.coeffs[i], other.coeffs[k - i]);
                    proof {
                        lemma_fred_add(conv_sum(a, b, k as int, i as nat), fmul(a[i as int], b[k - i]) as int);
                        lemma_fred_add_right(conv_sum(a, b, k as int, i as nat), a[i as int] * b[k - i]);
                    }
                    acc = fe_add(acc, prod);
                } else {
                    let prod = fe_mul(self.coeffs[i], other.coeffs[n - i + k]);
                    proof {
                        lemma_fred_sub(conv_sum(a, b, k as int, i as nat), fmul(a[i as int], b[n + k - i]) as int);
                        lemma_fred_sub_right(conv_sum(a, b, k as int, i as nat), a[i as int] * b[n + k - i]);
                    }
                    acc = fe_sub(acc, prod);
                }
                i = i + 1;
            }
            v.push(acc);
            k = k + 1;
            assert(v@ =~= pmul(a, b).take(k as int));
        }
        assert(v@ =~= pmul(a, b));
        Poly { coeffs: v }
    }
}

} // verus!
