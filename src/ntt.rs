use crate::field::{fe_add, fe_mul, fmul, fred, lemma_fred_add, lemma_fred_add_right, P};
use crate::params::MAX_RING_DIM;
use crate::poly::{canon, pmul, Poly};
use crate::ring::aext;
use crate::roots::{is_pow2, lemma_root_table_for, power_table, root_for, sq};
use crate::sums::sum;
use vstd::arithmetic::power2::{lemma2_to64, lemma_pow2_strictly_increases, lemma_pow2_unfold, pow2};
use vstd::prelude::*;

verus! {

/// A root of unity of order 2^32 in the field.
pub const TWO_ADIC_ROOT: u64 = 7277203076849721926;

/// x^e in the field.
pub open spec fn fpow(x: u64, e: nat) -> u64
    decreases e,
{
    if e == 0 {
        1
    } else {
        fmul(fpow(x, (e - 1) as nat), x)
    }
}

/// Sum over j < n of pw[((2j + 1) d) mod 2n]: the orthogonality sum of exponent `d`.
pub open spec fn orth_sum(pw: Seq<u64>, n: nat, d: int) -> int {
    sum(|j: int| pw[((2 * j + 1) * d) % (2 * n as int)] as int, 0, n)
}

/// The powers of a primitive 2n-th root of unity ψ, with what the transform needs of them:
/// ψ^0 = 1, ψ^n = -1, the powers multiply as exponents add (modulo 2n), and the odd-step
/// sums over every exponent other than 0 and n vanish.
pub open spec fn root_table(pw: Seq<u64>, n: nat) -> bool {
    &&& n > 0
    &&& pw.len() == 2 * n
    &&& canon(pw)
    &&& pw[0] == 1
    &&& pw[n as int] == P - 1
    &&& forall|s: int, t: int|
        0 <= s < 2 * n && 0 <= t < 2 * n ==> #[trigger] pw[(s + t) % (2 * n as int)] == fmul(#[trigger] pw[s], pw[t])
    &&& forall|d: int| 1 <= d < 2 * n && d != n ==> fred(#[trigger] orth_sum(pw, n, d)) == 0
}

/// The inverse of n when n divides P - 1: P - (P - 1) / n.
pub open spec fn n_inverse(n: nat) -> u64 {
    (P - (P - 1) / (n as int)) as u64
}

/// Precomputed powers of a 2n-th root of unity and the inverse of n, for the negacyclic
/// number-theoretic transform of length n.
pub struct NttTable {
    pub n: usize,
    pub powers: Vec<u64>,
    pub n_inv: u64,
}

impl NttTable {
    pub open spec fn wf(&self) -> bool {
        &&& root_table(self.powers@, self.n as nat)
        &&& self.n <= MAX_RING_DIM
        &&& self.n_inv < P
        &&& fmul(self.n as u64, self.n_inv) == 1
    }

    /// The table for the root `root` and length `n`, when `root` has what the transform needs
    /// (see `root_table`) and n has an inverse in the field.
    pub fn new(root: u64, n: usize) -> (r: Option<NttTable>)
        requires
            root < P,
        ensures
            r is Some <==> (0 < n <= MAX_RING_DIM && root_table(Seq::new((2 * n) as nat, |t: int| fpow(root, t as nat)), n as nat)
                && fmul(n as u64, n_inverse(n as nat)) == 1),
            r matches Some(t) ==> t.wf() && t.n == n && t.powers@ == Seq::new((2 * n) as nat, |e: int| fpow(root, e as nat)),
    {
        if n == 0 || n > MAX_RING_DIM {
            return None;
        }
        let m = 2 * n;
        let ghost spec_pw = Seq::new(m as nat, |t: int| fpow(root, t as nat));
        let mut pw: Vec<u64> = Vec::new();
        let mut x: u64 = 1;
        let mut t: usize = 0;
        while t < m
            invariant
                m == 2 * n,
                n <= MAX_RING_DIM,
                root < P,
                t <= m,
                x == fpow(root, t as nat),
                x < P,
                spec_pw == Seq::new(m as nat, |e: int| fpow(root, e as nat)),
                pw@ == spec_pw.take(t as int),
            decreases m - t,
        {
            pw.push(x);
            x = fe_mul(x, root);
            t = t + 1;
            assert(pw@ =~= spec_pw.take(t as int));
        }
        assert(pw@ =~= spec_pw);
        assert(canon(pw@)) by {
            assert forall|i: int| 0 <= i < pw@.len() implies #[trigger] pw@[i] < P by {
                if i > 0 {
                    assert(pw@[i] == fmul(fpow(root, (i - 1) as nat), root));
                }
            }
        }
        proof {
            let q = (P - 1) / (n as int);
            vstd::arithmetic::div_mod::lemma_fundamental_div_mod((P - 1) as int, n as int);
            vstd::arithmetic::div_mod::lemma_mod_division_less_than_divisor((P - 1) as int, n as int);
            vstd::arithmetic::div_mod::lemma_div_pos_is_pos((P - 1) as int, n as int);
            assert(q >= 1) by (nonlinear_arith)
                requires
                    (P - 1) as int == (n as int) * q + (P - 1) as int % (n as int),
                    (P - 1) as int % (n as int) < n,
                    n <= MAX_RING_DIM,
                    q >= 0,
            ;
        }
        let inv = P - (P - 1) / (n as u64);
        let ok = pw[0] == 1 && pw[n] == P - 1 && Self::products_ok(&pw, n) && Self::orthogonal(&pw, n);
        if !ok {
            return None;
        }
        if fe_mul(n as u64, inv) != 1 {
            return None;
        }
        Some(NttTable { n, powers: pw, n_inv: inv })
    }

    fn products_ok(pw: &Vec<u64>, n: usize) -> (r: bool)
        requires
            0 < n <= MAX_RING_DIM,
            pw@.len() == 2 * n,
            canon(pw@),
        ensures
            r == forall|s: int, t: int|
                0 <= s < 2 * n && 0 <= t < 2 * n ==> #[trigger] pw@[(s + t) % (2 * n as int)] == fmul(#[trigger] pw@[s], pw@[t]),
    {
        let m = 2 * n;
        let mut s: usize = 0;
        while s < m
            invariant
                m == 2 * n,
                0 < n <= MAX_RING_DIM,
                pw@.len() == m,
                canon(pw@),
                s <= m,
                forall|a: int, b: int| 0 <= a < s && 0 <= b < m ==> #[trigger] pw@[(a + b) % (m as int)] == fmul(#[trigger] pw@[a], pw@[b]),
            decreases m - s,
        {
            let mut t: usize = 0;
            while t < m
                invariant
                    m == 2 * n,
                    0 < n <= MAX_RING_DIM,
                    pw@.len() == m,
                    canon(pw@),
                    s < m,
                    t <= m,
                    forall|a: int, b: int| 0 <= a < s && 0 <= b < m ==> #[trigger] pw@[(a + b) % (m as int)] == fmul(#[trigger] pw@[a], pw@[b]),
                    forall|b: int| 0 <= b < t ==> #[trigger] pw@[(s + b) % (m as int)] == fmul(pw@[s as int], pw@[b]),
                decreases m - t,
            {
                if pw[(s + t) % m] != fe_mul(pw[s], pw[t]) {
                    return false;
                }
                t = t + 1;
            }
            s = s + 1;
        }
        true
    }

    fn orthogonal(pw: &Vec<u64>, n: usize) -> (r: bool)
        requires
            0 < n <= MAX_RING_DIM,
            pw@.len() == 2 * n,
            canon(pw@),
        ensures
            r == forall|d: int| 1 <= d < 2 * n && d != n ==> fred(#[trigger] orth_sum(pw@, n as nat, d)) == 0,
    {
        let m = 2 * n;
        let mut d: usize = 1;
        while d < m
            invariant
                m == 2 * n,
                0 < n <= MAX_RING_DIM,
                pw@.len() == m,
                canon(pw@),
                1 <= d <= m,
                forall|e: int| 1 <= e < d && e != n ==> fred(#[trigger] orth_sum(pw@, n as nat, e)) == 0,
            decreases m - d,
        {
            if d != n {
                let mut acc: u64 = 0;
                let mut j: usize = 0;
                while j < n
                    invariant
                        m == 2 * n,
                        0 < n <= MAX_RING_DIM,
                        pw@.len() == m,
                        canon(pw@),
                        1 <= d < m,
                        j <= n,
                        acc < P,
                        acc == fred(sum(|i: int| pw@[((2 * i + 1) * d) % (2 * n as int)] as int, 0, j as nat)),
                    decreases n - j,
                {
                    assert((2 * j + 1) * d < 4 * MAX_RING_DIM * MAX_RING_DIM) by (nonlinear_arith)
                        requires
                            j < n,
                            d < 2 * n,
                            n <= MAX_RING_DIM,
                    ;
                    let prod: u64 = (2 * j as u64 + 1) * d as u64;
                    let idx = (prod % m as u64) as usize;
                    let v = pw[idx];
                    proof {
                        let f = |i: int| pw@[((2 * i + 1) * d) % (2 * n as int)] as int;
                        lemma_fred_add(sum(f, 0, j as nat), v as int);
                    }
                    acc = fe_add(acc, v);
                    j = j + 1;
                }
                if acc != 0 {
                    proof {
                        let f = |i: int| pw@[((2 * i + 1) * d) % (2 * n as int)] as int;
                        crate::sums::lemma_sum_ext(f, |j: int| pw@[((2 * j + 1) * (d as int)) % (2 * (n as nat) as int)] as int, 0, n as nat);
                        assert(fred(orth_sum(pw@, n as nat, d as int)) != 0);
                    }
                    return false;
                }
                proof {
                    let f = |i: int| pw@[((2 * i + 1) * d) % (2 * n as int)] as int;
                    crate::sums::lemma_sum_ext(f, |j: int| pw@[((2 * j + 1) * (d as int)) % (2 * (n as nat) as int)] as int, 0, n as nat);
                }
            }
            d = d + 1;
        }
        true
    }
}

impl NttTable {
    /// The table for length `n` from the field's 2^32-th root of unity
    /// 7277203076849721926, squared down to a 2n-th root. There is one exactly when n is a
    /// power of two no larger than `MAX_RING_DIM`.
    pub fn for_dim(n: usize) -> (r: Option<NttTable>)
        ensures
            r is Some <==> (0 < n <= MAX_RING_DIM && is_pow2(n as nat)),
            r matches Some(t) ==> t.wf() && t.n == n,
    {
        if n == 0 || n > MAX_RING_DIM {
            return None;
        }
        proof {
            lemma2_to64();
        }
        let target: u64 = 2 * n as u64;
        let mut order: u64 = 0x1_0000_0000;
        let mut x: u64 = TWO_ADIC_ROOT;
        let ghost mut e: nat = 32;
        while order > target
            invariant
                0 < n <= MAX_RING_DIM,
                target == 2 * n,
                order == pow2(e),
                e <= 32,
                x == sq(TWO_ADIC_ROOT, (32 - e) as nat),
                x < P,
                2 * order > target,
            decreases order,
        {
            proof {
                if e == 0 {
                    lemma2_to64();
                }
                lemma_pow2_unfold(e);
                assert(32 - (e - 1) as nat == (32 - e) as nat + 1);
            }
            x = fe_mul(x, x);
            order = order / 2;
            proof {
                e = (e - 1) as nat;
            }
        }
        if order != target {
            proof {
                if is_pow2(n as nat) {
                    let k = choose|k: nat| pow2(k) == n as nat;
                    lemma_pow2_unfold(k + 1);
                    lemma_pow2_unfold(e + 1);
                    if e < k + 1 {
                        if e + 1 < k + 1 {
                            lemma_pow2_strictly_increases(e + 1, k + 1);
                        }
                    } else if e > k + 1 {
                        lemma_pow2_strictly_increases(k + 1, e);
                    }
                }
            }
            return None;
        }
        proof {
            let k = (e - 1) as nat;
            lemma_pow2_unfold(e);
            assert(pow2(k) == n);
            if k > 20 {
                lemma_pow2_strictly_increases(20, k);
            }
            assert((32 - e) as nat == (31 - k) as nat);
            lemma_root_table_for(k);
            assert(power_table(root_for(k), pow2(k)) =~= Seq::new((2 * n) as nat, |t: int| fpow(x, t as nat)));
        }
        NttTable::new(x, n)
    }

    /// The transform of `a` (see `fwd`).
    pub fn forward(&self, a: &Poly) -> (r: Poly)
        requires
            self.wf(),
            a@.len() == self.n,
            canon(a@),
        ensures
            r@ == fwd(a@, self.powers@, self.n as nat),
            canon(r@),
    {
        let n = self.n;
        let m: u64 = 2 * n as u64;
        let ghost pw = self.powers@;
        let ghost spec_r = fwd(a@, pw, n as nat);
        let mut out: Vec<u64> = Vec::new();
        let mut j: usize = 0;
        while j < n
            invariant
                self.wf(),
                n == self.n,
                m == 2 * n,
                pw == self.powers@,
                a@.len() == n,
                canon(a@),
                spec_r == fwd(a@, pw, n as nat),
                j <= n,
                out@ == spec_r.take(j as int),
                canon(out@),
            decreases n - j,
        {
            let ghost f = |i: int| a@[i] * pw[(i * (2 * j + 1)) % (2 * n as int)];
            let mut acc: u64 = 0;
            let mut i: usize = 0;
            while i < n
                invariant
                    self.wf(),
                    n == self.n,
                    m == 2 * n,
                    pw == self.powers@,
                    a@.len() == n,
                    canon(a@),
                    j < n,
                    i <= n,
                    acc < P,
                    acc == fred(sum(f, 0, i as nat)),
                    f == (|i: int| a@[i] * pw[(i * (2 * j + 1)) % (2 * n as int)]),
                decreases n - i,
            {
                assert((i as int) * (2 * (j as int) + 1) < 0x1_0000_0000_0000) by (nonlinear_arith)
                    requires
                        i < n,
                        j < n,
                        n <= MAX_RING_DIM,
                ;
                let e = ((i as u64) * (2 * j as u64 + 1)) % m;
                let prod = fe_mul(a.coeffs[i], self.powers[e as usize]);
                proof {
                    crate::field::lemma_fred_add(sum(f, 0, i as nat), fmul(a@[i as int], pw[e as int]) as int);
                    lemma_fred_add_right(sum(f, 0, i as nat), a@[i as int] * pw[e as int]);
                }
                acc = fe_add(acc, prod);
                i = i + 1;
            }
            out.push(acc);
            j = j + 1;
            assert(out@ =~= spec_r.take(j as int));
        }
        assert(out@ =~= spec_r);
        Poly { coeffs: out }
    }

    /// The inverse transform of `ae` (see `inv`).
    pub fn inverse(&self, ae: &Poly) -> (r: Poly)
        requires
            self.wf(),
            ae@.len() == self.n,
            canon(ae@),
        ensures
            r@ == inv(ae@, self.powers@, self.n as nat, self.n_inv),
            canon(r@),
    {
        let n = self.n;
        let m: u64 = 2 * n as u64;
        let ghost pw = self.powers@;
        let ghost spec_r = inv(ae@, pw, n as nat, self.n_inv);
        let mut out: Vec<u64> = Vec::new();
        let mut k: usize = 0;
        while k < n
            invariant
                self.wf(),
                n == self.n,
                m == 2 * n,
                pw == self.powers@,
                ae@.len() == n,
                canon(ae@),
                spec_r == inv(ae@, pw, n as nat, self.n_inv),
                k <= n,
                out@ == spec_r.take(k as int),
                canon(out@),
            decreases n - k,
        {
            let ghost f = |j: int| ae@[j] * pw[(-(k * (2 * j + 1))) % (2 * n as int)];
            let mut acc: u64 = 0;
            let mut j: usize = 0;
            while j < n
                invariant
                    self.wf(),
                    n == self.n,
                    m == 2 * n,
                    pw == self.powers@,
                    ae@.len() == n,
                    canon(ae@),
                    k < n,
                    j <= n,
                    acc < P,
                    acc == fred(sum(f, 0, j as nat)),
                    f == (|j: int| ae@[j] * pw[(-(k * (2 * j + 1))) % (2 * n as int)]),
                decreases n - j,
            {
                assert((k as int) * (2 * (j as int) + 1) < 0x1_0000_0000_0000) by (nonlinear_arith)
                    requires
                        k < n,
                        j < n,
                        n <= MAX_RING_DIM,
                ;
                let x = (k as u64) * (2 * j as u64 + 1);
                let e = (m - x % m) % m;
                proof {
                    let xi = x as int;
                    let mi = m as int;
                    vstd::arithmetic::div_mod::lemma_fundamental_div_mod(xi, mi);
                    vstd::arithmetic::div_mod::lemma_mod_division_less_than_divisor(xi, mi);
                    let q = xi / mi;
                    let r0 = xi % mi;
                    assert(-xi == (-q) * mi - r0 && -xi == (-q - 1) * mi + (mi - r0)) by (nonlinear_arith)
                        requires
                            xi == mi * q + r0,
                    ;
                    if r0 == 0 {
                        vstd::arithmetic::div_mod::lemma_fundamental_div_mod_converse(-xi, mi, -q, 0);
                        vstd::arithmetic::div_mod::lemma_mod_self_0(mi);
                    } else {
                        vstd::arithmetic::div_mod::lemma_fundamental_div_mod_converse(-xi, mi, -q - 1, mi - r0);
                        vstd::arithmetic::div_mod::lemma_small_mod((mi - r0) as nat, mi as nat);
                    }
                    assert(e as int == (-(k * (2 * j + 1))) % (2 * n as int));
                }
                let prod = fe_mul(ae.coeffs[j], self.powers[e as usize]);
                proof {
                    crate::field::lemma_fred_add(sum(f, 0, j as nat), fmul(ae@[j as int], pw[e as int]) as int);
                    lemma_fred_add_right(sum(f, 0, j as nat), ae@[j as int] * pw[e as int]);
                }
                acc = fe_add(acc, prod);
                j = j + 1;
            }
            out.push(fe_mul(self.n_inv, acc));
            k = k + 1;
            assert(out@ =~= spec_r.take(k as int));
        }
        assert(out@ =~= spec_r);
        Poly { coeffs: out }
    }

    /// The product in Z_P[X]/(X^n + 1), through the transform.
    pub fn mul(&self, a: &Poly, b: &Poly) -> (r: Poly)
        requires
            self.wf(),
            a@.len() == self.n,
            b@.len() == self.n,
            canon(a@),
            canon(b@),
        ensures
            r@ == pmul(a@, b@),
    {
        let fa = self.forward(a);
        let fb = self.forward(b);
        let mut pt: Vec<u64> = Vec::new();
        let mut j: usize = 0;
        while j < self.n
            invariant
                fa@.len() == self.n,
                fb@.len() == self.n,
                canon(fa@),
                canon(fb@),
                j <= self.n,
                pt@ == Seq::new(self.n as nat, |i: int| fmul(fa@[i], fb@[i])).take(j as int),
                canon(pt@),
            decreases self.n - j,
        {
            pt.push(fe_mul(fa.coeffs[j], fb.coeffs[j]));
            j = j + 1;
            assert(pt@ =~= Seq::new(self.n as nat, |i: int| fmul(fa@[i], fb@[i])).take(j as int));
        }
        assert(pt@ =~= Seq::new(self.n as nat, |i: int| fmul(fa@[i], fb@[i])));
        let r = self.inverse(&Poly { coeffs: pt });
        proof {
            lemma_ntt_product(a@, b@, self.powers@, self.n as nat, self.n_inv);
        }
        r
    }
}

/// The transform: coefficient `j` is the sum of a_i ψ^(i (2j + 1)), the evaluation of `a` at
/// the odd power ψ^(2j + 1), a root of X^n + 1.
pub open spec fn fwd(a: Seq<u64>, pw: Seq<u64>, n: nat) -> Seq<u64> {
    Seq::new(n, |j: int| fred(sum(|i: int| a[i] * pw[(i * (2 * j + 1)) % (2 * n as int)], 0, n)))
}

/// The inverse transform: coefficient `k` is n^-1 times the sum of A_j ψ^(-k (2j + 1)).
pub open spec fn inv(ae: Seq<u64>, pw: Seq<u64>, n: nat, n_inv: u64) -> Seq<u64> {
    Seq::new(
        n,
        |k: int| fmul(n_inv, fred(sum(|j: int| ae[j] * pw[(-(k * (2 * j + 1))) % (2 * n as int)], 0, n))),
    )
}

/// Multiplication through the transform: transform both factors, multiply pointwise, and
/// transform back.
pub open spec fn ntt_product(a: Seq<u64>, b: Seq<u64>, pw: Seq<u64>, n: nat, n_inv: u64) -> Seq<u64> {
    let fa = fwd(a, pw, n);
    let fb = fwd(b, pw, n);
    inv(Seq::new(n, |j: int| fmul(fa[j], fb[j])), pw, n, n_inv)
}

/// A power read at any exponent agrees, modulo P, with the first half of the table read
/// through ψ^n = -1.
proof fn lemma_pw_aext(pw: Seq<u64>, n: nat, x: int)
    requires
        root_table(pw, n),
    ensures
        fred(pw[x % (2 * n as int)] as int) == fred(aext(pw.take(n as int), x)),
{
    let m = 2 * n as int;
    let l = pw.take(n as int);
    let r = x % m;
    vstd::arithmetic::div_mod::lemma_fundamental_div_mod(x, m);
    vstd::arithmetic::div_mod::lemma_mod_division_less_than_divisor(x, m);
    let q = x / m;
    assert(m * q == (2 * q) * n && m * q + n == (2 * q + 1) * n) by (nonlinear_arith)
        requires
            m == 2 * n,
    ;
    if r < n {
        vstd::arithmetic::div_mod::lemma_fundamental_div_mod_converse(x, n as int, 2 * q, r);
        assert((2 * q) % 2 == 0);
    } else {
        vstd::arithmetic::div_mod::lemma_fundamental_div_mod_converse(x, n as int, 2 * q + 1, r - n);
        assert((2 * q + 1) % 2 == 1);
        let s0 = r - n;
        assert(pw[(s0 + n) % m] == fmul(pw[s0], pw[n as int]));
        vstd::arithmetic::div_mod::lemma_small_mod(r as nat, m as nat);
        assert(pw[s0] * (P - 1) == -(pw[s0] as int) + (pw[s0] as int) * P) by (nonlinear_arith);
        vstd::arithmetic::div_mod::lemma_mod_multiples_vanish(pw[s0] as int, -(pw[s0] as int), P as int);
    }
    crate::field::lemma_fred_canonical(pw[r]);
}

/// Reading the half table through ψ^n = -1 multiplies as exponents add, modulo P.
proof fn lemma_e_mul(pw: Seq<u64>, n: nat, x: int, y: int)
    requires
        root_table(pw, n),
    ensures
        fred(aext(pw.take(n as int), x) * aext(pw.take(n as int), y)) == fred(aext(pw.take(n as int), x + y)),
{
    let m = 2 * n as int;
    let l = pw.take(n as int);
    let s = x % m;
    let t = y % m;
    vstd::arithmetic::div_mod::lemma_mod_division_less_than_divisor(x, m);
    vstd::arithmetic::div_mod::lemma_mod_division_less_than_divisor(y, m);
    assert(pw[(s + t) % m] == fmul(pw[s], pw[t]));
    vstd::arithmetic::div_mod::lemma_add_mod_noop(x, y, m);
    lemma_pw_aext(pw, n, x);
    lemma_pw_aext(pw, n, y);
    lemma_pw_aext(pw, n, x + y);
    let ax = aext(l, x);
    let ay = aext(l, y);
    vstd::arithmetic::div_mod::lemma_mul_mod_noop_general(ax, ay, P as int);
    vstd::arithmetic::div_mod::lemma_mul_mod_noop_general(pw[s] as int, pw[t] as int, P as int);
    crate::field::lemma_fred_canonical(pw[s]);
    crate::field::lemma_fred_canonical(pw[t]);
}

/// Reading through ψ^n = -1 repeats every 2n exponents.
proof fn lemma_aext_period(l: Seq<u64>, x: int, q: nat)
    requires
        l.len() > 0,
    ensures
        aext(l, x + 2 * (l.len() as int) * q) == aext(l, x),
    decreases q,
{
    if q > 0 {
        let n = l.len() as int;
        lemma_aext_period(l, x, (q - 1) as nat);
        let y = x + 2 * n * (q - 1);
        crate::ring::lemma_aext_anti(l, y);
        crate::ring::lemma_aext_anti(l, y + n);
        assert(y + n + n == x + 2 * n * q) by (nonlinear_arith)
            requires
                y == x + 2 * n * (q - 1),
        ;
    } else {
        assert(x + 2 * (l.len() as int) * q == x) by (nonlinear_arith)
            requires
                q == 0,
        ;
    }
}

/// The transform's coefficient `j`, read through the half table.
proof fn lemma_fwd_aext(a: Seq<u64>, pw: Seq<u64>, n: nat, j: int)
    requires
        root_table(pw, n),
        a.len() == n,
        0 <= j < n,
    ensures
        fwd(a, pw, n)[j] == fred(sum(|i: int| a[i] * aext(pw.take(n as int), i * (2 * j + 1)), 0, n)),
{
    let m = 2 * n as int;
    let f0 = |i: int| a[i] * pw[(i * (2 * j + 1)) % m];
    let f1 = |i: int| a[i] * aext(pw.take(n as int), i * (2 * j + 1));
    assert forall|i: int| 0 <= i < n implies fred(#[trigger] f0(i)) == fred(f1(i)) by {
        lemma_pw_aext(pw, n, i * (2 * j + 1));
        vstd::arithmetic::div_mod::lemma_mul_mod_noop_right(a[i] as int, pw[(i * (2 * j + 1)) % m] as int, P as int);
        vstd::arithmetic::div_mod::lemma_mul_mod_noop_right(a[i] as int, aext(pw.take(n as int), i * (2 * j + 1)), P as int);
    }
    crate::sums::lemma_sum_congruent(f0, f1, 0, n);
}

/// Sliding the window of a negacyclic sum: the sum over k of b(k - i) e(k) is the sum over l of
/// b(l) e(l + i).
proof fn lemma_inner_window(b: Seq<u64>, pw: Seq<u64>, n: nat, i: int, j: int)
    requires
        root_table(pw, n),
        b.len() == n,
        0 <= j < n,
    ensures
        sum(|k: int| aext(b, k - i) * aext(pw.take(n as int), k * (2 * j + 1)), 0, n) == sum(
            |l: int| b[l] * aext(pw.take(n as int), (i + l) * (2 * j + 1)),
            0,
            n,
        ),
{
    let lt = pw.take(n as int);
    let w = 2 * j + 1;
    let f = |k: int| aext(b, k - i) * aext(lt, k * w);
    crate::sums::lemma_sum_shift(f, i, 0, n);
    let h = |l: int| aext(b, l) * aext(lt, (l + i) * w);
    let fs = |l: int| f(l + i);
    assert forall|l: int| -i <= l < -i + n implies #[trigger] fs(l) == h(l) by {
        assert(l + i - i == l);
    }
    crate::sums::lemma_sum_ext(fs, h, -i, n);
    assert forall|l: int| #[trigger] h(l + n) == h(l) by {
        crate::ring::lemma_aext_anti(b, l);
        let y = (l + i) * w;
        assert((l + n + i) * w == y + n + 2 * (n as int) * j) by (nonlinear_arith)
            requires
                w == 2 * j + 1,
                y == (l + i) * w,
        ;
        lemma_aext_period(lt, y + n, j as nat);
        crate::ring::lemma_aext_anti(lt, y);
        let p1 = aext(b, l);
        let p2 = aext(lt, y);
        assert((-p1) * (-p2) == p1 * p2) by (nonlinear_arith);
    }
    crate::sums::lemma_sum_period(h, n, -i);
    let h0 = |l: int| b[l] * aext(lt, (i + l) * w);
    assert forall|l: int| 0 <= l < n implies #[trigger] h(l) == h0(l) by {
        crate::ring::lemma_aext_range(b, l);
        assert(l + i == i + l);
    }
    crate::sums::lemma_sum_ext(h, h0, 0, n);
}

/// Pointwise products of transforms are the transform of the ring product.
proof fn lemma_fwd_mul(a: Seq<u64>, b: Seq<u64>, pw: Seq<u64>, n: nat, j: int)
    requires
        root_table(pw, n),
        a.len() == n,
        b.len() == n,
        0 <= j < n,
    ensures
        fmul(fwd(a, pw, n)[j], fwd(b, pw, n)[j]) == fwd(pmul(a, b), pw, n)[j],
{
    let lt = pw.take(n as int);
    let w = 2 * j + 1;
    let c = pmul(a, b);
    let fa1 = |i: int| a[i] * aext(lt, i * w);
    let fb1 = |l: int| b[l] * aext(lt, l * w);
    let sa = sum(fa1, 0, n);
    let sb = sum(fb1, 0, n);
    lemma_fwd_aext(a, pw, n, j);
    lemma_fwd_aext(b, pw, n, j);
    lemma_fwd_aext(c, pw, n, j);
    vstd::arithmetic::div_mod::lemma_mul_mod_noop_general(sa, sb, P as int);
    // The product of the two sums as a double sum, with the exponents added.
    let wi = |i: int| sum(|l: int| b[l] * aext(lt, (i + l) * w), 0, n);
    let outer = |i: int| sb * fa1(i);
    crate::sums::lemma_sum_scale(fa1, sb, 0, n);
    let target = |i: int| a[i] * wi(i);
    assert forall|i: int| 0 <= i < n implies fred(#[trigger] outer(i)) == fred(target(i)) by {
        let ai = fa1(i);
        crate::sums::lemma_sum_scale(fb1, ai, 0, n);
        let g0 = |l: int| ai * fb1(l);
        let g1 = |l: int| a[i] * (b[l] * aext(lt, (i + l) * w));
        assert forall|l: int| 0 <= l < n implies fred(#[trigger] g0(l)) == fred(g1(l)) by {
            lemma_e_mul(pw, n, i * w, l * w);
            assert(i * w + l * w == (i + l) * w) by (nonlinear_arith);
            let ei = aext(lt, i * w);
            let el = aext(lt, l * w);
            let eil = aext(lt, (i + l) * w);
            let ab = a[i] * b[l];
            assert(g0(l) == ab * (ei * el)) by (nonlinear_arith)
                requires
                    g0(l) == (a[i] * ei) * (b[l] * el),
                    ab == a[i] * b[l],
            ;
            assert(g1(l) == ab * eil) by (nonlinear_arith)
                requires
                    g1(l) == a[i] * (b[l] * eil),
                    ab == a[i] * b[l],
            ;
            vstd::arithmetic::div_mod::lemma_mul_mod_noop_right(ab, ei * el, P as int);
            vstd::arithmetic::div_mod::lemma_mul_mod_noop_right(ab, eil, P as int);
        }
        crate::sums::lemma_sum_congruent(g0, g1, 0, n);
        crate::sums::lemma_sum_scale(|l: int| b[l] * aext(lt, (i + l) * w), a[i] as int, 0, n);
        assert(outer(i) == ai * sb) by (nonlinear_arith)
            requires
                outer(i) == sb * ai,
        ;
        crate::sums::lemma_sum_ext(g1, |l: int| (a[i] as int) * (|l: int| b[l] * aext(lt, (i + l) * w))(l), 0, n);
    }
    crate::sums::lemma_sum_congruent(outer, target, 0, n);
    assert(sa * sb == sb * sa) by (nonlinear_arith);
    // The transform of the product, through the unreduced product coefficients.
    let fc0 = |k: int| c[k] * aext(lt, k * w);
    let fc1 = |k: int| crate::ring::iprod(a, b, k) * aext(lt, k * w);
    assert forall|k: int| 0 <= k < n implies fred(#[trigger] fc0(k)) == fred(fc1(k)) by {
        crate::ring::lemma_pmul_iprod(a, b, k);
        vstd::arithmetic::div_mod::lemma_mul_mod_noop_left(crate::ring::iprod(a, b, k), aext(lt, k * w), P as int);
    }
    crate::sums::lemma_sum_congruent(fc0, fc1, 0, n);
    let g = |k: int, i: int| aext(lt, k * w) * (a[i] * aext(b, k - i));
    let fc2 = |k: int| sum(|i: int| g(k, i), 0, n);
    assert forall|k: int| 0 <= k < n implies #[trigger] fc1(k) == fc2(k) by {
        let fk = |i: int| a[i] * aext(b, k - i);
        crate::sums::lemma_sum_scale(fk, aext(lt, k * w), 0, n);
        crate::sums::lemma_sum_ext(|i: int| aext(lt, k * w) * fk(i), |i: int| g(k, i), 0, n);
        let x = crate::ring::iprod(a, b, k);
        let y = aext(lt, k * w);
        assert(x * y == y * x) by (nonlinear_arith);
    }
    crate::sums::lemma_sum_ext(fc1, fc2, 0, n);
    crate::sums::lemma_sum_swap(g, 0, n, 0, n);
    let fc3 = |i: int| sum(|k: int| g(k, i), 0, n);
    assert forall|i: int| 0 <= i < n implies #[trigger] fc3(i) == target(i) by {
        lemma_inner_window(b, pw, n, i, j);
        let inner = |k: int| aext(b, k - i) * aext(lt, k * w);
        crate::sums::lemma_sum_scale(inner, a[i] as int, 0, n);
        assert forall|k: int| 0 <= k < n implies #[trigger] g(k, i) == (|k: int| (a[i] as int) * inner(k))(k) by {
            let p1 = aext(lt, k * w);
            let p2 = a[i] as int;
            let p3 = aext(b, k - i);
            assert(p1 * (p2 * p3) == p2 * (p3 * p1)) by (nonlinear_arith);
        }
        crate::sums::lemma_sum_ext(|k: int| g(k, i), |k: int| (a[i] as int) * inner(k), 0, n);
    }
    crate::sums::lemma_sum_ext(fc3, target, 0, n);
}

proof fn lemma_sum_indicator(f: spec_fn(int) -> int, k: int, n: nat)
    requires
        0 <= k < n,
        forall|x: int| 0 <= x < n && x != k ==> #[trigger] f(x) == 0,
    ensures
        sum(f, 0, n) == f(k),
    decreases n,
{
    if k == n - 1 {
        assert forall|x: int| 0 <= x < 0 + (n - 1) implies #[trigger] f(x) == (|x: int| 0int)(x) by {}
        crate::sums::lemma_sum_ext(f, |x: int| 0int, 0, (n - 1) as nat);
        crate::sums::lemma_sum_zero(0, (n - 1) as nat);
    } else {
        lemma_sum_indicator(f, k, (n - 1) as nat);
    }
}

proof fn lemma_sum_ones(n: nat)
    ensures
        sum(|x: int| 1int, 0, n) == n,
    decreases n,
{
    if n > 0 {
        lemma_sum_ones((n - 1) as nat);
    }
}

/// The odd-step sum of exponent m - k is n when m == k and vanishes modulo P otherwise.
proof fn lemma_orthogonality(pw: Seq<u64>, n: nat, mm: int, k: int)
    requires
        root_table(pw, n),
        0 <= mm < n,
        0 <= k < n,
    ensures
        fred(sum(|j: int| aext(pw.take(n as int), (mm - k) * (2 * j + 1)), 0, n)) == fred(if mm == k { n as int } else { 0 }),
{
    let m = 2 * n as int;
    let lt = pw.take(n as int);
    let f = |j: int| aext(lt, (mm - k) * (2 * j + 1));
    if mm == k {
        assert forall|j: int| 0 <= j < n implies #[trigger] f(j) == (|x: int| 1int)(j) by {
            assert((mm - k) * (2 * j + 1) == 0) by (nonlinear_arith)
                requires
                    mm == k,
            ;
            crate::ring::lemma_aext_range(lt, 0);
        }
        crate::sums::lemma_sum_ext(f, |x: int| 1int, 0, n);
        lemma_sum_ones(n);
    } else {
        let d = (mm - k) % m;
        vstd::arithmetic::div_mod::lemma_mod_division_less_than_divisor(mm - k, m);
        if mm > k {
            vstd::arithmetic::div_mod::lemma_small_mod((mm - k) as nat, m as nat);
        } else {
            vstd::arithmetic::div_mod::lemma_mod_add_multiples_vanish(mm - k, m);
            vstd::arithmetic::div_mod::lemma_small_mod((mm - k + m) as nat, m as nat);
        }
        assert(1 <= d < m && d != n);
        let g = |j: int| pw[((2 * j + 1) * d) % m] as int;
        assert forall|j: int| 0 <= j < n implies fred(#[trigger] f(j)) == fred(g(j)) by {
            lemma_pw_aext(pw, n, (mm - k) * (2 * j + 1));
            vstd::arithmetic::div_mod::lemma_mul_mod_noop_left(mm - k, 2 * j + 1, m);
            assert(d * (2 * j + 1) == (2 * j + 1) * d) by (nonlinear_arith);
            crate::field::lemma_fred_canonical(pw[((2 * j + 1) * d) % m]);
        }
        crate::sums::lemma_sum_congruent(f, g, 0, n);
        assert(fred(orth_sum(pw, n, d)) == 0);
    }
}

/// The inverse transform undoes the transform.
proof fn lemma_inv_fwd(c: Seq<u64>, pw: Seq<u64>, n: nat, n_inv: u64)
    requires
        root_table(pw, n),
        canon(c),
        c.len() == n,
        n <= MAX_RING_DIM,
        n_inv < P,
        fmul(n as u64, n_inv) == 1,
    ensures
        inv(fwd(c, pw, n), pw, n, n_inv) == c,
{
    let m = 2 * n as int;
    let lt = pw.take(n as int);
    let fc = fwd(c, pw, n);
    assert forall|k: int| 0 <= k < n implies #[trigger] inv(fc, pw, n, n_inv)[k] == c[k] by {
        let t0 = |j: int| fc[j] * pw[(-(k * (2 * j + 1))) % m];
        let g = |j: int, mm: int| c[mm] * aext(lt, (mm - k) * (2 * j + 1));
        let t1 = |j: int| sum(|mm: int| g(j, mm), 0, n);
        assert forall|j: int| 0 <= j < n implies fred(#[trigger] t0(j)) == fred(t1(j)) by {
            let w = 2 * j + 1;
            lemma_fwd_aext(c, pw, n, j);
            let fj = |mm: int| c[mm] * aext(lt, mm * w);
            let sj = sum(fj, 0, n);
            let q = aext(lt, -(k * w));
            lemma_pw_aext(pw, n, -(k * w));
            vstd::arithmetic::div_mod::lemma_mul_mod_noop_general(sj, q, P as int);
            vstd::arithmetic::div_mod::lemma_mul_mod_noop_general(sj, pw[(-(k * w)) % m] as int, P as int);
            crate::field::lemma_fred_canonical(pw[(-(k * w)) % m]);
            crate::sums::lemma_sum_scale(fj, q, 0, n);
            let h0 = |mm: int| q * fj(mm);
            assert forall|mm: int| 0 <= mm < n implies fred(#[trigger] h0(mm)) == fred(g(j, mm)) by {
                lemma_e_mul(pw, n, mm * w, -(k * w));
                assert(mm * w + -(k * w) == (mm - k) * w) by (nonlinear_arith);
                let cm = c[mm] as int;
                let e1 = aext(lt, mm * w);
                assert(h0(mm) == cm * (e1 * q)) by (nonlinear_arith)
                    requires
                        h0(mm) == q * (cm * e1),
                ;
                vstd::arithmetic::div_mod::lemma_mul_mod_noop_right(cm, e1 * q, P as int);
                vstd::arithmetic::div_mod::lemma_mul_mod_noop_right(cm, aext(lt, (mm - k) * w), P as int);
            }
            crate::sums::lemma_sum_congruent(h0, |mm: int| g(j, mm), 0, n);
            assert(sj * q == q * sj) by (nonlinear_arith);
            assert(fred(fc[j] as int) == fred(sj)) by {
                crate::field::lemma_fred_canonical(fc[j]);
            }
            vstd::arithmetic::div_mod::lemma_mul_mod_noop_general(fc[j] as int, pw[(-(k * w)) % m] as int, P as int);
        }
        crate::sums::lemma_sum_congruent(t0, t1, 0, n);
        let t0i = |j: int| fc[j] * pw[(-(k * (2 * j + 1))) % (2 * n as int)];
        crate::sums::lemma_sum_ext(t0i, t0, 0, n);
        assert(inv(fc, pw, n, n_inv)[k] == fmul(n_inv, fred(sum(t0, 0, n))));
        crate::sums::lemma_sum_swap(g, 0, n, 0, n);
        let t2 = |mm: int| sum(|j: int| g(j, mm), 0, n);
        let t3 = |mm: int| if mm == k { (c[k] as int) * (n as int) } else { 0 };
        assert forall|mm: int| 0 <= mm < n implies fred(#[trigger] t2(mm)) == fred(t3(mm)) by {
            let o = |j: int| aext(lt, (mm - k) * (2 * j + 1));
            crate::sums::lemma_sum_scale(o, c[mm] as int, 0, n);
            crate::sums::lemma_sum_ext(|j: int| g(j, mm), |j: int| (c[mm] as int) * o(j), 0, n);
            lemma_orthogonality(pw, n, mm, k);
            let so = sum(o, 0, n);
            vstd::arithmetic::div_mod::lemma_mul_mod_noop_right(c[mm] as int, so, P as int);
            let z = if mm == k { n as int } else { 0 };
            vstd::arithmetic::div_mod::lemma_mul_mod_noop_right(c[mm] as int, z, P as int);
            if mm == k {
            } else {
                assert((c[mm] as int) * 0 == 0);
            }
        }
        crate::sums::lemma_sum_congruent(t2, t3, 0, n);
        assert(sum(t1, 0, n) == sum(t2, 0, n));
        assert(fred(sum(t2, 0, n)) == fred(sum(t3, 0, n)));
        lemma_sum_indicator(t3, k, n);
        assert(sum(t3, 0, n) == (c[k] as int) * (n as int));
        assert(fred(sum(t0, 0, n)) == fred((c[k] as int) * (n as int)));
        // n^-1 * (c_k * n) = c_k.
        let x = (c[k] as int) * (n as int);
        vstd::arithmetic::div_mod::lemma_mul_mod_noop_right(n_inv as int, x, P as int);
        assert((n_inv as int) * x == (c[k] as int) * ((n as int) * n_inv)) by (nonlinear_arith)
            requires
                x == (c[k] as int) * (n as int),
        ;
        vstd::arithmetic::div_mod::lemma_mul_mod_noop_right(c[k] as int, (n as int) * n_inv, P as int);
        assert(((n as u64) as int) == n as int);
        crate::field::lemma_fred_canonical(c[k]);
        assert((c[k] as int) * 1 == c[k] as int);
    }
    assert(inv(fc, pw, n, n_inv) =~= c);
}

/// Multiplying through the transform gives the product in Z_P[X]/(X^n + 1).
pub proof fn lemma_ntt_product(a: Seq<u64>, b: Seq<u64>, pw: Seq<u64>, n: nat, n_inv: u64)
    requires
        root_table(pw, n),
        a.len() == n,
        b.len() == n,
        n <= MAX_RING_DIM,
        n_inv < P,
        fmul(n as u64, n_inv) == 1,
    ensures
        ntt_product(a, b, pw, n, n_inv) == pmul(a, b),
{
    let fa = fwd(a, pw, n);
    let fb = fwd(b, pw, n);
    let c = pmul(a, b);
    let pt = Seq::new(n, |j: int| fmul(fa[j], fb[j]));
    assert forall|j: int| 0 <= j < n implies #[trigger] pt[j] == fwd(c, pw, n)[j] by {
        lemma_fwd_mul(a, b, pw, n, j);
    }
    assert(pt =~= fwd(c, pw, n));
    lemma_inv_fwd(c, pw, n, n_inv);
}

} // verus!
