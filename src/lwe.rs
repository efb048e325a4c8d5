use crate::field::{
    fadd, fe_add, fe_mul, fe_reduce, fe_sub, fmul, fred, lemma_fred_add, lemma_fred_add_right,
    lemma_fred_canonical, lemma_fred_sub, P,
};
use crate::poly::canon;
use vstd::prelude::*;

verus! {

/// Relies on rand::random::<u64>: a fresh value from the thread-local generator. Nothing is
/// known of it.
#[verifier::external_body]
pub(crate) fn random_u64() -> (r: u64) {
    rand::random::<u64>()
}

/// A uniformly drawn field element (up to the negligible bias of reducing 64 random bits).
pub fn random_field() -> (r: u64)
    ensures
        r < P,
{
    let x = random_u64();
    fe_reduce(x)
}

/// A field element that stands for an integer of absolute value at most `bound`.
pub open spec fn is_small(e: u64, bound: u64) -> bool {
    e < P && (e <= bound || e >= P - bound)
}

/// A noise value drawn uniformly from [-bound, bound] (up to the negligible bias of reducing 64
/// random bits), as a field element.
pub fn sample_noise(bound: u64) -> (r: u64)
    requires
        bound < P / 2,
    ensures
        is_small(r, bound),
{
    let x = random_u64() % (2 * bound + 1);
    if x <= bound {
        x
    } else {
        P - (x - bound)
    }
}

/// The first `m` terms of the inner product of `a` and `s`, over the integers.
pub open spec fn dot(a: Seq<u64>, s: Seq<u64>, m: nat) -> int
    decreases m,
{
    if m == 0 {
        0
    } else {
        dot(a, s, (m - 1) as nat) + a[m - 1] * s[m - 1]
    }
}

/// An LWE sample of dimension n: n mask coordinates followed by the body.
pub open spec fn lwe_sample(ct: Seq<u64>, n: nat) -> bool {
    ct.len() == n + 1 && canon(ct)
}

/// The body of an LWE encryption of `pt` with noise `e` under `key`, for the given mask.
pub open spec fn lwe_body(key: Seq<u64>, mask: Seq<u64>, pt: u64, e: u64) -> u64 {
    fred(dot(mask, key, key.len()) + pt + e)
}

/// The phase of an LWE sample: body minus the inner product of mask and key.
pub open spec fn lwe_phase(key: Seq<u64>, ct: Seq<u64>) -> u64 {
    fred(ct[key.len() as int] - dot(ct, key, key.len()))
}

pub open spec fn lwe_scale(ct: Seq<u64>, c: u64) -> Seq<u64> {
    Seq::new(ct.len(), |i: int| fmul(ct[i], c))
}

pub open spec fn lwe_sum(a: Seq<u64>, b: Seq<u64>) -> Seq<u64> {
    Seq::new(a.len(), |i: int| fadd(a[i], b[i]))
}

/// The scaling factor that places a message modulo `t` in the top bits: floor(P / t).
pub open spec fn delta_of(t: u64) -> u64 {
    (P / t) as u64
}

/// Modulus switching of one coordinate from Z_P to Z_2N: round(x * 2N / 2^64) mod 2N. The
/// power of two 2^64 stands in for P (they differ by less than 2^32), so that the scaling is a
/// shift.
pub open spec fn mod_switch_coeff(x: u64, n: nat) -> nat {
    (((x * (2 * n) + 0x8000_0000_0000_0000) / 0x1_0000_0000_0000_0000int) % (2 * n as int)) as nat
}

/// The inner product of `a` and `s` over their first `m` coordinates, in the field.
pub fn inner_product(a: &Vec<u64>, s: &Vec<u64>, m: usize) -> (r: u64)
    requires
        m <= a@.len(),
        m <= s@.len(),
        canon(a@),
        canon(s@),
    ensures
        r == fred(dot(a@, s@, m as nat)),
        r < P,
{
    let mut acc: u64 = 0;
    let mut i: usize = 0;
    while i < m
        invariant
            m <= a@.len(),
            m <= s@.len(),
            canon(a@),
            canon(s@),
            i <= m,
            acc < P,
            acc == fred(dot(a@, s@, i as nat)),
        decreases m - i,
    {
        let prod = fe_mul(a[i], s[i]);
        proof {
            lemma_fred_add(dot(a@, s@, i as nat), fmul(a@[i as int], s@[i as int]) as int);
            lemma_fred_add_right(dot(a@, s@, i as nat), a@[i as int] * s@[i as int]);
        }
        acc = fe_add(acc, prod);
        i = i + 1;
    }
    acc
}

/// Encrypts `pt` under `key` with the given mask and noise.
pub fn encrypt_with_mask(key: &Vec<u64>, mask: &Vec<u64>, pt: u64, noise: u64) -> (r: Vec<u64>)
    requires
        canon(key@),
        canon(mask@),
        mask@.len() == key@.len(),
        pt < P,
        noise < P,
    ensures
        r@ == mask@.push(lwe_body(key@, mask@, pt, noise)),
        lwe_sample(r@, key@.len()),
{
    let n = key.len();
    let s = inner_product(mask, key, n);
    let t = fe_add(s, pt);
    let body = fe_add(t, noise);
    proof {
        let d = dot(mask@, key@, n as nat);
        lemma_fred_add(d, pt as int);
        lemma_fred_add(d + pt, noise as int);
    }
    let mut r = mask.clone();
    r.push(body);
    r
}

/// Encrypts `pt` under `key` with a freshly drawn uniform mask and the given noise.
pub fn encrypt(key: &Vec<u64>, pt: u64, noise: u64) -> (r: Vec<u64>)
    requires
        canon(key@),
        pt < P,
        noise < P,
    ensures
        lwe_sample(r@, key@.len()),
        r@ == r@.take(key@.len() as int).push(lwe_body(key@, r@.take(key@.len() as int), pt, noise)),
{
    let n = key.len();
    let mut mask: Vec<u64> = Vec::new();
    let mut i: usize = 0;
    while i < n
        invariant
            i <= n,
            mask@.len() == i,
            canon(mask@),
        decreases n - i,
    {
        let x = random_field();
        mask.push(x);
        i = i + 1;
    }
    let r = encrypt_with_mask(key, &mask, pt, noise);
    assert(r@.take(n as int) =~= mask@);
    r
}

/// The phase of the sample: plaintext plus noise for a sample made under `key`.
pub fn decrypt(key: &Vec<u64>, ct: &Vec<u64>) -> (r: u64)
    requires
        canon(key@),
        lwe_sample(ct@, key@.len()),
    ensures
        r == lwe_phase(key@, ct@),
        r < P,
{
    let n = key.len();
    let s = inner_product(ct, key, n);
    proof {
        lemma_fred_canonical(ct@[n as int]);
        crate::field::lemma_fred_sub_right(ct@[n as int] as int, dot(ct@, key@, n as nat));
    }
    fe_sub(ct[n], s)
}

/// Decrypting an encryption gives back the plaintext plus the noise.
pub proof fn lemma_decrypt_encrypt(key: Seq<u64>, mask: Seq<u64>, pt: u64, noise: u64)
    requires
        mask.len() == key.len(),
    ensures
        lwe_phase(key, mask.push(lwe_body(key, mask, pt, noise))) == fred(pt + noise),
{
    let n = key.len();
    let ct = mask.push(lwe_body(key, mask, pt, noise));
    lemma_dot_prefix(ct, mask, key, n);
    let d = dot(mask, key, n);
    crate::field::lemma_fred_sub(d + pt + noise, d);
    assert(d + pt + noise - d == pt + noise);
}

/// The inner product only reads the coordinates it sums.
pub proof fn lemma_dot_prefix(a: Seq<u64>, b: Seq<u64>, s: Seq<u64>, m: nat)
    requires
        m <= a.len(),
        m <= b.len(),
        forall|i: int| 0 <= i < m ==> a[i] == b[i],
    ensures
        dot(a, s, m) == dot(b, s, m),
    decreases m,
{
    if m > 0 {
        lemma_dot_prefix(a, b, s, (m - 1) as nat);
    }
}

/// Multiplies every coordinate of the sample by `c`.
pub fn multiply_constant(ct: &Vec<u64>, c: u64) -> (r: Vec<u64>)
    requires
        canon(ct@),
        c < P,
    ensures
        r@ == lwe_scale(ct@, c),
        canon(r@),
{
    let mut v: Vec<u64> = Vec::new();
    let mut i: usize = 0;
    while i < ct.len()
        invariant
            canon(ct@),
            c < P,
            i <= ct@.len(),
            v@ == lwe_scale(ct@, c).take(i as int),
            canon(v@),
        decreases ct@.len() - i,
    {
        let x = fe_mul(ct[i], c);
        v.push(x);
        i = i + 1;
        assert(v@ =~= lwe_scale(ct@, c).take(i as int));
    }
    assert(v@ =~= lwe_scale(ct@, c));
    v
}

/// Adds two samples of one dimension coordinate by coordinate.
pub fn add(a: &Vec<u64>, b: &Vec<u64>) -> (r: Vec<u64>)
    requires
        canon(a@),
        canon(b@),
        a@.len() == b@.len(),
    ensures
        r@ == lwe_sum(a@, b@),
        canon(r@),
{
    let mut v: Vec<u64> = Vec::new();
    let mut i: usize = 0;
    while i < a.len()
        invariant
            canon(a@),
            canon(b@),
            a@.len() == b@.len(),
            i <= a@.len(),
            v@ == lwe_sum(a@, b@).take(i as int),
            canon(v@),
        decreases a@.len() - i,
    {
        let x = fe_add(a[i], b[i]);
        v.push(x);
        i = i + 1;
        assert(v@ =~= lwe_sum(a@, b@).take(i as int));
    }
    assert(v@ =~= lwe_sum(a@, b@));
    v
}

/// floor(P / t): the scale of a message modulo `t`.
pub fn get_delta(t: u64) -> (r: u64)
    requires
        t >= 2,
    ensures
        r == delta_of(t),
        r < P,
{
    assert(P / t <= P / 2) by (nonlinear_arith)
        requires
            t >= 2,
    ;
    P / t
}

/// Modulus switching of one coordinate into `[0, 2N)`.
pub fn mod_switch(x: u64, n: usize) -> (r: usize)
    requires
        0 < n <= crate::params::MAX_RING_DIM,
    ensures
        r as nat == mod_switch_coeff(x, n as nat),
        r < 2 * n,
{
    let m: u128 = 2 * n as u128;
    assert(x as u128 * m <= 0xFFFF_FFFF_FFFF_FFFFu128 * 0x20_0000u128) by (nonlinear_arith)
        requires
            x <= 0xFFFF_FFFF_FFFF_FFFFu128,
            m <= 0x20_0000u128,
    ;
    let q: u128 = (x as u128 * m + 0x8000_0000_0000_0000u128) / 0x1_0000_0000_0000_0000u128;
    (q % m) as usize
}

/// Modulus switching of every coordinate of a sample.
pub fn mod_switch_ct(ct: &Vec<u64>, n: usize) -> (r: Vec<usize>)
    requires
        0 < n <= crate::params::MAX_RING_DIM,
    ensures
        r@.len() == ct@.len(),
        forall|i: int| 0 <= i < ct@.len() ==> #[trigger] r@[i] as nat == mod_switch_coeff(ct@[i], n as nat),
{
    let mut v: Vec<usize> = Vec::new();
    let mut i: usize = 0;
    while i < ct.len()
        invariant
            0 < n <= crate::params::MAX_RING_DIM,
            i <= ct@.len(),
            v@.len() == i,
            forall|j: int| 0 <= j < i ==> #[trigger] v@[j] as nat == mod_switch_coeff(ct@[j], n as nat),
        decreases ct@.len() - i,
    {
        let s = mod_switch(ct[i], n);
        v.push(s);
        i = i + 1;
    }
    v
}

/// Coefficient `i` of the test vector of the identity table modulo `p`: Δ times
/// round(i p / n) mod p, so that rotating by the switched encoding of m reads Δ m back.
pub open spec fn testv_coeff(i: int, p: u64, delta: u64, n: nat) -> u64 {
    fmul(delta, (((2 * i * p + n) / (2 * n as int)) % (p as int)) as u64)
}

/// The test vector that evaluates the identity on messages modulo `p` scaled by `delta`.
pub fn get_testv(p: u64, delta: u64, n: usize) -> (r: crate::poly::Poly)
    requires
        1 <= p <= 0x1_0000_0000,
        delta < P,
        0 < n <= crate::params::MAX_RING_DIM,
    ensures
        r@ == Seq::new(n as nat, |i: int| testv_coeff(i, p, delta, n as nat)),
        canon(r@),
{
    let ghost spec_r = Seq::new(n as nat, |i: int| testv_coeff(i, p, delta, n as nat));
    let mut v: Vec<u64> = Vec::new();
    let mut i: usize = 0;
    while i < n
        invariant
            1 <= p <= 0x1_0000_0000,
            delta < P,
            0 < n <= crate::params::MAX_RING_DIM,
            spec_r == Seq::new(n as nat, |i: int| testv_coeff(i, p, delta, n as nat)),
            i <= n,
            v@ == spec_r.take(i as int),
            canon(v@),
        decreases n - i,
    {
        assert(2 * (i as int) * (p as int) + (n as int) <= 0x40_0000_0000_0000) by (nonlinear_arith)
            requires
                i < n,
                n <= 0x10_0000,
                p <= 0x1_0000_0000,
        ;
        let num: u64 = 2 * (i as u64) * p + n as u64;
        let q: u64 = num / (2 * n as u64);
        let m: u64 = q % p;
        v.push(fe_mul(delta, m));
        i = i + 1;
        assert(v@ =~= spec_r.take(i as int));
    }
    assert(v@ =~= spec_r);
    crate::poly::Poly { coeffs: v }
}

} // verus!
