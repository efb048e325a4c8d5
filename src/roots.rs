use crate::field::{fmul, fred, lemma_fred_canonical, P};
use crate::ntt::{fpow, n_inverse, orth_sum, root_table, TWO_ADIC_ROOT};
use crate::params::MAX_RING_DIM;
use crate::sums::sum;
use vstd::arithmetic::power2::{lemma2_to64, lemma_pow2_adds, lemma_pow2_pos, lemma_pow2_strictly_increases, lemma_pow2_unfold, pow2};
use vstd::prelude::*;

verus! {

/// `x` squared `t` times.
pub open spec fn sq(x: u64, t: nat) -> u64
    decreases t,
{
    if t == 0 {
        x
    } else {
        fmul(sq(x, (t - 1) as nat), sq(x, (t - 1) as nat))
    }
}

/// `n` is a power of two.
pub open spec fn is_pow2(n: nat) -> bool {
    exists|k: nat| pow2(k) == n
}

/// The table of the powers of `root` that a transform of length `n` reads.
pub open spec fn power_table(root: u64, n: nat) -> Seq<u64> {
    Seq::new(2 * n, |t: int| fpow(root, t as nat))
}

/// The 2n-th root of unity that the transform of length n = 2^k uses.
pub open spec fn root_for(k: nat) -> u64 {
    sq(TWO_ADIC_ROOT, (31 - k) as nat)
}

proof fn lemma_fmul_assoc(a: u64, b: u64, c: u64)
    ensures
        fmul(fmul(a, b), c) == fmul(a, fmul(b, c)),
{
    vstd::arithmetic::div_mod::lemma_mul_mod_noop_left(a * b, c as int, P as int);
    vstd::arithmetic::div_mod::lemma_mul_mod_noop_right(a as int, b * c, P as int);
    assert((a * b) * c == a * (b * c)) by (nonlinear_arith);
}

proof fn lemma_fpow_canonical(x: u64, e: nat)
    ensures
        fpow(x, e) < P,
{
}

/// x^(a + b) = x^a x^b.
proof fn lemma_fpow_add(x: u64, a: nat, b: nat)
    requires
        x < P,
    ensures
        fpow(x, a + b) == fmul(fpow(x, a), fpow(x, b)),
    decreases b,
{
    if b == 0 {
        lemma_fred_canonical(fpow(x, a));
        assert(fpow(x, a) * 1 == fpow(x, a) as int);
    } else {
        lemma_fpow_add(x, a, (b - 1) as nat);
        assert((a + b - 1) as nat == a + (b - 1) as nat);
        lemma_fmul_assoc(fpow(x, a), fpow(x, (b - 1) as nat), x);
    }
}

/// x^(a b) = (x^a)^b.
proof fn lemma_fpow_mul(x: u64, a: nat, b: nat)
    requires
        x < P,
    ensures
        fpow(x, a * b) == fpow(fpow(x, a), b),
    decreases b,
{
    if b == 0 {
        assert(a * b == 0) by (nonlinear_arith)
            requires
                b == 0,
        ;
    } else {
        lemma_fpow_mul(x, a, (b - 1) as nat);
        assert(a * b == a * (b - 1) as nat + a) by (nonlinear_arith)
            requires
                b > 0,
        ;
        lemma_fpow_add(x, a * (b - 1) as nat, a);
        lemma_fpow_canonical(x, a);
    }
}

/// Squaring t times is raising to 2^t.
proof fn lemma_sq_pow(x: u64, t: nat)
    requires
        x < P,
    ensures
        sq(x, t) == fpow(x, pow2(t)),
    decreases t,
{
    if t == 0 {
        lemma2_to64();
        lemma_fred_canonical(x);
        assert(fpow(x, 0) == 1);
        assert(fpow(x, 1) == fmul(fpow(x, 0), x));
        assert(1 * x == x as int);
    } else {
        lemma_sq_pow(x, (t - 1) as nat);
        lemma_pow2_unfold(t);
        lemma_fpow_add(x, pow2((t - 1) as nat), pow2((t - 1) as nat));
    }
}

proof fn lemma_fpow_one(e: nat)
    ensures
        fpow(1, e) == 1,
    decreases e,
{
    if e > 0 {
        lemma_fpow_one((e - 1) as nat);
    }
}

/// (-1)^b is -1 for odd b.
proof fn lemma_fpow_minus_one(b: nat)
    ensures
        b % 2 == 1 ==> fpow((P - 1) as u64, b) == P - 1,
        b % 2 == 0 ==> fpow((P - 1) as u64, b) == 1,
    decreases b,
{
    if b > 0 {
        lemma_fpow_minus_one((b - 1) as nat);
        assert(((P - 1) * (P - 1)) % (P as int) == 1);
        assert((1 * (P - 1)) % (P as int) == P - 1);
    }
}

/// The field's 2^32-th root of unity squared 31 times is -1.
proof fn lemma_root_half_turn()
    ensures
        sq(TWO_ADIC_ROOT, 31) == P - 1,
{
    assert(sq(TWO_ADIC_ROOT, 0) == 7277203076849721926u64);
    assert(sq(TWO_ADIC_ROOT, 1) == fmul(7277203076849721926u64, 7277203076849721926u64));
    assert(7277203076849721926int * 7277203076849721926int == 52957684621711059803985716103525149476int);
    assert(52957684621711059803985716103525149476int % (P as int) == 3524815499551269279int);
    assert(sq(TWO_ADIC_ROOT, 2) == fmul(3524815499551269279u64, 3524815499551269279u64));
    assert(3524815499551269279int * 3524815499551269279int == 12424324305876863998787408259969179841int);
    assert(12424324305876863998787408259969179841int % (P as int) == 1905180297017055339int);
    assert(sq(TWO_ADIC_ROOT, 3) == fmul(1905180297017055339u64, 1905180297017055339u64));
    assert(1905180297017055339int * 1905180297017055339int == 3629711964141995200643202250588404921int);
    assert(3629711964141995200643202250588404921int % (P as int) == 2530564950562219707int);
    assert(sq(TWO_ADIC_ROOT, 4) == fmul(2530564950562219707u64, 2530564950562219707u64));
    assert(2530564950562219707int * 2530564950562219707int == 6403758969013969469783030298939165849int);
    assert(6403758969013969469783030298939165849int % (P as int) == 2147253751702802259int);
    assert(sq(TWO_ADIC_ROOT, 5) == fmul(2147253751702802259u64, 2147253751702802259u64));
    assert(2147253751702802259int * 2147253751702802259int == 4610698674201759575191978033255503081int);
    assert(4610698674201759575191978033255503081int % (P as int) == 4969973714567017225int);
    assert(sq(TWO_ADIC_ROOT, 6) == fmul(4969973714567017225u64, 4969973714567017225u64));
    assert(4969973714567017225int * 4969973714567017225int == 24700638723487075203591955833446700625int);
    assert(24700638723487075203591955833446700625int % (P as int) == 3757607247483852735int);
    assert(sq(TWO_ADIC_ROOT, 7) == fmul(3757607247483852735u64, 3757607247483852735u64));
    assert(3757607247483852735int * 3757607247483852735int == 14119612226343176096267654559166980225int);
    assert(14119612226343176096267654559166980225int % (P as int) == 8877499657461974390int);
    assert(sq(TWO_ADIC_ROOT, 8) == fmul(8877499657461974390u64, 8877499657461974390u64));
    assert(8877499657461974390int * 8877499657461974390int == 78810000168237472626748988797015872100int);
    assert(78810000168237472626748988797015872100int % (P as int) == 2709866199236980323int);
    assert(sq(TWO_ADIC_ROOT, 9) == fmul(2709866199236980323u64, 2709866199236980323u64));
    assert(2709866199236980323int * 2709866199236980323int == 7343374817767077535307764227489184329int);
    assert(7343374817767077535307764227489184329int % (P as int) == 5936499541590631774int);
    assert(sq(TWO_ADIC_ROOT, 10) == fmul(5936499541590631774u64, 5936499541590631774u64));
    assert(5936499541590631774int * 5936499541590631774int == 35242026807305781191850877360458387076int);
    assert(35242026807305781191850877360458387076int % (P as int) == 8124823329697072476int);
    assert(sq(TWO_ADIC_ROOT, 11) == fmul(8124823329697072476u64, 8124823329697072476u64));
    assert(8124823329697072476int * 8124823329697072476int == 66012754138789823671503095244796770576int);
    assert(66012754138789823671503095244796770576int % (P as int) == 6553637399136210105int);
    assert(sq(TWO_ADIC_ROOT, 12) == fmul(6553637399136210105u64, 6553637399136210105u64));
    assert(6553637399136210105int * 6553637399136210105int == 42950163159356828477517986982704111025int);
    assert(42950163159356828477517986982704111025int % (P as int) == 1971462654193939361int);
    assert(sq(TWO_ADIC_ROOT, 13) == fmul(1971462654193939361u64, 1971462654193939361u64));
    assert(1971462654193939361int * 1971462654193939361int == 3886664996881412130741860663745088321int);
    assert(3886664996881412130741860663745088321int % (P as int) == 8982441859486529725int);
    assert(sq(TWO_ADIC_ROOT, 14) == fmul(8982441859486529725u64, 8982441859486529725u64));
    assert(8982441859486529725int * 8982441859486529725int == 80684261759055825816212228723308575625int);
    assert(80684261759055825816212228723308575625int % (P as int) == 3411401055030829696int);
    assert(sq(TWO_ADIC_ROOT, 15) == fmul(3411401055030829696u64, 3411401055030829696u64));
    assert(3411401055030829696int * 3411401055030829696int == 11637657158265457939920409030155452416int);
    assert(11637657158265457939920409030155452416int % (P as int) == 5718075921287398682int);
    assert(sq(TWO_ADIC_ROOT, 16) == fmul(5718075921287398682u64, 5718075921287398682u64));
    assert(5718075921287398682int * 5718075921287398682int == 32696392241606733207625270246415337124int);
    assert(32696392241606733207625270246415337124int % (P as int) == 8167150655112846419int);
    assert(sq(TWO_ADIC_ROOT, 17) == fmul(8167150655112846419u64, 8167150655112846419u64));
    assert(8167150655112846419int * 8167150655112846419int == 66702349823310196434713243204281123561int);
    assert(66702349823310196434713243204281123561int % (P as int) == 1873558160482552414int);
    assert(sq(TWO_ADIC_ROOT, 18) == fmul(1873558160482552414u64, 1873558160482552414u64));
    assert(1873558160482552414int * 1873558160482552414int == 3510220180710765625987653312257227396int);
    assert(3510220180710765625987653312257227396int % (P as int) == 7126024226993609386int);
    assert(sq(TWO_ADIC_ROOT, 19) == fmul(7126024226993609386u64, 7126024226993609386u64));
    assert(7126024226993609386int * 7126024226993609386int == 50780221283699868188621230083947296996int);
    assert(50780221283699868188621230083947296996int % (P as int) == 4308460244895131701int);
    assert(sq(TWO_ADIC_ROOT, 20) == fmul(4308460244895131701u64, 4308460244895131701u64));
    assert(4308460244895131701int * 4308460244895131701int == 18562829681841818230606450850135153401int);
    assert(18562829681841818230606450850135153401int % (P as int) == 4355325209153869931int);
    assert(sq(TWO_ADIC_ROOT, 21) == fmul(4355325209153869931u64, 4355325209153869931u64));
    assert(4355325209153869931int * 4355325209153869931int == 18968857677491200859806457113665944761int);
    assert(18968857677491200859806457113665944761int % (P as int) == 9113133275150391358int);
    assert(sq(TWO_ADIC_ROOT, 22) == fmul(9113133275150391358u64, 9113133275150391358u64));
    assert(9113133275150391358int * 9113133275150391358int == 83049198090653298602747092460561084164int);
    assert(83049198090653298602747092460561084164int % (P as int) == 4255134452441852017int);
    assert(sq(TWO_ADIC_ROOT, 23) == fmul(4255134452441852017u64, 4255134452441852017u64));
    assert(4255134452441852017int * 4255134452441852017int == 18106169208357619784640012572926968289int);
    assert(18106169208357619784640012572926968289int % (P as int) == 6434636298004421797int);
    assert(sq(TWO_ADIC_ROOT, 24) == fmul(6434636298004421797u64, 6434636298004421797u64));
    assert(6434636298004421797int * 6434636298004421797int == 41404544287596050114957194564288709209int);
    assert(41404544287596050114957194564288709209int % (P as int) == 4404853092538523347int);
    assert(sq(TWO_ADIC_ROOT, 25) == fmul(4404853092538523347u64, 4404853092538523347u64));
    assert(4404853092538523347int * 4404853092538523347int == 19402730766846192924584285243264082409int);
    assert(19402730766846192924584285243264082409int % (P as int) == 2198989700608int);
    assert(sq(TWO_ADIC_ROOT, 26) == fmul(2198989700608u64, 2198989700608u64));
    assert(2198989700608int * 2198989700608int == 4835555703380061475569664int);
    assert(4835555703380061475569664int % (P as int) == 8int);
    assert(sq(TWO_ADIC_ROOT, 27) == fmul(8u64, 8u64));
    assert(8int * 8int == 64int);
    assert(64int % (P as int) == 64int);
    assert(sq(TWO_ADIC_ROOT, 28) == fmul(64u64, 64u64));
    assert(64int * 64int == 4096int);
    assert(4096int % (P as int) == 4096int);
    assert(sq(TWO_ADIC_ROOT, 29) == fmul(4096u64, 4096u64));
    assert(4096int * 4096int == 16777216int);
    assert(16777216int % (P as int) == 16777216int);
    assert(sq(TWO_ADIC_ROOT, 30) == fmul(16777216u64, 16777216u64));
    assert(16777216int * 16777216int == 281474976710656int);
    assert(281474976710656int % (P as int) == 281474976710656int);
    assert(sq(TWO_ADIC_ROOT, 31) == fmul(281474976710656u64, 281474976710656u64));
    assert(281474976710656int * 281474976710656int == 79228162514264337593543950336int);
    assert(79228162514264337593543950336int % (P as int) == 18446744069414584320int);
}

/// Every d >= 1 is 2^a times an odd number.
proof fn lemma_two_adic(d: nat) -> (r: (nat, nat))
    requires
        d >= 1,
    ensures
        d == pow2(r.0) * r.1,
        r.1 % 2 == 1,
    decreases d,
{
    lemma2_to64();
    if d % 2 == 1 {
        assert(d == pow2(0) * d) by (nonlinear_arith)
            requires
                pow2(0) == 1,
        ;
        (0, d)
    } else {
        let r = lemma_two_adic(d / 2);
        lemma_pow2_unfold(r.0 + 1);
        assert(d == pow2(r.0 + 1) * r.1) by (nonlinear_arith)
            requires
                d / 2 == pow2(r.0) * r.1,
                d % 2 == 0,
                pow2(r.0 + 1) == 2 * pow2(r.0),
        ;
        (r.0 + 1, r.1)
    }
}

/// 1 + x + ... + x^(2^k - 1) vanishes when x^(2^i) = -1 for some i < k.
proof fn lemma_geometric_zero(x: u64, k: nat, i: nat)
    requires
        x < P,
        i < k,
        fpow(x, pow2(i)) == P - 1,
    ensures
        fred(sum(|j: int| fpow(x, j as nat) as int, 0, pow2(k))) == 0,
    decreases k,
{
    let f = |j: int| fpow(x, j as nat) as int;
    let h = pow2((k - 1) as nat);
    lemma_pow2_unfold(k);
    crate::sums::lemma_sum_split(f, 0, h, h);
    assert(h + h == pow2(k));
    crate::sums::lemma_sum_shift(f, h as int, h as int, h);
    let g = |j: int| f(j + h);
    let xh = fpow(x, h);
    let g2 = |j: int| (xh as int) * f(j);
    assert forall|j: int| 0 <= j < h implies fred(#[trigger] g(j)) == fred(g2(j)) by {
        lemma_fpow_add(x, j as nat, h);
        assert((j + h) as nat == j as nat + h);
        vstd::arithmetic::div_mod::lemma_mul_mod_noop_general(fpow(x, j as nat) as int, xh as int, P as int);
        lemma_fred_canonical(fpow(x, j as nat));
        lemma_fred_canonical(xh);
        lemma_fred_canonical(fmul(fpow(x, j as nat), xh));
        assert(fpow(x, j as nat) * xh == (xh as int) * fpow(x, j as nat)) by (nonlinear_arith);
    }
    crate::sums::lemma_sum_congruent(g, g2, 0, h);
    crate::sums::lemma_sum_scale(f, xh as int, 0, h);
    let s = sum(f, 0, h);
    // The whole sum is (1 + x^h) times the first half.
    assert(fred(sum(f, 0, pow2(k))) == fred(s + (xh as int) * s)) by {
        crate::field::lemma_fred_add_right(s, sum(g, 0, h));
        crate::field::lemma_fred_add_right(s, (xh as int) * s);
    }
    if i == k - 1 {
        assert(s + (xh as int) * s == (P as int) * s) by (nonlinear_arith)
            requires
                xh == P - 1,
        ;
        vstd::arithmetic::div_mod::lemma_mod_multiples_vanish(s, 0, P as int);
        assert((P as int) * s == 0 + (P as int) * s);
    } else {
        lemma_geometric_zero(x, (k - 1) as nat, i);
        assert(s + (xh as int) * s == s * (1 + xh)) by (nonlinear_arith);
        vstd::arithmetic::div_mod::lemma_mul_mod_noop_left(s, 1 + xh, P as int);
        assert(0 * (1 + xh) == 0);
    }
}

/// For n = 2^k with k <= 20, the powers of `root_for(k)` have what the transform needs, and
/// P - (P - 1) / n is the inverse of n.
pub proof fn lemma_root_table_for(k: nat)
    requires
        k <= 20,
    ensures
        root_table(power_table(root_for(k), pow2(k)), pow2(k)),
        fmul(pow2(k) as u64, n_inverse(pow2(k))) == 1,
{
    lemma2_to64();
    let n = pow2(k);
    let psi = root_for(k);
    let pw = power_table(psi, n);
    let m = 2 * n;
    lemma_pow2_pos(k);
    if k < 20 {
        lemma_pow2_strictly_increases(k, 20);
    }
    lemma_pow2_unfold(k + 1);
    // psi^n = -1 and psi^(2n) = 1.
    lemma_root_half_turn();
    lemma_sq_pow(TWO_ADIC_ROOT, (31 - k) as nat);
    lemma_fpow_mul(TWO_ADIC_ROOT, pow2((31 - k) as nat), n);
    lemma_pow2_adds((31 - k) as nat, k);
    assert((31 - k) as nat + k == 31);
    lemma_sq_pow(TWO_ADIC_ROOT, 31);
    lemma_fpow_canonical(TWO_ADIC_ROOT, pow2((31 - k) as nat));
    assert(psi < P);
    assert(fpow(psi, n) == P - 1);
    lemma_fpow_add(psi, n, n);
    assert(fpow(psi, m) == 1);
    // The powers multiply.
    assert forall|s: int, t: int| 0 <= s < m && 0 <= t < m implies #[trigger] pw[(s + t) % (m as int)] == fmul(#[trigger] pw[s], pw[t]) by {
        lemma_fpow_add(psi, s as nat, t as nat);
        if s + t < m {
            vstd::arithmetic::div_mod::lemma_small_mod((s + t) as nat, m);
        } else {
            vstd::arithmetic::div_mod::lemma_mod_sub_multiples_vanish(s + t, m as int);
            vstd::arithmetic::div_mod::lemma_small_mod((s + t - m) as nat, m);
            lemma_fpow_add(psi, (s + t - m) as nat, m);
            lemma_fpow_canonical(psi, (s + t - m) as nat);
            lemma_fred_canonical(fpow(psi, (s + t - m) as nat));
            assert(fpow(psi, (s + t - m) as nat) * 1 == fpow(psi, (s + t - m) as nat) as int);
        }
    }
    // The odd-step sums vanish.
    assert forall|d: int| 1 <= d < m && d != n implies fred(#[trigger] orth_sum(pw, n, d)) == 0 by {
        lemma_orth_zero(k, d as nat);
    }
    assert(pw[0] == 1);
    // n^-1.
    let q = pow2((32 - k) as nat) * 0xFFFF_FFFF;
    lemma_pow2_adds(k, (32 - k) as nat);
    assert(k + (32 - k) as nat == 32);
    assert(n * q == P - 1) by (nonlinear_arith)
        requires
            q == pow2((32 - k) as nat) * 0xFFFF_FFFF,
            n * pow2((32 - k) as nat) == 0x1_0000_0000,
    ;
    vstd::arithmetic::div_mod::lemma_div_multiples_vanish(q as int, n as int);
    assert((P - 1) / (n as int) == q);
    assert(q <= P - 1) by (nonlinear_arith)
        requires
            n * q == P - 1,
            n >= 1,
            q >= 0,
    ;
    let inv = n_inverse(n);
    assert(inv as int == P - q);
    assert(n * (P - q) == (n - 1) * P + 1) by (nonlinear_arith)
        requires
            n * q == P - 1,
    ;
    vstd::arithmetic::div_mod::lemma_mod_multiples_vanish((n - 1) as int, 1, P as int);
    assert((n as u64) as int == n);
}

/// psi^n = -1 and psi^(2n) = 1 for the root of length n = 2^k.
proof fn lemma_psi_facts(k: nat)
    requires
        k <= 20,
    ensures
        root_for(k) < P,
        fpow(root_for(k), pow2(k)) == P - 1,
        fpow(root_for(k), 2 * pow2(k)) == 1,
{
    let g = TWO_ADIC_ROOT;
    let n = pow2(k);
    let psi = root_for(k);
    let e1 = pow2((31 - k) as nat);
    assert(psi == fpow(g, e1)) by {
        lemma_sq_pow(g, (31 - k) as nat);
    }
    assert(fpow(g, e1 * n) == fpow(psi, n)) by {
        lemma_fpow_mul(g, e1, n);
    }
    assert(e1 * n == pow2(31)) by {
        lemma_pow2_adds((31 - k) as nat, k);
        assert((31 - k) as nat + k == 31);
    }
    assert(fpow(g, pow2(31)) == P - 1) by {
        lemma_sq_pow(g, 31);
        lemma_root_half_turn();
    }
    lemma_fpow_canonical(g, e1);
    assert(fpow(psi, n + n) == fmul(fpow(psi, n), fpow(psi, n))) by {
        lemma_fpow_add(psi, n, n);
    }
    assert(((P - 1) * (P - 1)) % (P as int) == 1);
    assert(n + n == 2 * n);
}

/// An exponent 1 <= d < 2n other than n has fewer factors of two than n = 2^k.
proof fn lemma_two_adic_below(k: nat, d: nat) -> (r: (nat, nat))
    requires
        k <= 20,
        1 <= d < 2 * pow2(k),
        d != pow2(k),
    ensures
        d == pow2(r.0) * r.1,
        r.1 % 2 == 1,
        r.0 < k,
{
    lemma2_to64();
    let m = 2 * pow2(k);
    lemma_pow2_unfold(k + 1);
    let (a, b) = lemma_two_adic(d);
    lemma_pow2_pos(a);
    if a >= k {
        if a > k {
            if a > k + 1 {
                lemma_pow2_strictly_increases(k + 1, a);
            }
            assert(pow2(a) >= m);
        }
        assert(d >= pow2(a)) by (nonlinear_arith)
            requires
                d == pow2(a) * b,
                b >= 1,
        ;
        if b >= 3 {
            assert(d >= 3 * pow2(a)) by (nonlinear_arith)
                requires
                    d == pow2(a) * b,
                    b >= 3,
            ;
        }
        assert(b == 1);
        assert(d == pow2(a)) by (nonlinear_arith)
            requires
                d == pow2(a) * b,
                b == 1,
        ;
        assert(false);
    }
    (a, b)
}

/// Term j of the odd-step sum is psi^d times x^j, with x = psi^(2d).
proof fn lemma_orth_term(k: nat, d: nat, j: nat)
    requires
        k <= 20,
        j < pow2(k),
    ensures
        power_table(root_for(k), pow2(k))[(((2 * j + 1) * d) % (2 * pow2(k))) as int] == fmul(
            fpow(root_for(k), d),
            fpow(fpow(root_for(k), 2 * d), j),
        ),
{
    let n = pow2(k);
    let psi = root_for(k);
    let m = 2 * n;
    lemma_pow2_pos(k);
    lemma_psi_facts(k);
    let e = ((2 * j + 1) * d) as nat;
    let r = e % m;
    vstd::arithmetic::div_mod::lemma_fundamental_div_mod(e as int, m as int);
    vstd::arithmetic::div_mod::lemma_mod_division_less_than_divisor(e as int, m as int);
    let qq = (e / m) as nat;
    lemma_fpow_mul(psi, m, qq);
    lemma_fpow_one(qq);
    lemma_fpow_add(psi, m * qq, r as nat);
    lemma_fpow_canonical(psi, r as nat);
    lemma_fred_canonical(fpow(psi, r as nat));
    assert(1 * fpow(psi, r as nat) == fpow(psi, r as nat) as int);
    assert(m * qq + r == e);
    assert(e == d + 2 * d * j) by (nonlinear_arith)
        requires
            e == (2 * j + 1) * d,
    ;
    lemma_fpow_mul(psi, 2 * d, j);
    lemma_fpow_add(psi, d, 2 * d * j);
}

/// The odd-step sum of exponent d vanishes for 1 <= d < 2n, d != n.
#[verifier::rlimit(50)]
proof fn lemma_orth_zero(k: nat, d: nat)
    requires
        k <= 20,
        1 <= d < 2 * pow2(k),
        d != pow2(k),
    ensures
        fred(orth_sum(power_table(root_for(k), pow2(k)), pow2(k), d as int)) == 0,
{
    let n = pow2(k);
    let psi = root_for(k);
    let pw = power_table(psi, n);
    let m = 2 * n;
    lemma_psi_facts(k);
    let (a, b) = lemma_two_adic_below(k, d);
    let i = (k - 1 - a) as nat;
    let x = fpow(psi, 2 * d);
    lemma_fpow_canonical(psi, 2 * d);
    // x^(2^i) = psi^(2 d 2^i) = psi^(n b) = (-1)^b = -1.
    lemma_fpow_mul(psi, 2 * d, pow2(i));
    lemma_pow2_adds(a, i);
    lemma_pow2_unfold(k);
    assert(2 * d * pow2(i) == n * b) by (nonlinear_arith)
        requires
            d == pow2(a) * b,
            pow2(a + i) == pow2(a) * pow2(i),
            pow2(k) == 2 * pow2((k - 1) as nat),
            (k - 1) as nat == a + i,
            n == pow2(k),
    ;
    lemma_fpow_mul(psi, n, b);
    lemma_fpow_minus_one(b);
    lemma_geometric_zero(x, k, i);
    // The odd-step sum is psi^d times the geometric sum of x.
    let f = |j: int| fpow(x, j as nat) as int;
    let pd = fpow(psi, d);
    let o = |j: int| pw[((2 * j + 1) * d) % (m as int)] as int;
    let o2 = |j: int| (pd as int) * f(j);
    assert forall|j: int| 0 <= j < n implies fred(#[trigger] o(j)) == fred(o2(j)) by {
        lemma_orth_term(k, d, j as nat);
        assert(((2 * j + 1) * d) % (m as int) == (((2 * (j as nat) + 1) * d) % m) as int);
        lemma_fred_canonical(pw[((2 * j + 1) * d) % (m as int)]);
    }
    crate::sums::lemma_sum_congruent(o, o2, 0, n);
    crate::sums::lemma_sum_scale(f, pd as int, 0, n);
    vstd::arithmetic::div_mod::lemma_mul_mod_noop_right(pd as int, sum(f, 0, n), P as int);
    assert((pd as int) * 0 == 0);
    crate::sums::lemma_sum_ext(o, |j: int| pw[((2 * j + 1) * d) % (2 * n as int)] as int, 0, n);
}

} // verus!
