use crate::field::fred;
use vstd::prelude::*;

verus! {

/// f(lo) + f(lo + 1) + ... + f(lo + n - 1).
pub open spec fn sum(f: spec_fn(int) -> int, lo: int, n: nat) -> int
    decreases n,
{
    if n == 0 {
        0
    } else {
        sum(f, lo, (n - 1) as nat) + f(lo + n - 1)
    }
}

pub proof fn lemma_sum_ext(f: spec_fn(int) -> int, g: spec_fn(int) -> int, lo: int, n: nat)
    requires
        forall|j: int| lo <= j < lo + n ==> #[trigger] f(j) == g(j),
    ensures
        sum(f, lo, n) == sum(g, lo, n),
    decreases n,
{
    if n > 0 {
        lemma_sum_ext(f, g, lo, (n - 1) as nat);
    }
}

pub proof fn lemma_sum_front(f: spec_fn(int) -> int, lo: int, n: nat)
    requires
        n > 0,
    ensures
        sum(f, lo, n) == f(lo) + sum(f, lo + 1, (n - 1) as nat),
    decreases n,
{
    if n > 1 {
        lemma_sum_front(f, lo, (n - 1) as nat);
        assert(sum(f, lo + 1, (n - 1) as nat) == sum(f, lo + 1, (n - 2) as nat) + f(lo + 1 + (n - 1) - 1));
    } else {
        assert(sum(f, lo, 0) == 0);
        assert(sum(f, lo + 1, 0) == 0);
    }
}

pub proof fn lemma_sum_add(f: spec_fn(int) -> int, g: spec_fn(int) -> int, lo: int, n: nat)
    ensures
        sum(|j: int| f(j) + g(j), lo, n) == sum(f, lo, n) + sum(g, lo, n),
    decreases n,
{
    if n > 0 {
        lemma_sum_add(f, g, lo, (n - 1) as nat);
    }
}

pub proof fn lemma_sum_scale(f: spec_fn(int) -> int, c: int, lo: int, n: nat)
    ensures
        sum(|j: int| c * f(j), lo, n) == c * sum(f, lo, n),
    decreases n,
{
    if n > 0 {
        lemma_sum_scale(f, c, lo, (n - 1) as nat);
        let s = sum(f, lo, (n - 1) as nat);
        assert(c * s + c * f(lo + n - 1) == c * (s + f(lo + n - 1))) by (nonlinear_arith);
    }
}

/// Renaming the index: j becomes j + d.
pub proof fn lemma_sum_shift(f: spec_fn(int) -> int, d: int, lo: int, n: nat)
    ensures
        sum(f, lo, n) == sum(|j: int| f(j + d), lo - d, n),
    decreases n,
{
    if n > 0 {
        lemma_sum_shift(f, d, lo, (n - 1) as nat);
    }
}

/// Renaming the index: j becomes c - j.
pub proof fn lemma_sum_reverse(f: spec_fn(int) -> int, c: int, lo: int, n: nat)
    ensures
        sum(f, lo, n) == sum(|j: int| f(c - j), c - (lo + n - 1), n),
    decreases n,
{
    if n > 0 {
        let m = (n - 1) as nat;
        lemma_sum_reverse(f, c, lo, m);
        lemma_sum_front(|j: int| f(c - j), c - (lo + n - 1), n);
        assert(c - (lo + n - 1) + 1 == c - (lo + m - 1));
    }
}

/// A sum over a full period of a periodic function does not depend on where it starts.
pub proof fn lemma_sum_period(f: spec_fn(int) -> int, p: nat, lo: int)
    requires
        p > 0,
        forall|j: int| #[trigger] f(j + p) == f(j),
    ensures
        sum(f, lo, p) == sum(f, 0, p),
    decreases (if lo >= 0 { lo } else { -lo }),
{
    if lo > 0 {
        lemma_sum_front(f, lo - 1, p);
        assert(f(lo - 1 + p) == f(lo - 1));
        lemma_sum_period(f, p, lo - 1);
    } else if lo < 0 {
        lemma_sum_front(f, lo, p);
        assert(f(lo + p) == f(lo));
        lemma_sum_period(f, p, lo + 1);
    }
}

/// Exchanging the order of a double sum.
pub proof fn lemma_sum_swap(g: spec_fn(int, int) -> int, lo1: int, n1: nat, lo2: int, n2: nat)
    ensures
        sum(|i: int| sum(|j: int| g(i, j), lo2, n2), lo1, n1) == sum(
            |j: int| sum(|i: int| g(i, j), lo1, n1),
            lo2,
            n2,
        ),
    decreases n1,
{
    if n1 > 0 {
        let m = (n1 - 1) as nat;
        lemma_sum_swap(g, lo1, m, lo2, n2);
        let last = lo1 + m;
        let a = |j: int| sum(|i: int| g(i, j), lo1, m);
        let b = |j: int| g(last, j);
        lemma_sum_add(a, b, lo2, n2);
        lemma_sum_ext(|j: int| sum(|i: int| g(i, j), lo1, n1), |j: int| a(j) + b(j), lo2, n2);
        let outer = |i: int| sum(|j: int| g(i, j), lo2, n2);
        assert(sum(outer, lo1, n1) == sum(outer, lo1, m) + outer(last));
        assert(outer(last) == sum(b, lo2, n2));
    } else {
        lemma_sum_zero(lo2, n2);
        lemma_sum_ext(|j: int| sum(|i: int| g(i, j), lo1, n1), |j: int| 0, lo2, n2);
    }
}

pub proof fn lemma_sum_zero(lo: int, n: nat)
    ensures
        sum(|j: int| 0, lo, n) == 0,
    decreases n,
{
    if n > 0 {
        lemma_sum_zero(lo, (n - 1) as nat);
    }
}

/// Terms congruent modulo P give sums congruent modulo P.
pub proof fn lemma_sum_congruent(f: spec_fn(int) -> int, g: spec_fn(int) -> int, lo: int, n: nat)
    requires
        forall|j: int| lo <= j < lo + n ==> fred(#[trigger] f(j)) == fred(g(j)),
    ensures
        fred(sum(f, lo, n)) == fred(sum(g, lo, n)),
    decreases n,
{
    if n > 0 {
        let m = (n - 1) as nat;
        lemma_sum_congruent(f, g, lo, m);
        let j = lo + m;
        assert(fred(f(j)) == fred(g(j)));
        crate::field::lemma_fred_add(sum(f, lo, m), f(j));
        crate::field::lemma_fred_add(sum(g, lo, m), g(j));
        crate::field::lemma_fred_add_right(fred(sum(f, lo, m)) as int, f(j));
        crate::field::lemma_fred_add_right(fred(sum(g, lo, m)) as int, g(j));
    }
}

/// A sum over `a + b` terms splits after the first `a`.
pub proof fn lemma_sum_split(f: spec_fn(int) -> int, lo: int, a: nat, b: nat)
    ensures
        sum(f, lo, a + b) == sum(f, lo, a) + sum(f, lo + a, b),
    decreases b,
{
    if b > 0 {
        lemma_sum_split(f, lo, a, (b - 1) as nat);
        assert((a + b - 1) as nat == a + (b - 1) as nat);
    }
}

} // verus!
