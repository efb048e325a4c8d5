use vstd::arithmetic::div_mod::{lemma_add_mod_noop, lemma_mod_twice, lemma_sub_mod_noop, lemma_small_mod};
use vstd::prelude::*;

verus! {

/// Order of the Goldilocks prime field, 2^64 - 2^32 + 1.
pub const P: u64 = 0xFFFF_FFFF_0000_0001;

/// Reduction of an integer into the canonical range `[0, P)`.
pub open spec fn fred(x: int) -> u64 {
    (x % (P as int)) as u64
}

pub open spec fn fadd(a: u64, b: u64) -> u64 {
    fred(a + b)
}

pub open spec fn fsub(a: u64, b: u64) -> u64 {
    fred(a - b)
}

pub open spec fn fneg(a: u64) -> u64 {
    fred(-a)
}

pub open spec fn fmul(a: u64, b: u64) -> u64 {
    fred(a * b)
}

/// The field element that stands for the integer `x` (which may be negative).
pub open spec fn fint(x: int) -> u64 {
    fred(x)
}

pub proof fn lemma_fred_bound(x: int)
    ensures
        fred(x) < P,
        fred(x) as int == x % (P as int),
{
}

pub proof fn lemma_fred_canonical(x: u64)
    requires
        x < P,
    ensures
        fred(x as int) == x,
{
    lemma_small_mod(x as nat, P as nat);
}

/// Reducing a partial result before adding more to it does not change the sum.
pub proof fn lemma_fred_add(x: int, y: int)
    ensures
        fred(fred(x) + y) == fred(x + y),
{
    lemma_add_mod_noop(x, y, P as int);
    lemma_mod_twice(y, P as int);
    lemma_add_mod_noop(x % (P as int), y, P as int);
}

pub proof fn lemma_fred_sub(x: int, y: int)
    ensures
        fred(fred(x) - y) == fred(x - y),
{
    lemma_sub_mod_noop(x, y, P as int);
    lemma_mod_twice(y, P as int);
    lemma_sub_mod_noop(x % (P as int), y, P as int);
}

pub proof fn lemma_fred_add_right(x: int, y: int)
    ensures
        fred(x + fred(y)) == fred(x + y),
{
    lemma_fred_add(y, x);
}

pub proof fn lemma_fred_sub_right(x: int, y: int)
    ensures
        fred(x - fred(y)) == fred(x - y),
{
    vstd::arithmetic::div_mod::lemma_sub_mod_noop_right(x, y, P as int);
}

/// `fneg` is an involution on canonical elements.
pub proof fn lemma_fneg_fneg(a: u64)
    requires
        a < P,
    ensures
        fneg(fneg(a)) == a,
{
    lemma_fred_sub_right(0, -a);
    lemma_fred_canonical(a);
}

/// Addition in the field.
pub fn fe_add(a: u64, b: u64) -> (r: u64)
    requires
        a < P,
        b < P,
    ensures
        r == fadd(a, b),
        r < P,
{
    let s: u128 = a as u128 + b as u128;
    if s >= P as u128 {
        proof {
            lemma_small_mod((s - P) as nat, P as nat);
            vstd::arithmetic::div_mod::lemma_mod_sub_multiples_vanish(s as int, P as int);
        }
        (s - P as u128) as u64
    } else {
        proof {
            lemma_small_mod(s as nat, P as nat);
        }
        s as u64
    }
}

/// Subtraction in the field.
pub fn fe_sub(a: u64, b: u64) -> (r: u64)
    requires
        a < P,
        b < P,
    ensures
        r == fsub(a, b),
        r < P,
{
    if a >= b {
        proof {
            lemma_small_mod((a - b) as nat, P as nat);
        }
        a - b
    } else {
        proof {
            lemma_small_mod((a - b + P) as nat, P as nat);
            vstd::arithmetic::div_mod::lemma_mod_add_multiples_vanish(a - b, P as int);
        }
        (P - b) + a
    }
}

/// Negation in the field.
pub fn fe_neg(a: u64) -> (r: u64)
    requires
        a < P,
    ensures
        r == fneg(a),
        r < P,
{
    fe_sub(0, a)
}

/// Multiplication in the field.
pub fn fe_mul(a: u64, b: u64) -> (r: u64)
    requires
        a < P,
        b < P,
    ensures
        r == fmul(a, b),
        r < P,
{
    let x: u128 = a as u128;
    let y: u128 = b as u128;
    assert(x * y <= 0xFFFF_FFFF_FFFF_FFFFu128 * 0xFFFF_FFFF_FFFF_FFFFu128) by (nonlinear_arith)
        requires
            x <= 0xFFFF_FFFF_FFFF_FFFFu128,
            y <= 0xFFFF_FFFF_FFFF_FFFFu128,
    ;
    let m: u128 = (x * y) % (P as u128);
    m as u64
}

/// Reduction of an arbitrary 64-bit value into the field.
pub fn fe_reduce(a: u64) -> (r: u64)
    ensures
        r == fred(a as int),
        r < P,
{
    if a >= P {
        proof {
            lemma_small_mod((a - P) as nat, P as nat);
            vstd::arithmetic::div_mod::lemma_mod_sub_multiples_vanish(a as int, P as int);
        }
        a - P
    } else {
        proof {
            lemma_small_mod(a as nat, P as nat);
        }
        a
    }
}

} // verus!
