use crate::field::P;
use crate::ggsw::{glev_wf, ggsw_wf, Ggsw, Glev};
use crate::glwe::{glwe_wf, Glwe};
use crate::params::Params;
use crate::poly::{canon, ring_elem, Poly};
use vstd::prelude::*;

verus! {

/// Whether every value is a canonical field element.
pub fn all_canonical(v: &Vec<u64>) -> (r: bool)
    ensures
        r == canon(v@),
{
    let mut i: usize = 0;
    while i < v.len()
        invariant
            i <= v@.len(),
            forall|j: int| 0 <= j < i ==> #[trigger] v@[j] < P,
        decreases v@.len() - i,
    {
        if v[i] >= P {
            return false;
        }
        i = i + 1;
    }
    true
}

/// Whether the ring element has `n` canonical coefficients.
pub fn poly_is_wf(p: &Poly, n: usize) -> (r: bool)
    ensures
        r == ring_elem(p@, n as nat),
{
    p.coeffs.len() == n && all_canonical(&p.coeffs)
}

/// Whether the ciphertext has the dimensions of `params`.
pub fn glwe_is_wf(c: &Glwe, params: Params) -> (r: bool)
    ensures
        r == glwe_wf(c@, params),
{
    if c.polys.len() != params.glwe_size {
        return false;
    }
    let mut j: usize = 0;
    while j < c.polys.len()
        invariant
            c.polys@.len() == params.glwe_size,
            j <= c.polys@.len(),
            forall|i: int| 0 <= i < j ==> #[trigger] ring_elem(c@[i], params.ring_dim as nat),
        decreases c.polys@.len() - j,
    {
        if !poly_is_wf(&c.polys[j], params.ring_dim) {
            assert(!ring_elem(c@[j as int], params.ring_dim as nat));
            return false;
        }
        j = j + 1;
    }
    true
}

/// Whether the Glev has the dimensions of `params`.
pub fn glev_is_wf(g: &Glev, params: Params) -> (r: bool)
    ensures
        r == glev_wf(g@, params),
{
    if g.glwes.len() != params.levels {
        return false;
    }
    let mut l: usize = 0;
    while l < g.glwes.len()
        invariant
            g.glwes@.len() == params.levels,
            l <= g.glwes@.len(),
            forall|i: int| 0 <= i < l ==> #[trigger] glwe_wf(g@[i], params),
        decreases g.glwes@.len() - l,
    {
        if !glwe_is_wf(&g.glwes[l], params) {
            assert(!glwe_wf(g@[l as int], params));
            return false;
        }
        l = l + 1;
    }
    true
}

/// Whether the GGSW has the dimensions of `params`.
pub fn ggsw_is_wf(g: &Ggsw, params: Params) -> (r: bool)
    ensures
        r == ggsw_wf(g@, params),
{
    if g.glevs.len() != params.glwe_size {
        return false;
    }
    let mut j: usize = 0;
    while j < g.glevs.len()
        invariant
            g.glevs@.len() == params.glwe_size,
            j <= g.glevs@.len(),
            forall|i: int| 0 <= i < j ==> #[trigger] glev_wf(g@[i], params),
        decreases g.glevs@.len() - j,
    {
        if !glev_is_wf(&g.glevs[j], params) {
            assert(!glev_wf(g@[j as int], params));
            return false;
        }
        j = j + 1;
    }
    true
}

} // verus!
