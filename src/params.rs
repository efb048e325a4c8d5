use vstd::prelude::*;

verus! {

/// The dimensions shared by every object of one bootstrapping instance.
#[derive(Clone, Copy, Debug, PartialEq, Eq, Structural)]
pub struct Params {
    /// N: the number of coefficients of a ring element.
    pub ring_dim: usize,
    /// K = k + 1: the number of ring elements of a GLWE ciphertext (k masks and a body).
    pub glwe_size: usize,
    /// log2 of the decomposition base B.
    pub log_base: usize,
    /// ELL: the number of digits of a decomposition.
    pub levels: usize,
    /// n: the length of an LWE key.
    pub lwe_dim: usize,
}

/// Bound on the ring dimension, which keeps every index computation far from overflow.
pub const MAX_RING_DIM: usize = 0x10_0000;

/// Bound on the GLWE size.
pub const MAX_GLWE_SIZE: usize = 16;

impl Params {
    pub open spec fn wf(&self) -> bool {
        &&& 0 < self.ring_dim <= MAX_RING_DIM
        &&& 2 <= self.glwe_size <= MAX_GLWE_SIZE
        &&& 1 <= self.log_base
        &&& 1 <= self.levels
        &&& self.log_base * self.levels <= 64
        &&& self.lwe_dim <= (self.glwe_size - 1) * self.ring_dim
    }

    /// The number of mask ring elements of a GLWE ciphertext (k).
    pub open spec fn mask_count(&self) -> nat {
        (self.glwe_size - 1) as nat
    }

    /// The LWE dimension is far from overflowing any index computation.
    pub proof fn lemma_lwe_dim_bound(&self)
        requires
            self.wf(),
        ensures
            self.lwe_dim <= MAX_GLWE_SIZE * MAX_RING_DIM,
    {
        assert((self.glwe_size - 1) * self.ring_dim <= MAX_GLWE_SIZE * MAX_RING_DIM) by (nonlinear_arith)
            requires
                self.glwe_size <= MAX_GLWE_SIZE,
                self.glwe_size >= 2,
                self.ring_dim <= MAX_RING_DIM,
        ;
    }

    /// Whether the dimensions are usable together.
    pub fn is_valid(&self) -> (r: bool)
        ensures
            r == self.wf(),
    {
        if self.ring_dim == 0 || self.ring_dim > MAX_RING_DIM {
            return false;
        }
        if self.glwe_size < 2 || self.glwe_size > MAX_GLWE_SIZE {
            return false;
        }
        if self.log_base < 1 || self.levels < 1 {
            return false;
        }
        if self.log_base > 64 || self.levels > 64 {
            assert(self.log_base > 64 ==> self.log_base * self.levels > 64) by (nonlinear_arith)
                requires
                    self.levels >= 1,
            ;
            assert(self.levels > 64 ==> self.log_base * self.levels > 64) by (nonlinear_arith)
                requires
                    self.log_base >= 1,
            ;
            return false;
        }
        assert(self.log_base * self.levels <= 64 * 64) by (nonlinear_arith)
            requires
                self.log_base <= 64,
                self.levels <= 64,
        ;
        if self.log_base * self.levels > 64 {
            return false;
        }
        assert((self.glwe_size - 1) * self.ring_dim <= 15 * 0x10_0000) by (nonlinear_arith)
            requires
                self.glwe_size <= 16,
                self.glwe_size >= 2,
                self.ring_dim <= 0x10_0000,
        ;
        self.lwe_dim <= (self.glwe_size - 1) * self.ring_dim
    }
}

} // verus!
