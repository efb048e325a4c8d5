//! Verified programmable bootstrapping for a lattice-based FHE scheme over the Goldilocks
//! field, with the bookkeeping of a recursively proved bootstrap chain.
//!
//! - `field`, `poly`, `ring`, `sums`: field arithmetic and the ring Z_P[X]/(X^N + 1), with
//!   its commutative-ring laws; `ntt`, `roots`: multiplication through the number-theoretic
//!   transform, proved equal to the direct negacyclic convolution, and its root-of-unity table.
//! - `lwe`, `glwe`, `ggsw`: LWE, GLWE and gadget ciphertexts, the signed decomposition and the
//!   external product; `extprod` proves what the external product computes and `noise` bounds
//!   its error.
//! - `pbs`: one step of the bootstrap chain, the n + 2 step driver and the data of the hash
//!   commitments; `blind_rotation` proves the chain's output.
//! - `verify`: the verification protocol over a proof's public inputs.

pub mod field;
pub mod sums;
pub mod poly;
pub mod ring;
pub mod ntt;
pub mod roots;
pub mod params;
pub mod lwe;
pub mod glwe;
pub mod ggsw;
pub mod extprod;
pub mod noise;
pub mod shape;
pub mod pbs;
pub mod blind_rotation;
pub mod verify;
pub mod proof_data;
