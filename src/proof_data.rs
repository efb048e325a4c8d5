use vstd::prelude::*;

verus! {

/// A proof as handed out by a remote proving service: the proof, the circuit's common data and
/// its verifier-only data, each as base64 text.
pub struct JsonProofData {
    pub proof: String,
    pub common: String,
    pub verifier_data: String,
}

} // verus!
