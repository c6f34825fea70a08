//! Errors reported by the proof system.
use vstd::prelude::*;

verus! {

/// Errors of the folding scheme and of the proofs built on it.
#[derive(Debug, Clone, Copy, PartialEq, Eq)]
pub enum NovaError {
    /// The supplied initial inputs have the wrong length.
    InvalidInitialInputLength,
    /// A step produced outputs of the wrong length.
    InvalidStepOutputLength,
    /// A proof failed to verify.
    ProofVerifyError,
    /// An instance-witness pair does not satisfy its shape.
    UnSat,
    /// The constraint at this index is not satisfied.
    UnSatIndex(usize),
    /// Synthesizing a circuit failed.
    SynthesisError,
    /// A sum-check proof is malformed.
    InvalidSumcheckProof,
    /// A compressed commitment does not decompress.
    DecompressionError,
    /// The transcript could not produce a challenge.
    TranscriptError,
}

/// Errors of the non-uniform recursive proof.
#[derive(Debug, Clone, Copy, PartialEq, Eq)]
pub enum SuperNovaError {
    /// An error of the underlying folding scheme.
    NovaError(NovaError),
    /// The public parameters lack a commitment key.
    MissingCK,
    /// A named running instance fails at the given constraint.
    UnSatIndex(&'static str, usize),
}

} // verus!
