//! Verified core of a SuperNova-style non-uniform IVC library: prime-field
//! arithmetic, rank-1 constraint gadgets, the sum-check protocol and the
//! bookkeeping of the recursive SNARK.
pub mod field;
pub mod r1cs;
pub mod gadgets;
pub mod supernova;
pub mod errors;
pub mod instances;
pub mod spartan;
