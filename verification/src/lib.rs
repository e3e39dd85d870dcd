//! Titan: a transparent polynomial commitment scheme over the Pallas curve,
//! with the multilinear-polynomial toolkit and sum-check protocols it is built on.
pub mod field;
pub mod group;
pub mod sums;
pub mod mle;
pub mod traits;
pub mod multilinear;
pub mod utils;
pub mod transcript;
pub mod field_sumcheck;
pub mod group_sumcheck;
pub mod r1cs;
pub mod bulletproof;
pub mod merkle;
pub mod config;
pub mod sumcheck;
pub mod sumcheck_laws;
pub mod group_laws;
pub mod bp_laws;
pub mod pcs_laws;
pub mod pcs;
pub mod snark;
pub mod snark_prover;
pub mod snark_memory;
pub mod snark_openings;
