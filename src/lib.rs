//! Aggregatable subvector commitments over the BLS12-381 pairing.
pub mod error;
pub mod field;
pub mod group;
pub mod poly;
pub mod scheme;

pub use crate::error::CustomError;
pub use crate::scheme::{
    aggregate_proofs, commit, key_gen, prove_pos, update_commit, update_proof, verify_pos, verify_upk, Commitment,
    Parameters, Proof, ProvingKey, UpdateKey, VerifyingKey,
};
