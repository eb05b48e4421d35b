//! Bulletproofs range proofs over the Ristretto255 group: short proofs
//! that committed values lie in a range, made by one prover or by several
//! parties together, and verified one by one or in a batch.

pub mod errors;
pub mod generators;
pub mod inner_product_proof;
pub mod range_proof;
pub mod ristretto;
pub mod scalar;
pub mod transcript;
pub mod util;

pub use crate::errors::MPCError;
pub use crate::errors::ProofError;
pub use crate::generators::BulletproofGens;
pub use crate::generators::BulletproofGensShare;
pub use crate::generators::PedersenGens;
pub use crate::inner_product_proof::InnerProductProof;
pub use crate::range_proof::RangeProof;
pub use crate::range_proof::RangeProofView;
pub use crate::range_proof::ValueCommitment;
pub use crate::ristretto::CompressedRistretto;
pub use crate::ristretto::RistrettoElement;
pub use crate::scalar::Scalar;
