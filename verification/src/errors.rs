//! Errors of proving, verifying and of the multi-party protocol.

use vstd::prelude::*;

verus! {

/// What a party or the dealer of the multi-party protocol reports.
#[derive(Clone, Debug, PartialEq, Eq)]
pub enum MPCError {
    /// The dealer sent a challenge that would reveal the party's secrets.
    MaliciousDealer,
    /// The bitsize is not 8, 16, 32 or 64.
    InvalidBitsize,
    /// The number of parties is not a power of two.
    InvalidAggregationSize,
    /// The generators are too few for the bitsize or the number of parties.
    InvalidGeneratorsLength,
    /// The dealer was given a wrong number of bit commitments.
    WrongNumBitCommitments,
    /// The dealer was given a wrong number of polynomial commitments.
    WrongNumPolyCommitments,
    /// The dealer was given a wrong number of proof shares.
    WrongNumProofShares,
    /// Some parties' shares do not hold; their positions are listed in
    /// increasing order.
    MalformedProofShares { bad_shares: Vec<usize> },
}

/// What proving or verifying a range proof reports.
#[derive(Clone, Debug, PartialEq, Eq)]
pub enum ProofError {
    /// The proof does not verify.
    VerificationError,
    /// The bytes are not the encoding of a proof.
    FormatError,
    /// The numbers of values and of blinding factors differ.
    WrongNumBlindingFactors,
    /// The bitsize is not 8, 16, 32 or 64.
    InvalidBitsize,
    /// The number of values is not a power of two.
    InvalidAggregationSize,
    /// The generators are too few for the bitsize or the number of values.
    InvalidGeneratorsLength,
    /// The multi-party protocol failed in another way.
    ProvingError(MPCError),
}

/// An error of the multi-party protocol, with the list of bad shares as a
/// sequence.
pub enum MPCFailure {
    MaliciousDealer,
    InvalidBitsize,
    InvalidAggregationSize,
    InvalidGeneratorsLength,
    WrongNumBitCommitments,
    WrongNumPolyCommitments,
    WrongNumProofShares,
    MalformedProofShares { bad_shares: Seq<usize> },
}

impl View for MPCError {
    type V = MPCFailure;

    open spec fn view(&self) -> MPCFailure {
        match *self {
            MPCError::MaliciousDealer => MPCFailure::MaliciousDealer,
            MPCError::InvalidBitsize => MPCFailure::InvalidBitsize,
            MPCError::InvalidAggregationSize => MPCFailure::InvalidAggregationSize,
            MPCError::InvalidGeneratorsLength => MPCFailure::InvalidGeneratorsLength,
            MPCError::WrongNumBitCommitments => MPCFailure::WrongNumBitCommitments,
            MPCError::WrongNumPolyCommitments => MPCFailure::WrongNumPolyCommitments,
            MPCError::WrongNumProofShares => MPCFailure::WrongNumProofShares,
            MPCError::MalformedProofShares { bad_shares } => MPCFailure::MalformedProofShares {
                bad_shares: bad_shares@,
            },
        }
    }
}

/// An error of proving or verifying, with the list of bad shares as a
/// sequence.
pub enum ProofFailure {
    VerificationError,
    FormatError,
    WrongNumBlindingFactors,
    InvalidBitsize,
    InvalidAggregationSize,
    InvalidGeneratorsLength,
    ProvingError(MPCFailure),
}

impl View for ProofError {
    type V = ProofFailure;

    open spec fn view(&self) -> ProofFailure {
        match *self {
            ProofError::VerificationError => ProofFailure::VerificationError,
            ProofError::FormatError => ProofFailure::FormatError,
            ProofError::WrongNumBlindingFactors => ProofFailure::WrongNumBlindingFactors,
            ProofError::InvalidBitsize => ProofFailure::InvalidBitsize,
            ProofError::InvalidAggregationSize => ProofFailure::InvalidAggregationSize,
            ProofError::InvalidGeneratorsLength => ProofFailure::InvalidGeneratorsLength,
            ProofError::ProvingError(e) => ProofFailure::ProvingError(e@),
        }
    }
}

impl ProofFailure {
    /// The proving error that stands for an error of the multi-party
    /// protocol: the three errors on parameters keep their meaning, any
    /// other is wrapped.
    pub open spec fn of_mpc(e: MPCFailure) -> ProofFailure {
        match e {
            MPCFailure::InvalidBitsize => ProofFailure::InvalidBitsize,
            MPCFailure::InvalidAggregationSize => ProofFailure::InvalidAggregationSize,
            MPCFailure::InvalidGeneratorsLength => ProofFailure::InvalidGeneratorsLength,
            other => ProofFailure::ProvingError(other),
        }
    }
}

impl ProofError {
    /// The proving error that stands for an error of the multi-party
    /// protocol.
    pub fn from_mpc(e: MPCError) -> (r: ProofError)
        ensures
            r@ == ProofFailure::of_mpc(e@),
    {
        match e {
            MPCError::InvalidBitsize => ProofError::InvalidBitsize,
            MPCError::InvalidAggregationSize => ProofError::InvalidAggregationSize,
            MPCError::InvalidGeneratorsLength => ProofError::InvalidGeneratorsLength,
            other => ProofError::ProvingError(other),
        }
    }
}

} // verus!
