//! The Fiat-Shamir transcript of the range proof protocol, over a Merlin
//! transcript.
//!
//! A transcript is modelled by the sequence of messages it has absorbed and
//! challenges it has produced. A challenge is a function of that sequence.

use crate::errors::ProofError;
use crate::ristretto::identity_encoding;
use crate::ristretto::CompressedRistretto;
use crate::scalar::group_order;
use crate::scalar::le_bytes;
use crate::scalar::le_nat;
use crate::scalar::Scalar;
use merlin::Transcript;
use vstd::prelude::*;
use vstd::string::StringSliceAdditionalSpecFns;

verus! {

#[verifier::external_type_specification]
#[verifier::external_body]
pub struct ExTranscript(merlin::Transcript);

/// One operation on a transcript.
pub enum TranscriptEvent {
    /// A message was absorbed under a label.
    Append { label: Seq<u8>, message: Seq<u8> },
    /// `len` challenge bytes were produced under a label.
    Challenge { label: Seq<u8>, len: nat },
}

/// The operations that a transcript has seen since it was created, the
/// first being the absorption of its own label.
pub uninterp spec fn transcript_log(t: Transcript) -> Seq<TranscriptEvent>;

/// The `len` challenge bytes that a transcript with the given history
/// produces under `label`.
pub uninterp spec fn challenge_output(log: Seq<TranscriptEvent>, label: Seq<u8>, len: nat) -> Seq<
    u8,
>;

/// The history after absorbing `message` under `label`.
pub open spec fn log_append(log: Seq<TranscriptEvent>, label: Seq<u8>, message: Seq<u8>) -> Seq<
    TranscriptEvent,
> {
    log.push(TranscriptEvent::Append { label, message })
}

/// The history after producing a scalar challenge under `label`.
pub open spec fn log_challenge(log: Seq<TranscriptEvent>, label: Seq<u8>) -> Seq<TranscriptEvent> {
    log.push(TranscriptEvent::Challenge { label, len: 64 })
}

/// The scalar challenge under `label`: 64 challenge bytes, reduced.
pub open spec fn challenge_value(log: Seq<TranscriptEvent>, label: Seq<u8>) -> nat {
    le_nat(challenge_output(log, label, 64)) % group_order()
}

/// The history after the domain separator of a range proof of `m` values
/// of `n` bits.
pub open spec fn log_rangeproof_domain_sep(log: Seq<TranscriptEvent>, n: nat, m: nat) -> Seq<
    TranscriptEvent,
> {
    let l1 = log_append(log, "dom-sep".spec_bytes(), "rangeproof v1".spec_bytes());
    let l2 = log_append(l1, "n".spec_bytes(), le_bytes(n, 8));
    log_append(l2, "m".spec_bytes(), le_bytes(m, 8))
}

/// The history after the domain separator of an inner product proof over
/// vectors of length `n`.
pub open spec fn log_innerproduct_domain_sep(log: Seq<TranscriptEvent>, n: nat) -> Seq<
    TranscriptEvent,
> {
    let l1 = log_append(log, "dom-sep".spec_bytes(), "ipp v1".spec_bytes());
    log_append(l1, "n".spec_bytes(), le_bytes(n, 8))
}

/// `Transcript::append_message` of `merlin`: absorbs the message under the
/// label. It panics on a message of more than `u32::MAX` bytes.
#[verifier::external_body]
fn transcript_append(t: &mut Transcript, label: &'static str, message: &[u8])
    requires
        message.len() <= u32::MAX,
    ensures
        transcript_log(*final(t)) == log_append(
            transcript_log(*old(t)),
            label.spec_bytes(),
            message@,
        ),
{
    t.append_message(label.as_bytes(), message)
}

/// `Transcript::append_u64` of `merlin`: absorbs the eight little-endian
/// bytes of `x` under the label.
#[verifier::external_body]
fn transcript_append_u64(t: &mut Transcript, label: &'static str, x: u64)
    ensures
        transcript_log(*final(t)) == log_append(
            transcript_log(*old(t)),
            label.spec_bytes(),
            le_bytes(x as nat, 8),
        ),
{
    t.append_u64(label.as_bytes(), x)
}

/// `Transcript::challenge_bytes` of `merlin`, for 64 bytes: they are a
/// function of the transcript's history and the label, and the transcript
/// records that it gave them.
#[verifier::external_body]
fn transcript_challenge(t: &mut Transcript, label: &'static str) -> (r: [u8; 64])
    ensures
        r@ == challenge_output(transcript_log(*old(t)), label.spec_bytes(), 64),
        transcript_log(*final(t)) == log_challenge(transcript_log(*old(t)), label.spec_bytes()),
{
    let mut buf = [0u8; 64];
    t.challenge_bytes(label.as_bytes(), &mut buf);
    buf
}

/// `Clone::clone` of `merlin::Transcript`: a transcript with the same
/// history.
#[verifier::external_body]
fn transcript_clone(t: &Transcript) -> (r: Transcript)
    ensures
        transcript_log(r) == transcript_log(*t),
{
    t.clone()
}

/// A copy of a transcript, with the same history.
pub fn copy_transcript(t: &Transcript) -> (r: Transcript)
    ensures
        transcript_log(r) == transcript_log(*t),
{
    transcript_clone(t)
}

/// Absorbs the domain separator of a range proof of `m` values of `n` bits.
pub fn rangeproof_domain_sep(t: &mut Transcript, n: u64, m: u64)
    ensures
        transcript_log(*final(t)) == log_rangeproof_domain_sep(
            transcript_log(*old(t)),
            n as nat,
            m as nat,
        ),
{
    let message = "rangeproof v1".as_bytes();
    proof {
        reveal_strlit("rangeproof v1");
        vstd::string::is_ascii_spec_bytes("rangeproof v1");
    }
    transcript_append(t, "dom-sep", message);
    transcript_append_u64(t, "n", n);
    transcript_append_u64(t, "m", m);
}

/// Absorbs the domain separator of an inner product proof over vectors of
/// length `n`.
pub fn innerproduct_domain_sep(t: &mut Transcript, n: u64)
    ensures
        transcript_log(*final(t)) == log_innerproduct_domain_sep(transcript_log(*old(t)), n as nat),
{
    let message = "ipp v1".as_bytes();
    proof {
        reveal_strlit("ipp v1");
        vstd::string::is_ascii_spec_bytes("ipp v1");
    }
    transcript_append(t, "dom-sep", message);
    transcript_append_u64(t, "n", n);
}

/// Absorbs the canonical encoding of a scalar.
pub fn append_scalar(t: &mut Transcript, label: &'static str, scalar: &Scalar)
    ensures
        transcript_log(*final(t)) == log_append(
            transcript_log(*old(t)),
            label.spec_bytes(),
            le_bytes(scalar@, 32),
        ),
{
    let bytes = scalar.to_bytes();
    transcript_append(t, label, bytes.as_slice());
}

/// Absorbs the encoding of a point.
pub fn append_point(t: &mut Transcript, label: &'static str, point: &CompressedRistretto)
    ensures
        transcript_log(*final(t)) == log_append(transcript_log(*old(t)), label.spec_bytes(), point@),
{
    transcript_append(t, label, point.as_bytes().as_slice());
}

/// Absorbs the encoding of a point, unless it is that of the neutral
/// element: then the transcript is left as it was and the proof is refused.
pub fn validate_and_append_point(
    t: &mut Transcript,
    label: &'static str,
    point: &CompressedRistretto,
) -> (r: Result<(), ProofError>)
    ensures
        point@ == identity_encoding() ==> r == Err::<(), ProofError>(ProofError::VerificationError)
            && transcript_log(*final(t)) == transcript_log(*old(t)),
        point@ != identity_encoding() ==> r is Ok && transcript_log(*final(t)) == log_append(
            transcript_log(*old(t)),
            label.spec_bytes(),
            point@,
        ),
{
    if point.is_identity() {
        Err(ProofError::VerificationError)
    } else {
        transcript_append(t, label, point.as_bytes().as_slice());
        Ok(())
    }
}

/// Produces a challenge scalar.
pub fn challenge_scalar(t: &mut Transcript, label: &'static str) -> (r: Scalar)
    ensures
        r@ == challenge_value(transcript_log(*old(t)), label.spec_bytes()),
        transcript_log(*final(t)) == log_challenge(transcript_log(*old(t)), label.spec_bytes()),
{
    let buf = transcript_challenge(t, label);
    Scalar::from_bytes_mod_order_wide(&buf)
}

} // verus!
