use bulletproofs::transcript::append_point;
use bulletproofs::transcript::append_scalar;
use bulletproofs::transcript::challenge_scalar;
use bulletproofs::transcript::copy_transcript;
use bulletproofs::transcript::innerproduct_domain_sep;
use bulletproofs::transcript::rangeproof_domain_sep;
use bulletproofs::transcript::validate_and_append_point;
use bulletproofs::CompressedRistretto;
use bulletproofs::ProofError;
use bulletproofs::RistrettoElement;
use bulletproofs::Scalar;
use merlin::Transcript;

fn next_challenge(t: &mut Transcript) -> [u8; 32] {
    let mut out = [0u8; 32];
    t.challenge_bytes(b"probe", &mut out);
    out
}

#[test]
fn range_proof_domain_separator_is_three_messages() {
    let mut ours = Transcript::new(b"label");
    rangeproof_domain_sep(&mut ours, 32, 4);
    let mut theirs = Transcript::new(b"label");
    theirs.append_message(b"dom-sep", b"rangeproof v1");
    theirs.append_u64(b"n", 32);
    theirs.append_u64(b"m", 4);
    assert_eq!(next_challenge(&mut ours), next_challenge(&mut theirs));
    // the sizes matter
    let mut other = Transcript::new(b"label");
    rangeproof_domain_sep(&mut other, 32, 2);
    let mut again = Transcript::new(b"label");
    rangeproof_domain_sep(&mut again, 32, 4);
    assert_ne!(next_challenge(&mut other), next_challenge(&mut again));
}

#[test]
fn inner_product_domain_separator_is_two_messages() {
    let mut ours = Transcript::new(b"label");
    innerproduct_domain_sep(&mut ours, 64);
    let mut theirs = Transcript::new(b"label");
    theirs.append_message(b"dom-sep", b"ipp v1");
    theirs.append_message(b"n", &64u64.to_le_bytes());
    assert_eq!(next_challenge(&mut ours), next_challenge(&mut theirs));
}

#[test]
fn scalars_and_points_are_absorbed_as_their_bytes() {
    let s = Scalar::from_u64(123456789);
    let p = RistrettoElement::basepoint().compress();
    let mut ours = Transcript::new(b"label");
    append_scalar(&mut ours, "t_x", &s);
    append_point(&mut ours, "V", &p);
    let mut theirs = Transcript::new(b"label");
    theirs.append_message(b"t_x", &s.to_bytes());
    theirs.append_message(b"V", &p.to_bytes());
    assert_eq!(next_challenge(&mut ours), next_challenge(&mut theirs));
    // the label matters
    let mut other = Transcript::new(b"label");
    append_scalar(&mut other, "t_y", &s);
    append_point(&mut other, "V", &p);
    let mut again = Transcript::new(b"label");
    append_scalar(&mut again, "t_x", &s);
    append_point(&mut again, "V", &p);
    assert_ne!(next_challenge(&mut other), next_challenge(&mut again));
}

#[test]
fn challenge_scalar_reduces_sixty_four_bytes() {
    let mut ours = Transcript::new(b"label");
    let c = challenge_scalar(&mut ours, "y");
    let mut theirs = Transcript::new(b"label");
    let mut buf = [0u8; 64];
    theirs.challenge_bytes(b"y", &mut buf);
    assert_eq!(c, Scalar::from_bytes_mod_order_wide(&buf));
    // drawing a challenge moves both transcripts on alike
    assert_eq!(next_challenge(&mut ours), next_challenge(&mut theirs));
    let d = challenge_scalar(&mut ours, "y");
    assert_ne!(c, d);
}

#[test]
fn neutral_point_is_refused_and_not_absorbed() {
    let mut ours = Transcript::new(b"label");
    let r = validate_and_append_point(&mut ours, "A", &CompressedRistretto::identity());
    assert_eq!(r, Err(ProofError::VerificationError));
    let mut fresh = Transcript::new(b"label");
    assert_eq!(next_challenge(&mut ours), next_challenge(&mut fresh));

    let p = RistrettoElement::basepoint().compress();
    let mut ours = Transcript::new(b"label");
    assert_eq!(validate_and_append_point(&mut ours, "A", &p), Ok(()));
    let mut theirs = Transcript::new(b"label");
    theirs.append_message(b"A", &p.to_bytes());
    assert_eq!(next_challenge(&mut ours), next_challenge(&mut theirs));
}

#[test]
fn a_copy_has_the_same_history() {
    let mut t = Transcript::new(b"label");
    rangeproof_domain_sep(&mut t, 8, 1);
    let mut copy = copy_transcript(&t);
    assert_eq!(next_challenge(&mut t), next_challenge(&mut copy));
    // and lives on its own
    let mut t = Transcript::new(b"label");
    let mut copy = copy_transcript(&t);
    append_scalar(&mut t, "x", &Scalar::one());
    assert_ne!(next_challenge(&mut t), next_challenge(&mut copy));
}
