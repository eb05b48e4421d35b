use bulletproofs::scalar::thread_rng;
use bulletproofs::util::inner_product;
use bulletproofs::util::powers;
use bulletproofs::BulletproofGens;
use bulletproofs::InnerProductProof;
use bulletproofs::ProofError;
use bulletproofs::RistrettoElement;
use bulletproofs::Scalar;
use merlin::Transcript;

struct Statement {
    n: usize,
    g: Vec<RistrettoElement>,
    h: Vec<RistrettoElement>,
    g_factors: Vec<Scalar>,
    h_factors: Vec<Scalar>,
    q: RistrettoElement,
    p: RistrettoElement,
    proof: InnerProductProof,
}

fn make(n: usize) -> Statement {
    let mut rng = thread_rng();
    let bp_gens = BulletproofGens::new(n, 1);
    let g = bp_gens.share(0).G(n);
    let h = bp_gens.share(0).H(n);

    // Q would be determined upstream in the protocol, so we pick a random one.
    let q = RistrettoElement::hash_from_bytes(b"test point");

    // a and b are the vectors for which we want to prove c = <a,b>
    let a = Scalar::random_vec(&mut rng, n);
    let b = Scalar::random_vec(&mut rng, n);
    let c = inner_product(&a, &b);

    let g_factors: Vec<Scalar> = (0..n).map(|_| Scalar::one()).collect();

    // y_inv is (the inverse of) a random challenge
    let y_inv = Scalar::random(&mut rng);
    let h_factors = powers(&y_inv, n);

    // P would be determined upstream, but we need a correct P to check the proof.
    let mut scalars = a.clone();
    for i in 0..n {
        scalars.push(b[i].mul(&h_factors[i]));
    }
    scalars.push(c);
    let mut points = g.clone();
    points.extend(h.iter().cloned());
    points.push(q);
    let p = RistrettoElement::vartime_multiscalar_mul(&scalars, &points).unwrap();

    let mut prover = Transcript::new(b"innerproducttest");
    let proof = InnerProductProof::create(
        &mut prover,
        &q,
        &g_factors,
        &h_factors,
        g.clone(),
        h.clone(),
        a,
        b,
    );
    Statement { n, g, h, g_factors, h_factors, q, p, proof }
}

fn verify(s: &Statement, proof: &InnerProductProof, label: &'static [u8]) -> Result<(), ProofError> {
    let mut verifier = Transcript::new(label);
    proof.verify(s.n, &mut verifier, &s.g_factors, &s.h_factors, &s.p, &s.q, &s.g, &s.h)
}

fn create_and_verify(n: usize) {
    let s = make(n);
    assert!(verify(&s, &s.proof, b"innerproducttest").is_ok());
    let bytes = s.proof.to_bytes();
    assert_eq!(bytes.len(), s.proof.serialized_size());
    let decoded = InnerProductProof::from_bytes(&bytes).unwrap();
    assert!(verify(&s, &decoded, b"innerproducttest").is_ok());
    assert_eq!(decoded.to_bytes(), bytes);
}

#[test]
fn make_ipp_1() {
    create_and_verify(1);
}

#[test]
fn make_ipp_2() {
    create_and_verify(2);
}

#[test]
fn make_ipp_4() {
    create_and_verify(4);
}

#[test]
fn make_ipp_32() {
    create_and_verify(32);
}

#[test]
fn ipp_has_one_pair_of_points_per_halving() {
    for (n, rounds) in [(1usize, 0usize), (2, 1), (8, 3), (16, 4)] {
        let s = make(n);
        assert_eq!(s.proof.points_l().len(), rounds);
        assert_eq!(s.proof.points_r().len(), rounds);
        assert_eq!(s.proof.serialized_size(), 32 * (2 * rounds + 2));
        assert_eq!(s.proof.to_bytes().len(), 32 * (2 * rounds + 2));
    }
}

#[test]
fn ipp_without_rounds_hands_out_the_vectors() {
    let bp_gens = BulletproofGens::new(1, 1);
    let q = RistrettoElement::hash_from_bytes(b"test point");
    let mut t = Transcript::new(b"innerproducttest");
    let proof = InnerProductProof::create(
        &mut t,
        &q,
        &[Scalar::one()],
        &[Scalar::one()],
        bp_gens.share(0).G(1),
        bp_gens.share(0).H(1),
        vec![Scalar::from_u64(5)],
        vec![Scalar::from_u64(7)],
    );
    assert_eq!(proof.scalar_a(), Scalar::from_u64(5));
    assert_eq!(proof.scalar_b(), Scalar::from_u64(7));
    let mut expected = Scalar::from_u64(5).to_bytes().to_vec();
    expected.extend_from_slice(&Scalar::from_u64(7).to_bytes());
    assert_eq!(proof.to_bytes(), expected);
}

#[test]
fn ipp_is_bound_to_its_transcript_and_its_statement() {
    let s = make(4);
    assert_eq!(verify(&s, &s.proof, b"innerproducttesu"), Err(ProofError::VerificationError));
    let mut other = make(4);
    other.proof = s.proof.clone();
    assert_eq!(verify(&other, &other.proof, b"innerproducttest"), Err(ProofError::VerificationError));
    // a wrong size
    let mut verifier = Transcript::new(b"innerproducttest");
    let r = s.proof.verify(
        8,
        &mut verifier,
        &[s.g_factors.clone(), s.g_factors.clone()].concat(),
        &[s.h_factors.clone(), s.h_factors.clone()].concat(),
        &s.p,
        &s.q,
        &[s.g.clone(), s.g.clone()].concat(),
        &[s.h.clone(), s.h.clone()].concat(),
    );
    assert_eq!(r, Err(ProofError::VerificationError));
}

#[test]
fn ipp_with_a_changed_byte_does_not_verify() {
    let s = make(4);
    let bytes = s.proof.to_bytes();
    for position in [0usize, 40, 64 + 5, 128 + 1, 160 + 2] {
        let mut changed = bytes.clone();
        changed[position] ^= 1;
        match InnerProductProof::from_bytes(&changed) {
            Ok(proof) => {
                assert_eq!(verify(&s, &proof, b"innerproducttest"), Err(ProofError::VerificationError))
            }
            Err(e) => assert_eq!(e, ProofError::FormatError),
        }
    }
}

#[test]
fn ipp_decoding_refuses_bad_lengths_and_scalars() {
    assert_eq!(InnerProductProof::from_bytes(&[]).unwrap_err(), ProofError::FormatError);
    assert_eq!(InnerProductProof::from_bytes(&[0u8; 32]).unwrap_err(), ProofError::FormatError);
    assert_eq!(InnerProductProof::from_bytes(&[0u8; 63]).unwrap_err(), ProofError::FormatError);
    assert_eq!(InnerProductProof::from_bytes(&[0u8; 65]).unwrap_err(), ProofError::FormatError);
    // an odd number of points
    assert_eq!(InnerProductProof::from_bytes(&[0u8; 96]).unwrap_err(), ProofError::FormatError);
    // thirty-two rounds are too many, thirty-one are not
    assert_eq!(
        InnerProductProof::from_bytes(&vec![0u8; 32 * 66]).unwrap_err(),
        ProofError::FormatError
    );
    assert!(InnerProductProof::from_bytes(&vec![0u8; 32 * 64]).is_ok());
    // two zero scalars and no points
    let proof = InnerProductProof::from_bytes(&[0u8; 64]).unwrap();
    assert!(proof.scalar_a().is_zero());
    assert!(proof.points_l().is_empty());
    // a scalar that is not canonical
    let mut bytes = [0u8; 64];
    bytes[31] = 0xff;
    assert_eq!(InnerProductProof::from_bytes(&bytes).unwrap_err(), ProofError::FormatError);
    let mut bytes = [0u8; 64];
    bytes[63] = 0x10;
    bytes[32] = 0xed; // above the order in the low bytes
    bytes[33..48].copy_from_slice(&[0xd3, 0xf5, 0x5c, 0x1a, 0x63, 0x12, 0x58, 0xd6, 0x9c, 0xf7, 0xa2, 0xde, 0xf9, 0xde, 0x14]);
    assert_eq!(InnerProductProof::from_bytes(&bytes).unwrap_err(), ProofError::FormatError);
}

#[test]
fn verification_scalars_mirror_each_other() {
    let s = make(8);
    let mut t = Transcript::new(b"innerproducttest");
    let (u_sq, u_inv_sq, coefficients) = s.proof.verification_scalars(8, &mut t).unwrap();
    assert_eq!(u_sq.len(), 3);
    assert_eq!(u_inv_sq.len(), 3);
    assert_eq!(coefficients.len(), 8);
    for i in 0..3 {
        assert_eq!(u_sq[i].mul(&u_inv_sq[i]), Scalar::one());
    }
    // the coefficient of generator i is the inverse of that of its mirror
    for i in 0..8 {
        assert_eq!(coefficients[i].mul(&coefficients[7 - i]), Scalar::one());
    }
    // the first is the product of the inverses, the last that of the challenges
    let all = u_sq[0].mul(&u_sq[1]).mul(&u_sq[2]);
    assert_eq!(coefficients[7].mul(&coefficients[7]), all);
    // index 1 sets the bit of the last round, index 4 that of the first
    assert_eq!(coefficients[1], coefficients[0].mul(&u_sq[2]));
    assert_eq!(coefficients[2], coefficients[0].mul(&u_sq[1]));
    assert_eq!(coefficients[4], coefficients[0].mul(&u_sq[0]));
    assert_eq!(coefficients[6], coefficients[0].mul(&u_sq[0]).mul(&u_sq[1]));

    // a size that does not fit the number of rounds
    let mut t = Transcript::new(b"innerproducttest");
    assert_eq!(
        s.proof.verification_scalars(16, &mut t).unwrap_err(),
        ProofError::VerificationError
    );
}

#[test]
fn verification_scalars_refuse_a_neutral_point() {
    // two rounds, all points zero
    let proof = InnerProductProof::from_bytes(&[0u8; 32 * 6]).unwrap();
    let mut t = Transcript::new(b"innerproducttest");
    assert_eq!(proof.verification_scalars(4, &mut t).unwrap_err(), ProofError::VerificationError);
}
