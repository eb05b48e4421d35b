use bulletproofs::range_proof::dealer::Dealer;
use bulletproofs::range_proof::delta;
use bulletproofs::range_proof::party::Party;
use bulletproofs::BulletproofGens;
use bulletproofs::CompressedRistretto;
use bulletproofs::MPCError;
use bulletproofs::PedersenGens;
use bulletproofs::RangeProof;
use bulletproofs::Scalar;
use merlin::Transcript;
use rand::RngExt;

#[test]
fn test_delta() {
    let mut rng = rand::rng();
    let y = Scalar::random(&mut rng);
    let z = Scalar::random(&mut rng);

    // Choose n = 256 to ensure we overflow the group order during
    // the computation, to check that that's done correctly
    let n = 256;

    let z2 = z.mul(&z);
    let z3 = z2.mul(&z);
    let mut power_g = Scalar::zero();
    let mut exp_y = Scalar::one(); // start at y^0 = 1
    let mut exp_2 = Scalar::one(); // start at 2^0 = 1
    for _ in 0..n {
        power_g = power_g.add(&z.sub(&z2).mul(&exp_y).sub(&z3.mul(&exp_2)));

        exp_y = exp_y.mul(&y); // y^i -> y^(i+1)
        exp_2 = exp_2.add(&exp_2); // 2^i -> 2^(i+1)
    }

    assert_eq!(power_g, delta(n, 1, &y, &z),);
}

/// Given a bitsize `n`, test the following:
///
/// 1. Generate `m` random values and create a proof they are all in range;
/// 2. Serialize to wire format;
/// 3. Deserialize from wire format;
/// 4. Verify the proof.
fn singleparty_create_and_verify_helper(n: usize, m: usize) {
    // Both prover and verifier have access to the generators and the proof
    let max_bitsize = 64;
    let max_parties = 8;
    let pc_gens = PedersenGens::default();
    let bp_gens = BulletproofGens::new(max_bitsize, max_parties);

    // Prover's scope
    let (proof_bytes, value_commitments) = {
        let mut rng = rand::rng();

        // 0. Create witness data
        let (min, max) = (0u64, ((1u128 << n) - 1) as u64);
        let values: Vec<u64> = (0..m).map(|_| rng.random_range(min..max)).collect();
        let blindings: Vec<Scalar> = (0..m).map(|_| Scalar::random(&mut rng)).collect();

        // 1. Create the proof
        let mut transcript = Transcript::new(b"AggregatedRangeProofTest");
        let (proof, value_commitments) = RangeProof::prove_multiple(
            &bp_gens,
            &pc_gens,
            &mut transcript,
            &values,
            &blindings,
            n,
        )
        .unwrap();

        // 2. Return serialized proof and value commitments
        (proof.to_bytes(), value_commitments)
    };

    // Verifier's scope
    {
        // 3. Deserialize
        let proof: RangeProof = RangeProof::from_bytes(&proof_bytes).unwrap();

        // 4. Verify with the same customization label as above
        let mut transcript = Transcript::new(b"AggregatedRangeProofTest");

        assert!(proof
            .verify_multiple(&bp_gens, &pc_gens, &mut transcript, &value_commitments, n)
            .is_ok());
    }
}

#[test]
fn create_and_verify_n_32_m_1() {
    singleparty_create_and_verify_helper(32, 1);
}

#[test]
fn create_and_verify_n_32_m_2() {
    singleparty_create_and_verify_helper(32, 2);
}

#[test]
fn create_and_verify_n_32_m_4() {
    singleparty_create_and_verify_helper(32, 4);
}

#[test]
fn create_and_verify_n_32_m_8() {
    singleparty_create_and_verify_helper(32, 8);
}

#[test]
fn create_and_verify_n_64_m_1() {
    singleparty_create_and_verify_helper(64, 1);
}

#[test]
fn create_and_verify_n_64_m_2() {
    singleparty_create_and_verify_helper(64, 2);
}

#[test]
fn create_and_verify_n_64_m_4() {
    singleparty_create_and_verify_helper(64, 4);
}

#[test]
fn create_and_verify_n_64_m_8() {
    singleparty_create_and_verify_helper(64, 8);
}

fn singleparty_create_and_verify_batch_helper(nm: &[(usize, usize)]) {
    let max_bitsize = 64;
    let max_parties = 8;
    let pc_gens = PedersenGens::default();
    let bp_gens = BulletproofGens::new(max_bitsize, max_parties);

    // Provers
    let proofs: Vec<_> = nm
        .iter()
        .map(|&(n, m)| {
            let mut rng = rand::rng();

            let (min, max) = (0u64, ((1u128 << n) - 1) as u64);
            let values: Vec<u64> = (0..m).map(|_| rng.random_range(min..max)).collect();
            let blindings: Vec<Scalar> = (0..m).map(|_| Scalar::random(&mut rng)).collect();

            let mut transcript = Transcript::new(b"AggregatedRangeProofTest");
            let (proof, value_commitments) = RangeProof::prove_multiple(
                &bp_gens,
                &pc_gens,
                &mut transcript,
                &values,
                &blindings,
                n,
            )
            .unwrap();

            (proof.to_bytes(), value_commitments, n)
        })
        .collect();

    // Verifier
    {
        let mut rng = rand::rng();

        let proofs: Vec<(RangeProof, Vec<CompressedRistretto>, usize)> = proofs
            .into_iter()
            .map(|(proof_bytes, commitments, n)| {
                (RangeProof::from_bytes(&proof_bytes).unwrap(), commitments, n)
            })
            .collect();

        let mut transcripts = proofs
            .iter()
            .map(|_| Transcript::new(b"AggregatedRangeProofTest"))
            .collect::<Vec<_>>();

        assert!(RangeProof::verify_batch_with_rng(
            proofs
                .iter()
                .zip(&mut transcripts)
                .map(|((proof, commitments, n), transcript)| {
                    proof.verification_view(transcript, commitments, *n)
                })
                .collect(),
            &bp_gens,
            &pc_gens,
            &mut rng
        )
        .is_ok());
    }
}

#[test]
fn create_and_verify_batch_64_2() {
    singleparty_create_and_verify_batch_helper(&[(64, 2)]);
}

#[test]
fn create_and_verify_batch_64_2x2() {
    singleparty_create_and_verify_batch_helper(&[(64, 2), (64, 2)]);
}

#[test]
fn create_and_verify_batch_32_1_64_4_64_2_64_1() {
    singleparty_create_and_verify_batch_helper(&[(32, 1), (64, 4), (64, 2), (64, 1)]);
}

#[test]
fn detect_dishonest_party_during_aggregation() {
    // Simulate four parties, two of which will be dishonest and use a 64-bit value.
    let m = 4;
    let n = 32;

    let pc_gens = PedersenGens::default();
    let bp_gens = BulletproofGens::new(n, m);

    let mut rng = rand::rng();
    let mut transcript = Transcript::new(b"AggregatedRangeProofTest");

    // Parties 0, 2 are honest and use a 32-bit value
    let v0 = rng.random::<u32>() as u64;
    let v0_blinding = Scalar::random(&mut rng);
    let party0 = Party::new(&bp_gens, &pc_gens, v0, v0_blinding, n).unwrap();

    let v2 = rng.random::<u32>() as u64;
    let v2_blinding = Scalar::random(&mut rng);
    let party2 = Party::new(&bp_gens, &pc_gens, v2, v2_blinding, n).unwrap();

    // Parties 1, 3 are dishonest and use a 64-bit value
    let v1 = rng.random::<u64>();
    let v1_blinding = Scalar::random(&mut rng);
    let party1 = Party::new(&bp_gens, &pc_gens, v1, v1_blinding, n).unwrap();

    let v3 = rng.random::<u64>();
    let v3_blinding = Scalar::random(&mut rng);
    let party3 = Party::new(&bp_gens, &pc_gens, v3, v3_blinding, n).unwrap();

    let dealer = Dealer::new(&bp_gens, &pc_gens, &mut transcript, n, m).unwrap();

    let (party0, bit_com0) = party0.assign_position(0).unwrap();
    let (party1, bit_com1) = party1.assign_position(1).unwrap();
    let (party2, bit_com2) = party2.assign_position(2).unwrap();
    let (party3, bit_com3) = party3.assign_position(3).unwrap();

    let (dealer, bit_challenge) = dealer
        .receive_bit_commitments(vec![bit_com0, bit_com1, bit_com2, bit_com3])
        .unwrap();

    let (party0, poly_com0) = party0.apply_challenge(&bit_challenge);
    let (party1, poly_com1) = party1.apply_challenge(&bit_challenge);
    let (party2, poly_com2) = party2.apply_challenge(&bit_challenge);
    let (party3, poly_com3) = party3.apply_challenge(&bit_challenge);

    let (dealer, poly_challenge) = dealer
        .receive_poly_commitments(vec![poly_com0, poly_com1, poly_com2, poly_com3])
        .unwrap();

    let share0 = party0.apply_challenge(&poly_challenge).unwrap();
    let share1 = party1.apply_challenge(&poly_challenge).unwrap();
    let share2 = party2.apply_challenge(&poly_challenge).unwrap();
    let share3 = party3.apply_challenge(&poly_challenge).unwrap();

    match dealer.receive_shares(&[share0, share1, share2, share3]) {
        Err(MPCError::MalformedProofShares { bad_shares }) => {
            assert_eq!(bad_shares, vec![1, 3]);
        }
        Err(_) => {
            panic!("Got wrong error type from malformed shares");
        }
        Ok(_) => {
            panic!("The proof was malformed, but it was not detected");
        }
    }
}

#[test]
fn detect_dishonest_dealer_during_aggregation() {
    // Simulate one party
    let m = 1;
    let n = 32;

    let pc_gens = PedersenGens::default();
    let bp_gens = BulletproofGens::new(n, m);

    let mut rng = rand::rng();
    let mut transcript = Transcript::new(b"AggregatedRangeProofTest");

    let v0 = rng.random::<u32>() as u64;
    let v0_blinding = Scalar::random(&mut rng);
    let party0 = Party::new(&bp_gens, &pc_gens, v0, v0_blinding, n).unwrap();

    let dealer = Dealer::new(&bp_gens, &pc_gens, &mut transcript, n, m).unwrap();

    // Now do the protocol flow as normal....

    let (party0, bit_com0) = party0.assign_position(0).unwrap();

    let (dealer, bit_challenge) = dealer.receive_bit_commitments(vec![bit_com0]).unwrap();

    let (party0, poly_com0) = party0.apply_challenge(&bit_challenge);

    let (_dealer, mut poly_challenge) =
        dealer.receive_poly_commitments(vec![poly_com0]).unwrap();

    // But now simulate a malicious dealer choosing x = 0
    poly_challenge.x = Scalar::zero();

    let maybe_share0 = party0.apply_challenge(&poly_challenge);

    assert!(maybe_share0.unwrap_err() == MPCError::MaliciousDealer);
}
