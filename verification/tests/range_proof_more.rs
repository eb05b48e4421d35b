use bulletproofs::range_proof::batch::BatchCollector;
use bulletproofs::range_proof::dealer::Dealer;
use bulletproofs::range_proof::delta;
use bulletproofs::range_proof::messages::ProofShare;
use bulletproofs::range_proof::party::Party;
use bulletproofs::range_proof::prove::PartyBlindings;
use bulletproofs::scalar::thread_rng;
use bulletproofs::BulletproofGens;
use bulletproofs::CompressedRistretto;
use bulletproofs::MPCError;
use bulletproofs::PedersenGens;
use bulletproofs::ProofError;
use bulletproofs::RangeProof;
use bulletproofs::RistrettoElement;
use bulletproofs::Scalar;
use merlin::Transcript;

fn blindings_for(m: usize, n: usize, seed: u64) -> Vec<PartyBlindings> {
    (0..m)
        .map(|j| {
            let base = seed + 1000 * j as u64;
            PartyBlindings {
                a_blinding: Scalar::from_u64(base + 1),
                s_blinding: Scalar::from_u64(base + 2),
                s_L: (0..n).map(|i| Scalar::from_u64(base + 10 + i as u64)).collect(),
                s_R: (0..n).map(|i| Scalar::from_u64(base + 500 + i as u64)).collect(),
                t_1_blinding: Scalar::from_u64(base + 3),
                t_2_blinding: Scalar::from_u64(base + 4),
            }
        })
        .collect()
}

fn next_challenge(t: &mut Transcript) -> [u8; 32] {
    let mut out = [0u8; 32];
    t.challenge_bytes(b"probe", &mut out);
    out
}

#[test]
fn delta_exact_values() {
    let y = Scalar::one();
    let z = Scalar::from_u64(2);
    // (2 - 4) * 8 - 8 * 255
    assert_eq!(delta(8, 1, &y, &z), Scalar::from_u64(2056).neg());
    // (2 - 4) * 16 - 8 * 255 * (1 + 2)
    assert_eq!(delta(8, 2, &y, &z), Scalar::from_u64(6152).neg());
    // y = 3, z = 1: (1 - 1) * sum - 1 * 255 * 1
    assert_eq!(delta(8, 1, &Scalar::from_u64(3), &Scalar::one()), Scalar::from_u64(255).neg());
    assert!(delta(8, 1, &y, &Scalar::zero()).is_zero());
    assert!(delta(0, 0, &y, &z).is_zero());
}

#[test]
fn delta_for_several_values_is_the_sum_by_powers() {
    let mut rng = thread_rng();
    let y = Scalar::random(&mut rng);
    let z = Scalar::random(&mut rng);
    let (n, m) = (16usize, 4usize);
    let z2 = z.mul(&z);
    let mut want = Scalar::zero();
    let mut exp_y = Scalar::one();
    for _ in 0..n * m {
        want = want.add(&z.sub(&z2).mul(&exp_y));
        exp_y = exp_y.mul(&y);
    }
    let mut exp_z = z2.mul(&z);
    for _ in 0..m {
        let mut exp_2 = Scalar::one();
        for _ in 0..n {
            want = want.sub(&exp_z.mul(&exp_2));
            exp_2 = exp_2.add(&exp_2);
        }
        exp_z = exp_z.mul(&z);
    }
    assert_eq!(delta(n, m, &y, &z), want);
}

#[test]
fn single_proof_of_the_example() {
    let pc_gens = PedersenGens::default();
    let bp_gens = BulletproofGens::new(64, 1);
    let secret_value = 1037578891u64;
    let blinding = Scalar::from_u64(0x1234_5678_9abc_def0);
    let mut prover_transcript = Transcript::new(b"doctest example");
    let (proof, committed_value) = RangeProof::prove_single(
        &bp_gens,
        &pc_gens,
        &mut prover_transcript,
        secret_value,
        &blinding,
        32,
    )
    .unwrap();
    assert_eq!(proof.to_bytes().len(), 608);
    assert_eq!(
        committed_value.to_bytes(),
        pc_gens.commit(Scalar::from_u64(secret_value), blinding).compress().to_bytes()
    );

    let mut verifier_transcript = Transcript::new(b"doctest example");
    assert!(proof
        .verify_single(&bp_gens, &pc_gens, &mut verifier_transcript, &committed_value, 32)
        .is_ok());
    // the verifier goes on to absorb the last two scalars and to draw one
    // more challenge, so that the two transcripts end apart
    assert_ne!(next_challenge(&mut prover_transcript), next_challenge(&mut verifier_transcript));

    let mut other_transcript = Transcript::new(b"doctest exampleX");
    assert_eq!(
        proof.verify_single(&bp_gens, &pc_gens, &mut other_transcript, &committed_value, 32),
        Err(ProofError::VerificationError)
    );
    // the wrong bitsize
    let mut verifier_transcript = Transcript::new(b"doctest example");
    assert_eq!(
        proof.verify_single(&bp_gens, &pc_gens, &mut verifier_transcript, &committed_value, 16),
        Err(ProofError::VerificationError)
    );
}

#[test]
fn aggregated_proof_of_the_example() {
    let pc_gens = PedersenGens::default();
    let bp_gens = BulletproofGens::new(64, 16);
    let secrets = [4242344947u64, 3718732727u64, 2255562556u64, 2526146994u64];
    let mut rng = thread_rng();
    let blindings = Scalar::random_vec(&mut rng, 4);
    let mut prover_transcript = Transcript::new(b"doctest example");
    let (proof, commitments) = RangeProof::prove_multiple(
        &bp_gens,
        &pc_gens,
        &mut prover_transcript,
        &secrets,
        &blindings,
        32,
    )
    .unwrap();
    assert_eq!(proof.to_bytes().len(), 736);
    assert_eq!(commitments.len(), 4);
    for j in 0..4 {
        assert_eq!(
            commitments[j].to_bytes(),
            pc_gens.commit(Scalar::from_u64(secrets[j]), blindings[j]).compress().to_bytes()
        );
    }
    let mut verifier_transcript = Transcript::new(b"doctest example");
    assert!(proof
        .verify_multiple(&bp_gens, &pc_gens, &mut verifier_transcript, &commitments, 32)
        .is_ok());

    // a commitment swapped for another
    let mut swapped = commitments.clone();
    swapped[2] = commitments[1];
    let mut verifier_transcript = Transcript::new(b"doctest example");
    assert_eq!(
        proof.verify_multiple(&bp_gens, &pc_gens, &mut verifier_transcript, &swapped, 32),
        Err(ProofError::VerificationError)
    );
    // a commitment that is no point
    let mut broken = commitments.clone();
    broken[0] = CompressedRistretto([0xff; 32]);
    let mut verifier_transcript = Transcript::new(b"doctest example");
    assert_eq!(
        proof.verify_multiple(&bp_gens, &pc_gens, &mut verifier_transcript, &broken, 32),
        Err(ProofError::VerificationError)
    );
}

#[test]
fn proof_sizes_for_all_bitsizes() {
    let pc_gens = PedersenGens::default();
    let bp_gens = BulletproofGens::new(64, 2);
    for (n, m, rounds) in [(8usize, 1usize, 3usize), (8, 2, 4), (16, 1, 4), (16, 2, 5), (64, 1, 6)] {
        let values: Vec<u64> = (0..m).map(|j| 200 + j as u64).collect();
        let blindings: Vec<Scalar> = (0..m).map(|j| Scalar::from_u64(77 + j as u64)).collect();
        let mut t = Transcript::new(b"sizes");
        let (proof, commitments) =
            RangeProof::prove_multiple(&bp_gens, &pc_gens, &mut t, &values, &blindings, n).unwrap();
        let bytes = proof.to_bytes();
        assert_eq!(bytes.len(), 32 * (7 + 2 * rounds + 2));
        let decoded = RangeProof::from_bytes(&bytes).unwrap();
        assert_eq!(decoded.to_bytes(), bytes);
        let mut t = Transcript::new(b"sizes");
        assert!(decoded.verify_multiple(&bp_gens, &pc_gens, &mut t, &commitments, n).is_ok());
    }
}

#[test]
fn largest_and_smallest_values_are_in_range() {
    let pc_gens = PedersenGens::default();
    let bp_gens = BulletproofGens::new(64, 2);
    for (n, values) in [(8usize, [0u64, 255u64]), (64, [0, u64::MAX])] {
        let blindings = vec![Scalar::zero(), Scalar::from_u64(9)];
        let mut t = Transcript::new(b"edges");
        let (proof, commitments) =
            RangeProof::prove_multiple(&bp_gens, &pc_gens, &mut t, &values, &blindings, n).unwrap();
        // nothing committed with nothing: the neutral element
        assert!(commitments[0].is_identity());
        let mut t = Transcript::new(b"edges");
        assert!(proof.verify_multiple(&bp_gens, &pc_gens, &mut t, &commitments, n).is_ok());
    }
}

#[test]
fn a_value_out_of_range_gives_a_proof_that_fails() {
    let pc_gens = PedersenGens::default();
    let bp_gens = BulletproofGens::new(8, 1);
    let mut t = Transcript::new(b"out of range");
    let (proof, commitment) =
        RangeProof::prove_single(&bp_gens, &pc_gens, &mut t, 256, &Scalar::from_u64(5), 8).unwrap();
    let mut t = Transcript::new(b"out of range");
    assert_eq!(
        proof.verify_single(&bp_gens, &pc_gens, &mut t, &commitment, 8),
        Err(ProofError::VerificationError)
    );
}

#[test]
fn given_blindings_give_the_same_proof_again() {
    let pc_gens = PedersenGens::default();
    let bp_gens = BulletproofGens::new(8, 2);
    let values = [17u64, 200u64];
    let blindings = [Scalar::from_u64(11), Scalar::from_u64(12)];
    let rand = blindings_for(2, 8, 5);
    let mut ta = Transcript::new(b"fixed");
    let (proof_a, coms_a) = RangeProof::prove_multiple_with_blindings(
        &bp_gens, &pc_gens, &mut ta, &values, &blindings, 8, &rand,
    )
    .unwrap();
    let mut tb = Transcript::new(b"fixed");
    let (proof_b, coms_b) = RangeProof::prove_multiple_with_blindings(
        &bp_gens, &pc_gens, &mut tb, &values, &blindings, 8, &rand,
    )
    .unwrap();
    assert_eq!(proof_a.to_bytes(), proof_b.to_bytes());
    assert_eq!(coms_a, coms_b);
    let mut t = Transcript::new(b"fixed");
    assert!(proof_a
        .verify_multiple_with_factor(&bp_gens, &pc_gens, &mut t, &coms_a, 8, Scalar::from_u64(3))
        .is_ok());
    // other blindings, another proof of the same commitments
    let mut tc = Transcript::new(b"fixed");
    let (proof_c, coms_c) = RangeProof::prove_multiple_with_blindings(
        &bp_gens, &pc_gens, &mut tc, &values, &blindings, 8, &blindings_for(2, 8, 6),
    )
    .unwrap();
    assert_ne!(proof_a.to_bytes(), proof_c.to_bytes());
    assert_eq!(coms_a, coms_c);
    // the random prover draws fresh ones each time
    let mut td = Transcript::new(b"fixed");
    let (proof_d, _) =
        RangeProof::prove_multiple(&bp_gens, &pc_gens, &mut td, &values, &blindings, 8).unwrap();
    let mut te = Transcript::new(b"fixed");
    let (proof_e, _) =
        RangeProof::prove_multiple(&bp_gens, &pc_gens, &mut te, &values, &blindings, 8).unwrap();
    assert_ne!(proof_d.to_bytes(), proof_e.to_bytes());
}

#[test]
fn bad_bitsize_is_refused_before_the_transcript_is_touched() {
    let pc_gens = PedersenGens::default();
    let bp_gens = BulletproofGens::new(128, 2);
    for n in [0usize, 7, 65, 128] {
        let mut t = Transcript::new(b"refused");
        let r = RangeProof::prove_multiple(&bp_gens, &pc_gens, &mut t, &[1], &[Scalar::one()], n);
        assert_eq!(r.unwrap_err(), ProofError::InvalidBitsize);
        let mut fresh = Transcript::new(b"refused");
        assert_eq!(next_challenge(&mut t), next_challenge(&mut fresh));
    }
    let mut t = Transcript::new(b"refused");
    let r = RangeProof::prove_single(&bp_gens, &pc_gens, &mut t, 1, &Scalar::one(), 65);
    assert_eq!(r.unwrap_err(), ProofError::InvalidBitsize);
}

#[test]
fn bad_parameters_are_refused_in_order() {
    let pc_gens = PedersenGens::default();
    let bp_gens = BulletproofGens::new(16, 2);
    let one = Scalar::one();
    let prove = |values: &[u64], blindings: &[Scalar], n: usize| {
        let mut t = Transcript::new(b"refused");
        let r = RangeProof::prove_multiple(&bp_gens, &pc_gens, &mut t, values, blindings, n);
        let mut fresh = Transcript::new(b"refused");
        assert_eq!(next_challenge(&mut t), next_challenge(&mut fresh));
        r.unwrap_err()
    };
    // the numbers of values and blindings come first
    assert_eq!(prove(&[1, 2], &[one], 65), ProofError::WrongNumBlindingFactors);
    assert_eq!(prove(&[1], &[one, one], 8), ProofError::WrongNumBlindingFactors);
    // then the bitsize
    assert_eq!(prove(&[1, 2, 3], &[one, one, one], 65), ProofError::InvalidBitsize);
    // then the number of values
    assert_eq!(prove(&[1, 2, 3], &[one, one, one], 32), ProofError::InvalidAggregationSize);
    assert_eq!(prove(&[], &[], 8), ProofError::InvalidAggregationSize);
    // then the generators
    assert_eq!(prove(&[1], &[one], 32), ProofError::InvalidGeneratorsLength);
    assert_eq!(prove(&[1, 2, 3, 4], &[one, one, one, one], 8), ProofError::InvalidGeneratorsLength);
}

#[test]
fn verification_refuses_bad_parameters() {
    let pc_gens = PedersenGens::default();
    let bp_gens = BulletproofGens::new(16, 1);
    let mut t = Transcript::new(b"verify");
    let (proof, commitment) =
        RangeProof::prove_single(&bp_gens, &pc_gens, &mut t, 5, &Scalar::one(), 8).unwrap();
    let mut t = Transcript::new(b"verify");
    assert_eq!(
        proof.verify_single(&bp_gens, &pc_gens, &mut t, &commitment, 9),
        Err(ProofError::InvalidBitsize)
    );
    let mut t = Transcript::new(b"verify");
    assert_eq!(
        proof.verify_single(&bp_gens, &pc_gens, &mut t, &commitment, 32),
        Err(ProofError::InvalidGeneratorsLength)
    );
    let mut t = Transcript::new(b"verify");
    assert_eq!(
        proof.verify_multiple(&bp_gens, &pc_gens, &mut t, &[commitment, commitment], 8),
        Err(ProofError::InvalidGeneratorsLength)
    );
    // with larger generators the proof is the same proof
    let larger = BulletproofGens::new(64, 4);
    let mut t = Transcript::new(b"verify");
    assert!(proof.verify_single(&larger, &pc_gens, &mut t, &commitment, 8).is_ok());
}

#[test]
fn commitments_may_be_given_as_points() {
    let pc_gens = PedersenGens::default();
    let bp_gens = BulletproofGens::new(8, 1);
    let mut t = Transcript::new(b"points");
    let (proof, commitment) =
        RangeProof::prove_single(&bp_gens, &pc_gens, &mut t, 99, &Scalar::from_u64(4), 8).unwrap();
    let point: RistrettoElement = commitment.decompress().unwrap();
    let mut t = Transcript::new(b"points");
    assert!(proof.verify_single(&bp_gens, &pc_gens, &mut t, &point, 8).is_ok());
    let mut t = Transcript::new(b"points");
    assert!(proof.verify_single(&bp_gens, &pc_gens, &mut t, &(point, commitment), 8).is_ok());
    let mut t = Transcript::new(b"points");
    assert!(proof.verify_multiple(&bp_gens, &pc_gens, &mut t, &[point], 8).is_ok());
    // a pair whose point is another commitment
    let other = pc_gens.commit(Scalar::from_u64(98), Scalar::from_u64(4));
    let mut t = Transcript::new(b"points");
    assert_eq!(
        proof.verify_single(&bp_gens, &pc_gens, &mut t, &(other, commitment), 8),
        Err(ProofError::VerificationError)
    );
}

#[test]
fn decoding_refuses_bad_lengths_and_scalars() {
    assert_eq!(RangeProof::from_bytes(&[]).unwrap_err(), ProofError::FormatError);
    assert_eq!(RangeProof::from_bytes(&[0u8; 33]).unwrap_err(), ProofError::FormatError);
    assert_eq!(RangeProof::from_bytes(&[0u8; 6 * 32]).unwrap_err(), ProofError::FormatError);
    // seven blocks leave nothing for the inner product proof
    assert_eq!(RangeProof::from_bytes(&[0u8; 7 * 32]).unwrap_err(), ProofError::FormatError);
    assert_eq!(RangeProof::from_bytes(&[0u8; 8 * 32]).unwrap_err(), ProofError::FormatError);
    assert_eq!(RangeProof::from_bytes(&[0u8; 10 * 32]).unwrap_err(), ProofError::FormatError);
    assert!(RangeProof::from_bytes(&[0u8; 9 * 32]).is_ok());
    assert!(RangeProof::from_bytes(&[0u8; 11 * 32]).is_ok());
    // each of the five scalars must be canonical
    for block in [4usize, 5, 6, 7, 8] {
        let mut bytes = [0u8; 9 * 32];
        bytes[block * 32 + 31] = 0x80;
        assert_eq!(RangeProof::from_bytes(&bytes).unwrap_err(), ProofError::FormatError);
    }
    // points are not looked at when decoding
    let mut bytes = [0u8; 9 * 32];
    bytes[0..32].copy_from_slice(&[0xff; 32]);
    let proof = RangeProof::from_bytes(&bytes).unwrap();
    assert_eq!(proof.to_bytes(), bytes.to_vec());
}

#[test]
fn a_changed_byte_makes_a_proof_fail() {
    let pc_gens = PedersenGens::default();
    let bp_gens = BulletproofGens::new(8, 1);
    let mut t = Transcript::new(b"tamper");
    let (proof, commitment) =
        RangeProof::prove_single(&bp_gens, &pc_gens, &mut t, 200, &Scalar::from_u64(4), 8).unwrap();
    let bytes = proof.to_bytes();
    for position in [0usize, 33, 70, 100, 128, 161, 200, 230, 300, 400, 450] {
        let mut changed = bytes.clone();
        changed[position] ^= 4;
        match RangeProof::from_bytes(&changed) {
            Ok(p) => {
                let mut t = Transcript::new(b"tamper");
                assert_eq!(
                    p.verify_single(&bp_gens, &pc_gens, &mut t, &commitment, 8),
                    Err(ProofError::VerificationError)
                );
            }
            Err(e) => assert_eq!(e, ProofError::FormatError),
        }
    }
}

#[test]
fn a_batch_with_one_bad_proof_fails() {
    let pc_gens = PedersenGens::default();
    let bp_gens = BulletproofGens::new(16, 2);
    let mut made = Vec::new();
    for (n, m) in [(8usize, 1usize), (16, 2), (8, 2)] {
        let values: Vec<u64> = (0..m).map(|j| 100 + j as u64).collect();
        let blindings: Vec<Scalar> = (0..m).map(|j| Scalar::from_u64(31 + j as u64)).collect();
        let mut t = Transcript::new(b"batch");
        let (proof, commitments) =
            RangeProof::prove_multiple(&bp_gens, &pc_gens, &mut t, &values, &blindings, n).unwrap();
        made.push((proof, commitments, n));
    }
    let verify = |made: &Vec<(RangeProof, Vec<CompressedRistretto>, usize)>| {
        let mut transcripts: Vec<Transcript> =
            made.iter().map(|_| Transcript::new(b"batch")).collect();
        RangeProof::verify_batch(
            made.iter()
                .zip(&mut transcripts)
                .map(|((proof, commitments, n), t)| proof.verification_view(t, commitments, *n))
                .collect(),
            &bp_gens,
            &pc_gens,
        )
    };
    assert!(verify(&made).is_ok());
    // each alone verifies as well
    for (proof, commitments, n) in made.iter() {
        let mut t = Transcript::new(b"batch");
        assert!(proof.verify_multiple(&bp_gens, &pc_gens, &mut t, commitments, *n).is_ok());
    }
    // one byte of one proof
    let mut bytes = made[1].0.to_bytes();
    bytes[130] ^= 1;
    made[1].0 = RangeProof::from_bytes(&bytes).unwrap();
    assert_eq!(verify(&made), Err(ProofError::VerificationError));
    // an empty batch has nothing to refuse
    assert!(verify(&Vec::new()).is_ok());
}

#[test]
fn batch_factors_may_be_given() {
    let pc_gens = PedersenGens::default();
    let bp_gens = BulletproofGens::new(8, 2);
    let mut t = Transcript::new(b"batch");
    let (proof_a, coms_a) =
        RangeProof::prove_multiple(&bp_gens, &pc_gens, &mut t, &[3, 4], &[Scalar::one(), Scalar::one()], 8)
            .unwrap();
    let mut t = Transcript::new(b"batch");
    let (proof_b, coms_b) =
        RangeProof::prove_single(&bp_gens, &pc_gens, &mut t, 9, &Scalar::from_u64(2), 8).unwrap();
    let coms_b = vec![coms_b];
    let mut ta = Transcript::new(b"batch");
    let mut tb = Transcript::new(b"batch");
    let batch = vec![proof_a.verification_view(&mut ta, &coms_a, 8), proof_b.verification_view(&mut tb, &coms_b, 8)];
    let factors = [Scalar::from_u64(5), Scalar::from_u64(6)];
    assert!(RangeProof::verify_batch_with_factors(batch, &bp_gens, &pc_gens, &factors).is_ok());

    // the collector, step by step
    let mut ta = Transcript::new(b"batch");
    let mut tb = Transcript::new(b"batch");
    let mut collector = BatchCollector::new(&bp_gens, &pc_gens);
    collector
        .add_proof_with_factor(proof_a.verification_view(&mut ta, &coms_a, 8), Scalar::from_u64(5))
        .unwrap();
    // a proof that cannot be replayed leaves the collector as it was
    let mut tc = Transcript::new(b"batch");
    assert_eq!(
        collector.add_proof_with_factor(proof_b.verification_view(&mut tc, &coms_b, 9), Scalar::one()),
        Err(ProofError::InvalidBitsize)
    );
    let mut rng = thread_rng();
    collector.add_proof(proof_b.verification_view(&mut tb, &coms_b, 8), &mut rng).unwrap();
    assert!(collector.verify().is_ok());
    assert!(BatchCollector::new(&bp_gens, &pc_gens).verify().is_ok());
}

#[test]
fn party_and_dealer_refuse_bad_parameters() {
    let pc_gens = PedersenGens::default();
    let bp_gens = BulletproofGens::new(16, 2);
    let one = Scalar::one();
    assert_eq!(Party::new(&bp_gens, &pc_gens, 1, one, 65).err(), Some(MPCError::InvalidBitsize));
    assert_eq!(Party::new(&bp_gens, &pc_gens, 1, one, 0).err(), Some(MPCError::InvalidBitsize));
    assert_eq!(
        Party::new(&bp_gens, &pc_gens, 1, one, 32).err(),
        Some(MPCError::InvalidGeneratorsLength)
    );
    let party = Party::new(&bp_gens, &pc_gens, 1, one, 8).unwrap();
    assert_eq!(party.assign_position(2).err(), Some(MPCError::InvalidGeneratorsLength));

    let mut t = Transcript::new(b"dealer");
    assert_eq!(Dealer::new(&bp_gens, &pc_gens, &mut t, 65, 1).err(), Some(MPCError::InvalidBitsize));
    assert_eq!(
        Dealer::new(&bp_gens, &pc_gens, &mut t, 65, 3).err(),
        Some(MPCError::InvalidBitsize)
    );
    assert_eq!(
        Dealer::new(&bp_gens, &pc_gens, &mut t, 8, 3).err(),
        Some(MPCError::InvalidAggregationSize)
    );
    assert_eq!(
        Dealer::new(&bp_gens, &pc_gens, &mut t, 8, 0).err(),
        Some(MPCError::InvalidAggregationSize)
    );
    assert_eq!(
        Dealer::new(&bp_gens, &pc_gens, &mut t, 32, 1).err(),
        Some(MPCError::InvalidGeneratorsLength)
    );
    assert_eq!(
        Dealer::new(&bp_gens, &pc_gens, &mut t, 8, 4).err(),
        Some(MPCError::InvalidGeneratorsLength)
    );
    // none of this touched the transcript
    let mut fresh = Transcript::new(b"dealer");
    assert_eq!(next_challenge(&mut t), next_challenge(&mut fresh));
}

#[test]
fn dealer_counts_what_it_is_given() {
    let pc_gens = PedersenGens::default();
    let bp_gens = BulletproofGens::new(8, 2);
    let new_parties = || {
        (
            Party::new(&bp_gens, &pc_gens, 1, Scalar::one(), 8).unwrap(),
            Party::new(&bp_gens, &pc_gens, 2, Scalar::one(), 8).unwrap(),
        )
    };

    let (party_a, _p1) = new_parties();
    let mut t = Transcript::new(b"count");
    let dealer = Dealer::new(&bp_gens, &pc_gens, &mut t, 8, 2).unwrap();
    let (_, b0) = party_a.assign_position(0).unwrap();
    assert_eq!(
        dealer.receive_bit_commitments(vec![b0]).err(),
        Some(MPCError::WrongNumBitCommitments)
    );

    let (party_a, proof_a) = new_parties();
    let mut t = Transcript::new(b"count");
    let dealer = Dealer::new(&bp_gens, &pc_gens, &mut t, 8, 2).unwrap();
    let (party_a, b0) = party_a.assign_position(0).unwrap();
    let (proof_a, b1) = proof_a.assign_position(1).unwrap();
    let (dealer, bit_challenge) = dealer.receive_bit_commitments(vec![b0, b1]).unwrap();
    let (party_a, c0) = party_a.apply_challenge(&bit_challenge);
    let (proof_a, coms_a) = proof_a.apply_challenge(&bit_challenge);
    assert_eq!(
        dealer.receive_poly_commitments(vec![c0, coms_a, c0]).err(),
        Some(MPCError::WrongNumPolyCommitments)
    );

    let mut t = Transcript::new(b"count");
    let dealer = Dealer::new(&bp_gens, &pc_gens, &mut t, 8, 2).unwrap();
    let (dealer, _) = dealer.receive_bit_commitments(vec![b0, b1]).unwrap();
    let (dealer, poly_challenge) = dealer.receive_poly_commitments(vec![c0, coms_a]).unwrap();
    let s0 = party_a.apply_challenge(&poly_challenge).unwrap();
    let s1 = proof_a.apply_challenge(&poly_challenge).unwrap();
    assert_eq!(
        dealer.receive_trusted_shares(&[s0.clone()]).err(),
        Some(MPCError::WrongNumProofShares)
    );

    // a share whose vectors are too short is named
    let mut t = Transcript::new(b"count");
    let dealer = Dealer::new(&bp_gens, &pc_gens, &mut t, 8, 2).unwrap();
    let (dealer, _) = dealer.receive_bit_commitments(vec![b0, b1]).unwrap();
    let (dealer, _) = dealer.receive_poly_commitments(vec![c0, coms_a]).unwrap();
    let mut short: ProofShare = s1.clone();
    short.l_vec.pop();
    assert_eq!(
        dealer.receive_trusted_shares(&[s0.clone(), short.clone()]).err(),
        Some(MPCError::MalformedProofShares { bad_shares: vec![1] })
    );
    let mut t = Transcript::new(b"count");
    let dealer = Dealer::new(&bp_gens, &pc_gens, &mut t, 8, 2).unwrap();
    let (dealer, _) = dealer.receive_bit_commitments(vec![b0, b1]).unwrap();
    let (dealer, _) = dealer.receive_poly_commitments(vec![c0, coms_a]).unwrap();
    assert_eq!(
        dealer.receive_shares(&[short, s1]).err(),
        Some(MPCError::MalformedProofShares { bad_shares: vec![0] })
    );
}

#[test]
fn honest_parties_pass_the_dealer_s_check() {
    let pc_gens = PedersenGens::default();
    let bp_gens = BulletproofGens::new(8, 2);
    let party_a = Party::new(&bp_gens, &pc_gens, 255, Scalar::from_u64(3), 8).unwrap();
    let proof_a = Party::new(&bp_gens, &pc_gens, 0, Scalar::from_u64(4), 8).unwrap();
    let mut t = Transcript::new(b"honest");
    let dealer = Dealer::new(&bp_gens, &pc_gens, &mut t, 8, 2).unwrap();
    let (party_a, b0) = party_a.assign_position(0).unwrap();
    let (proof_a, b1) = proof_a.assign_position(1).unwrap();
    let commitments = vec![b0.V_j, b1.V_j];
    let (dealer, bit_challenge) = dealer.receive_bit_commitments(vec![b0, b1]).unwrap();
    let (party_a, c0) = party_a.apply_challenge(&bit_challenge);
    let (proof_a, coms_a) = proof_a.apply_challenge(&bit_challenge);
    let (dealer, poly_challenge) = dealer.receive_poly_commitments(vec![c0, coms_a]).unwrap();
    let s0 = party_a.apply_challenge(&poly_challenge).unwrap();
    let s1 = proof_a.apply_challenge(&poly_challenge).unwrap();
    for (j, share) in [&s0, &s1].iter().enumerate() {
        let bc = if j == 0 { &b0 } else { &b1 };
        let pc = if j == 0 { &c0 } else { &coms_a };
        assert!(share
            .audit_share(&bp_gens, &pc_gens, j, bc, &bit_challenge, pc, &poly_challenge)
            .is_ok());
        // at the other position it does not hold
        assert!(share
            .audit_share(&bp_gens, &pc_gens, 1 - j, bc, &bit_challenge, pc, &poly_challenge)
            .is_err());
    }
    let proof = dealer.receive_shares(&[s0, s1]).unwrap();
    let mut t = Transcript::new(b"honest");
    assert!(proof.verify_multiple(&bp_gens, &pc_gens, &mut t, &commitments, 8).is_ok());
}

#[test]
fn a_share_with_a_changed_entry_is_named() {
    let pc_gens = PedersenGens::default();
    let bp_gens = BulletproofGens::new(8, 2);
    let party_a = Party::new(&bp_gens, &pc_gens, 7, Scalar::from_u64(3), 8).unwrap();
    let proof_a = Party::new(&bp_gens, &pc_gens, 9, Scalar::from_u64(4), 8).unwrap();
    let mut t = Transcript::new(b"changed");
    let dealer = Dealer::new(&bp_gens, &pc_gens, &mut t, 8, 2).unwrap();
    let (party_a, b0) = party_a.assign_position(0).unwrap();
    let (proof_a, b1) = proof_a.assign_position(1).unwrap();
    let (dealer, bit_challenge) = dealer.receive_bit_commitments(vec![b0, b1]).unwrap();
    let (party_a, c0) = party_a.apply_challenge(&bit_challenge);
    let (proof_a, coms_a) = proof_a.apply_challenge(&bit_challenge);
    let (dealer, poly_challenge) = dealer.receive_poly_commitments(vec![c0, coms_a]).unwrap();
    let mut s0 = party_a.apply_challenge(&poly_challenge).unwrap();
    let s1 = proof_a.apply_challenge(&poly_challenge).unwrap();
    s0.t_x_blinding = s0.t_x_blinding.add(&Scalar::one());
    assert_eq!(
        dealer.receive_shares_with_factor(&[s0, s1], Scalar::from_u64(7)).err(),
        Some(MPCError::MalformedProofShares { bad_shares: vec![0] })
    );
}

#[test]
fn neutral_bit_commitments_are_refused() {
    let pc_gens = PedersenGens::default();
    let bp_gens = BulletproofGens::new(8, 1);
    let party = Party::new(&bp_gens, &pc_gens, 7, Scalar::from_u64(3), 8).unwrap();
    let (_, mut b0) = party.assign_position(0).unwrap();
    b0.S_j = RistrettoElement::identity();
    let mut t = Transcript::new(b"neutral");
    let dealer = Dealer::new(&bp_gens, &pc_gens, &mut t, 8, 1).unwrap();
    assert_eq!(
        dealer.receive_bit_commitments(vec![b0]).err(),
        Some(MPCError::MalformedProofShares { bad_shares: vec![0] })
    );
}

#[test]
fn party_steps_with_given_blindings_repeat() {
    let pc_gens = PedersenGens::default();
    let bp_gens = BulletproofGens::new(8, 1);
    let r = &blindings_for(1, 8, 40)[0];
    let run = || {
        let party = Party::new(&bp_gens, &pc_gens, 77, Scalar::from_u64(3), 8).unwrap();
        let (party, bits) = party
            .assign_position_with_blindings(0, r.a_blinding, r.s_blinding, r.s_L.clone(), r.s_R.clone())
            .unwrap();
        let mut t = Transcript::new(b"steps");
        let dealer = Dealer::new(&bp_gens, &pc_gens, &mut t, 8, 1).unwrap();
        let (dealer, bit_challenge) = dealer.receive_bit_commitments(vec![bits]).unwrap();
        let (party, polys) =
            party.apply_challenge_with_blindings(&bit_challenge, r.t_1_blinding, r.t_2_blinding);
        let (_dealer, poly_challenge) = dealer.receive_poly_commitments(vec![polys]).unwrap();
        let share = party.apply_challenge(&poly_challenge).unwrap();
        (bits, polys, share)
    };
    let (b1, coms_a, s1) = run();
    let (b2, coms_b, s2) = run();
    assert_eq!(b1.A_j, b2.A_j);
    assert_eq!(b1.S_j, b2.S_j);
    assert_eq!(coms_a.T_1_j, coms_b.T_1_j);
    assert_eq!(s1.t_x, s2.t_x);
    assert_eq!(s1.l_vec, s2.l_vec);
    // V = 77 B + 3 B_blinding
    assert_eq!(b1.V_j.to_bytes(), pc_gens.commit(Scalar::from_u64(77), Scalar::from_u64(3)).compress().to_bytes());
    // A = a_blinding B_blinding + <bits, G> + <bits - 1, H>, 77 = 0b01001101
    let g = bp_gens.share(0).G(8);
    let h = bp_gens.share(0).H(8);
    let mut a = pc_gens.B_blinding.mul(&r.a_blinding);
    for i in 0..8 {
        if (77u64 >> i) & 1 == 1 {
            a = a.add(&g[i]);
        } else {
            a = a.add(&h[i].neg());
        }
    }
    assert_eq!(b1.A_j, a);
    // S = s_blinding B_blinding + <s_L, G> + <s_R, H>
    let mut s = pc_gens.B_blinding.mul(&r.s_blinding);
    for i in 0..8 {
        s = s.add(&g[i].mul(&r.s_L[i])).add(&h[i].mul(&r.s_R[i]));
    }
    assert_eq!(b1.S_j, s);
    // t_x is the inner product of the share's vectors
    assert_eq!(s1.t_x, bulletproofs::util::inner_product(&s1.l_vec, &s1.r_vec));
}

#[test]
fn proving_errors_keep_their_meaning() {
    assert_eq!(ProofError::from_mpc(MPCError::InvalidBitsize), ProofError::InvalidBitsize);
    assert_eq!(
        ProofError::from_mpc(MPCError::InvalidAggregationSize),
        ProofError::InvalidAggregationSize
    );
    assert_eq!(
        ProofError::from_mpc(MPCError::InvalidGeneratorsLength),
        ProofError::InvalidGeneratorsLength
    );
    assert_eq!(
        ProofError::from_mpc(MPCError::MaliciousDealer),
        ProofError::ProvingError(MPCError::MaliciousDealer)
    );
    assert_eq!(
        ProofError::from_mpc(MPCError::MalformedProofShares { bad_shares: vec![2] }),
        ProofError::ProvingError(MPCError::MalformedProofShares { bad_shares: vec![2] })
    );
}

#[test]
fn wiped_secrets_are_zero() {
    let mut s = Scalar::from_u64(0xffff_ffff_ffff_ffff);
    s.wipe();
    assert!(s.is_zero());
    assert_eq!(s.to_bytes(), [0u8; 32]);
    let mut v = vec![Scalar::from_u64(1), Scalar::from_u64(2), Scalar::one().neg()];
    bulletproofs::scalar::wipe_scalars(&mut v);
    assert_eq!(v, vec![Scalar::zero(); 3]);

    // a party that was wiped commits to nothing, blinded by nothing
    let pc_gens = PedersenGens::default();
    let bp_gens = BulletproofGens::new(8, 1);
    let mut party = Party::new(&bp_gens, &pc_gens, 77, Scalar::from_u64(3), 8).unwrap();
    party.wipe();
    let (mut party, bits) = party.assign_position(0).unwrap();
    assert!(bits.V_j.is_identity());
    party.wipe();
    let challenge = bulletproofs::range_proof::messages::BitChallenge {
        y: Scalar::from_u64(2),
        z: Scalar::from_u64(3),
    };
    let (mut party, _) = party.apply_challenge(&challenge);
    party.wipe();
    let share = party
        .apply_challenge(&bulletproofs::range_proof::messages::PolyChallenge { x: Scalar::one() })
        .unwrap();
    assert!(share.t_x.is_zero());
    assert!(share.t_x_blinding.is_zero());
    assert!(share.e_blinding.is_zero());
    assert_eq!(share.l_vec, vec![Scalar::zero(); 8]);
    assert_eq!(share.r_vec, vec![Scalar::zero(); 8]);
}
