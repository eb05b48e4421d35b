use bulletproofs::BulletproofGens;
use bulletproofs::PedersenGens;
use bulletproofs::RistrettoElement;
use bulletproofs::Scalar;
use sha3::digest::ExtendableOutput;
use sha3::digest::Update;
use sha3::digest::XofReader;

#[test]
fn pedersen_generators_are_the_standard_ones() {
    let pc = PedersenGens::default();
    assert_eq!(pc.B, RistrettoElement::basepoint());
    let b_bytes = curve25519_dalek::constants::RISTRETTO_BASEPOINT_COMPRESSED.to_bytes();
    assert_eq!(pc.B_blinding, RistrettoElement::hash_from_bytes(&b_bytes));
    assert_eq!(
        pc.B_blinding.compress().to_bytes(),
        curve25519_dalek::RistrettoPoint::hash_from_bytes::<sha3::Sha3_512>(&b_bytes)
            .compress()
            .to_bytes()
    );
    assert_ne!(pc.B, pc.B_blinding);
}

#[test]
fn commitment_is_value_times_b_plus_blinding_times_b_blinding() {
    let pc = PedersenGens::default();
    let v = Scalar::from_u64(1_037_578_891);
    let r = Scalar::from_u64(424242);
    let c = pc.commit(v, r);
    assert_eq!(c, pc.B.mul(&v).add(&pc.B_blinding.mul(&r)));
    assert!(pc.commit(Scalar::zero(), Scalar::zero()).is_identity());
    assert_eq!(pc.commit(Scalar::one(), Scalar::zero()), pc.B);
    assert_eq!(pc.commit(Scalar::zero(), Scalar::one()), pc.B_blinding);
}

/// Generator `i` of a chain, computed with the hash directly.
fn generator_by_hand(kind: u8, party: u32, i: usize) -> [u8; 32] {
    let mut shake = sha3::Shake256::default();
    shake.update(b"GeneratorsChain");
    shake.update(&[kind]);
    shake.update(&party.to_le_bytes());
    let mut reader = shake.finalize_xof();
    let mut block = [0u8; 64];
    for _ in 0..=i {
        reader.read(&mut block);
    }
    curve25519_dalek::RistrettoPoint::from_uniform_bytes(&block).compress().to_bytes()
}

#[test]
fn generators_come_from_the_labelled_streams() {
    let gens = BulletproofGens::new(4, 3);
    assert_eq!(gens.gens_capacity(), 4);
    assert_eq!(gens.party_capacity(), 3);
    let g = gens.G(4, 3);
    let h = gens.H(4, 3);
    assert_eq!(g.len(), 12);
    assert_eq!(h.len(), 12);
    for j in 0..3 {
        for i in 0..4 {
            assert_eq!(g[j * 4 + i].compress().to_bytes(), generator_by_hand(b'G', j as u32, i));
            assert_eq!(h[j * 4 + i].compress().to_bytes(), generator_by_hand(b'H', j as u32, i));
        }
    }
}

#[test]
fn aggregated_generators_go_party_by_party() {
    let gens = BulletproofGens::new(8, 4);
    let all = gens.G(8, 4);
    let part = gens.G(2, 3);
    assert_eq!(part.len(), 6);
    assert_eq!(part, vec![all[0], all[1], all[8], all[9], all[16], all[17]]);
    let part = gens.H(3, 2);
    let all = gens.H(8, 4);
    assert_eq!(part, vec![all[0], all[1], all[2], all[8], all[9], all[10]]);
    assert!(gens.G(0, 4).is_empty());
    assert!(gens.G(8, 0).is_empty());
}

#[test]
fn a_share_is_one_party_s_row() {
    let gens = BulletproofGens::new(8, 4);
    let all_g = gens.G(8, 4);
    let all_h = gens.H(8, 4);
    let share = gens.share(2);
    assert_eq!(share.G(8), all_g[16..24].to_vec());
    assert_eq!(share.H(5), all_h[16..21].to_vec());
    assert!(share.G(0).is_empty());
}

#[test]
fn all_generators_differ() {
    let gens = BulletproofGens::new(8, 2);
    let mut all = gens.G(8, 2);
    all.extend(gens.H(8, 2));
    let pc = PedersenGens::default();
    all.push(pc.B);
    all.push(pc.B_blinding);
    for a in 0..all.len() {
        for b in 0..a {
            assert_ne!(all[a], all[b]);
        }
    }
}

#[test]
fn growing_keeps_what_was_there() {
    let mut gens = BulletproofGens::new(4, 2);
    let before_g = gens.G(4, 2);
    let before_h = gens.H(4, 2);
    gens.increase_capacity(16);
    assert_eq!(gens.gens_capacity(), 16);
    assert_eq!(gens.party_capacity(), 2);
    assert_eq!(gens.G(4, 2), before_g);
    assert_eq!(gens.H(4, 2), before_h);
    let fresh = BulletproofGens::new(16, 2);
    assert_eq!(gens.G(16, 2), fresh.G(16, 2));
    assert_eq!(gens.H(16, 2), fresh.H(16, 2));
    // asking for less changes nothing
    gens.increase_capacity(8);
    assert_eq!(gens.gens_capacity(), 16);
    assert_eq!(gens.G(16, 2), fresh.G(16, 2));
}

#[test]
fn empty_tables() {
    let gens = BulletproofGens::new(0, 0);
    assert_eq!(gens.gens_capacity(), 0);
    assert_eq!(gens.party_capacity(), 0);
    assert!(gens.G(0, 0).is_empty());
    let gens = BulletproofGens::new(8, 0);
    assert!(gens.H(8, 0).is_empty());
}
