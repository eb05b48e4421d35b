use bulletproofs::scalar::thread_rng;
use bulletproofs::CompressedRistretto;
use bulletproofs::RistrettoElement;
use bulletproofs::Scalar;
use curve25519_dalek::traits::Identity;

fn dalek_scalar(s: &Scalar) -> curve25519_dalek::Scalar {
    curve25519_dalek::Scalar::from_canonical_bytes(s.to_bytes()).unwrap()
}

fn dalek_point(p: &RistrettoElement) -> curve25519_dalek::RistrettoPoint {
    curve25519_dalek::ristretto::CompressedRistretto(p.compress().to_bytes())
        .decompress()
        .unwrap()
}

#[test]
fn basepoint_has_the_known_encoding() {
    let b = RistrettoElement::basepoint();
    assert_eq!(
        b.compress().to_bytes(),
        [
            0xe2, 0xf2, 0xae, 0x0a, 0x6a, 0xbc, 0x4e, 0x71, 0xa8, 0x84, 0xa9, 0x61, 0xc5, 0x00,
            0x51, 0x5f, 0x58, 0xe3, 0x0b, 0x6a, 0xa5, 0x82, 0xdd, 0x8d, 0xb6, 0xa6, 0x59, 0x45,
            0xe0, 0x8d, 0x2d, 0x76
        ]
    );
    assert_eq!(
        b.compress().to_bytes(),
        curve25519_dalek::constants::RISTRETTO_BASEPOINT_COMPRESSED.to_bytes()
    );
    assert!(!b.is_identity());
}

#[test]
fn identity_encodes_as_zeros() {
    let id = RistrettoElement::identity();
    assert!(id.is_identity());
    assert_eq!(id.compress().to_bytes(), [0u8; 32]);
    assert!(CompressedRistretto::identity().is_identity());
    assert!(CompressedRistretto([0u8; 32]).is_identity());
    let mut one = [0u8; 32];
    one[31] = 1;
    assert!(!CompressedRistretto(one).is_identity());
    assert_eq!(
        id.compress().to_bytes(),
        curve25519_dalek::RistrettoPoint::identity().compress().to_bytes()
    );
}

#[test]
fn compress_and_decompress() {
    let b = RistrettoElement::basepoint();
    let enc = b.compress();
    assert_eq!(enc.decompress().unwrap(), b);
    assert_eq!(enc.decompress().unwrap().compress().to_bytes(), enc.to_bytes());
    assert_eq!(enc.as_bytes(), &enc.to_bytes());
    // not an encoding: the low bit of the first byte marks a negative value
    let mut bad = enc.to_bytes();
    bad[0] |= 1;
    assert!(CompressedRistretto(bad).decompress().is_none());
    assert!(CompressedRistretto([0xff; 32]).decompress().is_none());
    assert!(enc.eq(&CompressedRistretto(enc.to_bytes())));
    assert!(!enc.eq(&CompressedRistretto::identity()));
}

#[test]
fn addition_and_negation() {
    let b = RistrettoElement::basepoint();
    let two_b = b.add(&b);
    assert_ne!(two_b, b);
    assert_eq!(two_b, b.mul(&Scalar::from_u64(2)));
    assert_eq!(b.add(&RistrettoElement::identity()), b);
    assert!(b.add(&b.neg()).is_identity());
    assert_ne!(b.neg(), b);
    assert_eq!(b.neg(), b.mul(&Scalar::one().neg()));
    let d = dalek_point(&b);
    assert_eq!(dalek_point(&two_b), d + d);
    assert_eq!(dalek_point(&b.neg()), -d);
    assert!(b.eq(&b));
    assert!(!b.eq(&two_b));
}

#[test]
fn conditional_select_picks_by_the_choice() {
    let a = RistrettoElement::basepoint();
    let b = a.add(&a);
    assert_eq!(RistrettoElement::conditional_select(&a, &b, false), a);
    assert_eq!(RistrettoElement::conditional_select(&a, &b, true), b);
}

#[test]
fn multiples_by_doubling_agree_with_the_curve_library() {
    let mut rng = thread_rng();
    let b = RistrettoElement::basepoint();
    assert!(b.vartime_mul(&Scalar::zero()).is_identity());
    assert!(b.mul(&Scalar::zero()).is_identity());
    assert_eq!(b.vartime_mul(&Scalar::one()), b);
    assert_eq!(b.vartime_mul(&Scalar::from_u64(2)), b.add(&b));
    assert_eq!(b.vartime_mul(&Scalar::from_u64(3)), b.add(&b).add(&b));
    assert_eq!(b.vartime_mul(&Scalar::from_u64(256)), b.mul(&Scalar::from_u64(256)));
    assert!(RistrettoElement::identity().vartime_mul(&Scalar::from_u64(77)).is_identity());
    for _ in 0..5 {
        let s = Scalar::random(&mut rng);
        let p = b.vartime_mul(&s);
        assert_eq!(p, b.mul(&s));
        assert_eq!(dalek_point(&p), dalek_scalar(&s) * dalek_point(&b));
    }
    // the largest scalar
    let minus_one = Scalar::one().neg();
    assert_eq!(b.vartime_mul(&minus_one), b.neg());
}

#[test]
fn sums_of_products_agree() {
    let mut rng = thread_rng();
    let b = RistrettoElement::basepoint();
    let points = vec![b, b.add(&b), b.mul(&Scalar::from_u64(1000)), b.neg()];
    let scalars = Scalar::random_vec(&mut rng, 4);
    let by_hand = points[0]
        .mul(&scalars[0])
        .add(&points[1].mul(&scalars[1]))
        .add(&points[2].mul(&scalars[2]))
        .add(&points[3].mul(&scalars[3]));
    assert_eq!(RistrettoElement::multiscalar_mul(&scalars, &points).unwrap(), by_hand);
    assert_eq!(RistrettoElement::vartime_multiscalar_mul(&scalars, &points).unwrap(), by_hand);
    assert_eq!(RistrettoElement::vartime_sum_of_products(&scalars, &points), by_hand);
    let some: Vec<Option<RistrettoElement>> = points.iter().map(|p| Some(*p)).collect();
    assert_eq!(RistrettoElement::optional_multiscalar_mul(&scalars, &some).unwrap(), by_hand);
    // nothing sums to the neutral element
    assert!(RistrettoElement::multiscalar_mul(&[], &[]).unwrap().is_identity());
    assert!(RistrettoElement::vartime_multiscalar_mul(&[], &[]).unwrap().is_identity());
    assert!(RistrettoElement::vartime_sum_of_products(&[], &[]).is_identity());
    assert!(RistrettoElement::optional_multiscalar_mul(&[], &[]).unwrap().is_identity());
}

#[test]
fn sums_of_products_refuse_bad_inputs() {
    let b = RistrettoElement::basepoint();
    let one = Scalar::one();
    assert!(RistrettoElement::multiscalar_mul(&[one, one], &[b]).is_none());
    assert!(RistrettoElement::vartime_multiscalar_mul(&[one], &[b, b]).is_none());
    assert!(RistrettoElement::optional_multiscalar_mul(&[one], &[Some(b), Some(b)]).is_none());
    assert!(RistrettoElement::optional_multiscalar_mul(&[one, one], &[Some(b), None]).is_none());
    assert!(RistrettoElement::optional_multiscalar_mul(&[one, one], &[None, Some(b)]).is_none());
}

#[test]
fn large_sums_of_products_agree() {
    let mut rng = thread_rng();
    let b = RistrettoElement::basepoint();
    let mut points = Vec::new();
    let mut p = b;
    for _ in 0..200 {
        points.push(p);
        p = p.add(&b);
    }
    let scalars = Scalar::random_vec(&mut rng, 200);
    let want = RistrettoElement::vartime_sum_of_products(&scalars, &points);
    assert_eq!(RistrettoElement::vartime_multiscalar_mul(&scalars, &points).unwrap(), want);
    let some: Vec<Option<RistrettoElement>> = points.iter().map(|p| Some(*p)).collect();
    assert_eq!(RistrettoElement::optional_multiscalar_mul(&scalars, &some).unwrap(), want);
}

#[test]
fn one_way_maps_agree_with_the_curve_library() {
    let mut bytes = [0u8; 64];
    for (i, b) in bytes.iter_mut().enumerate() {
        *b = i as u8;
    }
    let p = RistrettoElement::from_uniform_bytes(&bytes);
    assert_eq!(
        p.compress().to_bytes(),
        curve25519_dalek::RistrettoPoint::from_uniform_bytes(&bytes).compress().to_bytes()
    );
    assert_ne!(&p.compress().to_bytes()[..], &bytes[..32]);
    bytes[0] ^= 1;
    assert_ne!(RistrettoElement::from_uniform_bytes(&bytes), p);

    let h = RistrettoElement::hash_from_bytes(b"some input");
    assert_eq!(
        h.compress().to_bytes(),
        curve25519_dalek::RistrettoPoint::hash_from_bytes::<sha3::Sha3_512>(b"some input")
            .compress()
            .to_bytes()
    );
    assert_ne!(h, RistrettoElement::hash_from_bytes(b"some inpuu"));
}
