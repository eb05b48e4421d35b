use bulletproofs::scalar::thread_rng;
use bulletproofs::util::inner_product;
use bulletproofs::util::is_power_of_two;
use bulletproofs::util::powers;
use bulletproofs::util::read32;
use bulletproofs::util::scalar_exp_product;
use bulletproofs::util::scalar_exp_vartime;
use bulletproofs::util::sum_of_powers;
use bulletproofs::util::Poly2;
use bulletproofs::util::VecPoly1;
use bulletproofs::Scalar;

/// The group order, little-endian.
const ORDER: [u8; 32] = [
    0xed, 0xd3, 0xf5, 0x5c, 0x1a, 0x63, 0x12, 0x58, 0xd6, 0x9c, 0xf7, 0xa2, 0xde, 0xf9, 0xde, 0x14,
    0x00, 0x00, 0x00, 0x00, 0x00, 0x00, 0x00, 0x00, 0x00, 0x00, 0x00, 0x00, 0x00, 0x00, 0x00, 0x10,
];

#[test]
fn scalar_add_and_mul() {
    let a = Scalar::from_u64(7);
    let b = Scalar::from_u64(5);
    assert!(a.add(&b).eq(&Scalar::from_u64(12)));
    assert!(a.mul(&b).eq(&Scalar::from_u64(35)));
    assert!(a.sub(&b).eq(&Scalar::from_u64(2)));
    assert!(a.mul(&a.invert()).eq(&Scalar::one()));
    assert!(a.add(&a.neg()).is_zero());
}

#[test]
fn scalar_arithmetic_wraps_at_the_order() {
    let mut below = ORDER;
    below[0] -= 1; // order - 1
    let minus_one = Scalar::from_canonical_bytes(below).unwrap();
    assert_eq!(minus_one.add(&Scalar::one()), Scalar::zero());
    assert_eq!(Scalar::zero().sub(&Scalar::one()), minus_one);
    assert_eq!(Scalar::one().neg(), minus_one);
    assert_eq!(minus_one.mul(&minus_one), Scalar::one());
    assert_eq!(Scalar::zero().neg(), Scalar::zero());
}

#[test]
fn scalar_agrees_with_the_curve_library() {
    let a = Scalar::from_u64(0xdead_beef_0123_4567);
    let b = Scalar::from_u64(0x0fed_cba9_8765_4321);
    let x = curve25519_dalek::Scalar::from(0xdead_beef_0123_4567u64);
    let y = curve25519_dalek::Scalar::from(0x0fed_cba9_8765_4321u64);
    assert_eq!(a.to_bytes(), x.to_bytes());
    assert_eq!(a.add(&b).to_bytes(), (x + y).to_bytes());
    assert_eq!(a.sub(&b).to_bytes(), (x - y).to_bytes());
    assert_eq!(b.sub(&a).to_bytes(), (y - x).to_bytes());
    assert_eq!(a.mul(&b).to_bytes(), (x * y).to_bytes());
    assert_eq!(a.neg().to_bytes(), (-x).to_bytes());
    assert_eq!(a.invert().to_bytes(), x.invert().to_bytes());
}

#[test]
fn scalar_from_u64_is_little_endian() {
    let bytes = Scalar::from_u64(0x0102_0304_0506_0708).to_bytes();
    assert_eq!(&bytes[0..8], &[8, 7, 6, 5, 4, 3, 2, 1]);
    assert!(bytes[8..].iter().all(|b| *b == 0));
    assert_eq!(Scalar::zero().to_bytes(), [0u8; 32]);
    assert_eq!(Scalar::one().to_bytes()[0], 1);
}

#[test]
fn scalar_invert_of_zero_is_zero() {
    assert!(Scalar::zero().invert().is_zero());
    assert!(!Scalar::one().is_zero());
}

#[test]
fn canonical_bytes_are_those_below_the_order() {
    assert!(Scalar::from_canonical_bytes(ORDER).is_none());
    let mut below = ORDER;
    below[0] -= 1;
    let s = Scalar::from_canonical_bytes(below).unwrap();
    assert_eq!(s.to_bytes(), below);
    let mut above = ORDER;
    above[0] += 1;
    assert!(Scalar::from_canonical_bytes(above).is_none());
    assert!(Scalar::from_canonical_bytes([0xff; 32]).is_none());
    assert!(Scalar::from_canonical_bytes([0u8; 32]).unwrap().is_zero());
}

#[test]
fn wide_bytes_are_reduced() {
    let mut wide = [0u8; 64];
    wide[..32].copy_from_slice(&ORDER);
    assert!(Scalar::from_bytes_mod_order_wide(&wide).is_zero());
    wide[0] += 5;
    assert_eq!(Scalar::from_bytes_mod_order_wide(&wide), Scalar::from_u64(5));
    // 2^256 mod order, against the curve library
    let mut high = [0u8; 64];
    high[32] = 1;
    assert_eq!(
        Scalar::from_bytes_mod_order_wide(&high).to_bytes(),
        curve25519_dalek::Scalar::from_bytes_mod_order_wide(&high).to_bytes()
    );
}

#[test]
fn random_scalars_differ() {
    let mut rng = thread_rng();
    let a = Scalar::random(&mut rng);
    let b = Scalar::random(&mut rng);
    assert_ne!(a, b);
    let v = Scalar::random_vec(&mut rng, 5);
    assert_eq!(v.len(), 5);
    assert_ne!(v[0], v[1]);
}

#[test]
fn random_scalars_are_reduced() {
    let mut rng = thread_rng();
    for _ in 0..16 {
        let s = Scalar::random(&mut rng);
        assert_eq!(Scalar::from_canonical_bytes(s.to_bytes()), Some(s));
    }
}

#[test]
fn sum_of_powers_small() {
    let x = Scalar::from_u64(3);
    // 1 + 3 + 9 + 27
    assert!(sum_of_powers(&x, 4).eq(&Scalar::from_u64(40)));
    // 1 + 3 + 9
    assert!(sum_of_powers(&x, 3).eq(&Scalar::from_u64(13)));
    assert!(sum_of_powers(&x, 0).is_zero());
    assert_eq!(sum_of_powers(&x, 1), Scalar::one());
    assert_eq!(sum_of_powers(&x, 2), Scalar::from_u64(4));
    // 2^64 - 1 by doubling
    assert_eq!(sum_of_powers(&Scalar::from_u64(2), 64), Scalar::from_u64(u64::MAX));
}

#[test]
fn sum_of_powers_by_doubling_agrees_with_adding() {
    let mut rng = thread_rng();
    let x = Scalar::random(&mut rng);
    for n in [1usize, 2, 4, 8, 16, 32, 64] {
        let mut slow = Scalar::zero();
        let mut power = Scalar::one();
        for _ in 0..n {
            slow = slow.add(&power);
            power = power.mul(&x);
        }
        assert_eq!(sum_of_powers(&x, n), slow);
    }
}

#[test]
fn powers_and_exponentiation() {
    let x = Scalar::from_u64(10);
    let p = powers(&x, 4);
    assert_eq!(p, vec![Scalar::one(), x, Scalar::from_u64(100), Scalar::from_u64(1000)]);
    assert!(powers(&x, 0).is_empty());
    assert_eq!(scalar_exp_vartime(&x, 0), Scalar::one());
    assert_eq!(scalar_exp_vartime(&x, 1), x);
    assert_eq!(scalar_exp_vartime(&x, 19), Scalar::from_u64(10_000_000_000_000_000_000));
    assert_eq!(scalar_exp_product(&Scalar::from_u64(2), 5, 7), Scalar::from_u64(1 << 35));
    assert_eq!(scalar_exp_product(&x, 0, 7), Scalar::one());
}

#[test]
fn inner_product_small() {
    let a = vec![Scalar::from_u64(1), Scalar::from_u64(2), Scalar::from_u64(3), Scalar::from_u64(4)];
    let b = vec![Scalar::from_u64(2), Scalar::from_u64(3), Scalar::from_u64(4), Scalar::from_u64(5)];
    assert_eq!(inner_product(&a, &b), Scalar::from_u64(40));
    assert!(inner_product(&[], &[]).is_zero());
}

#[test]
fn polynomials() {
    // 1 + 2 x + 3 x^2 at 5
    let t = Poly2(Scalar::from_u64(1), Scalar::from_u64(2), Scalar::from_u64(3));
    assert_eq!(t.eval(&Scalar::from_u64(5)), Scalar::from_u64(86));
    let l = VecPoly1(
        vec![Scalar::from_u64(1), Scalar::from_u64(2)],
        vec![Scalar::from_u64(3), Scalar::from_u64(4)],
    );
    let r = VecPoly1(
        vec![Scalar::from_u64(5), Scalar::from_u64(6)],
        vec![Scalar::from_u64(7), Scalar::from_u64(8)],
    );
    assert_eq!(l.eval(&Scalar::from_u64(10)), vec![Scalar::from_u64(31), Scalar::from_u64(42)]);
    let t = l.inner_product(&r);
    // <l0, r0> = 17, <l0, r1> + <l1, r0> = 23 + 39, <l1, r1> = 53
    assert_eq!(t.0, Scalar::from_u64(17));
    assert_eq!(t.1, Scalar::from_u64(62));
    assert_eq!(t.2, Scalar::from_u64(53));
    // the product of the values is the value of the product
    let x = Scalar::from_u64(9);
    assert_eq!(inner_product(&l.eval(&x), &r.eval(&x)), t.eval(&x));
    let z = VecPoly1::zero(3);
    assert_eq!(z.0, vec![Scalar::zero(); 3]);
    assert_eq!(z.1, vec![Scalar::zero(); 3]);
}

#[test]
fn powers_of_two_are_recognised() {
    assert!(!is_power_of_two(0));
    assert!(is_power_of_two(1));
    assert!(is_power_of_two(2));
    assert!(!is_power_of_two(3));
    assert!(is_power_of_two(64));
    assert!(!is_power_of_two(96));
    assert!(is_power_of_two(1 << 20));
}

#[test]
fn read32_takes_a_block() {
    let data: Vec<u8> = (0..100u8).collect();
    let block = read32(&data, 40);
    let want: Vec<u8> = (40..72u8).collect();
    assert_eq!(block.to_vec(), want);
}
