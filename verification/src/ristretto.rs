//! Elements of the Ristretto255 group, known by their 32-byte encodings.
//!
//! The group law itself is computed by `curve25519_dalek`. Its results are
//! named here, as functions of encodings, so that the protocol's contracts
//! can say which sums of which multiples they hand out.

use crate::scalar::Scalar;
use curve25519_dalek::traits::Identity;
use curve25519_dalek::traits::MultiscalarMul;
use curve25519_dalek::traits::VartimeMultiscalarMul;
use subtle::ConditionallySelectable;
use vstd::prelude::*;

verus! {

/// Whether 32 bytes are the encoding of a group element.
pub uninterp spec fn ristretto_decodes(enc: Seq<u8>) -> bool;

/// The encoding of the sum of the elements that `a` and `b` encode.
pub uninterp spec fn ristretto_sum(a: Seq<u8>, b: Seq<u8>) -> Seq<u8>;

/// The encoding of the inverse of the element that `a` encodes.
pub uninterp spec fn ristretto_negation(a: Seq<u8>) -> Seq<u8>;

/// The encoding of `s` times the element that `p` encodes: nothing times
/// an element is the neutral element, and a multiple is twice the half
/// multiple, plus the element where `s` is odd.
#[verifier::opaque]
pub open spec fn ristretto_product(s: nat, p: Seq<u8>) -> Seq<u8>
    decreases s,
{
    if s == 0 {
        identity_encoding()
    } else if s == 1 {
        p
    } else {
        let half = ristretto_product(s / 2, p);
        let twice = ristretto_sum(half, half);
        if s % 2 == 1 {
            ristretto_sum(twice, p)
        } else {
            twice
        }
    }
}

/// The sum of a sequence of elements, taken from the left, starting with
/// `start`.
pub open spec fn sum_from(start: Seq<u8>, p: Seq<Seq<u8>>) -> Seq<u8>
    decreases p.len(),
{
    if p.len() == 0 {
        start
    } else {
        ristretto_sum(sum_from(start, p.drop_last()), p.last())
    }
}

/// The encoding of the element that the one-way map sends 64 uniform bytes to.
pub uninterp spec fn ristretto_from_uniform(bytes: Seq<u8>) -> Seq<u8>;

/// The encoding of the element that hashing `input` with SHA3-512 and
/// applying the one-way map gives.
pub uninterp spec fn ristretto_hash_sha3_512(input: Seq<u8>) -> Seq<u8>;

/// The encoding of the neutral element: 32 zero bytes.
pub open spec fn identity_encoding() -> Seq<u8> {
    Seq::new(32, |i: int| 0u8)
}

/// The encoding of the Ristretto255 basepoint.
pub open spec fn basepoint_encoding() -> Seq<u8> {
    seq![
        0xe2u8, 0xf2u8, 0xaeu8, 0x0au8, 0x6au8, 0xbcu8, 0x4eu8, 0x71u8,
        0xa8u8, 0x84u8, 0xa9u8, 0x61u8, 0xc5u8, 0x00u8, 0x51u8, 0x5fu8,
        0x58u8, 0xe3u8, 0x0bu8, 0x6au8, 0xa5u8, 0x82u8, 0xddu8, 0x8du8,
        0xb6u8, 0xa6u8, 0x59u8, 0x45u8, 0xe0u8, 0x8du8, 0x2du8, 0x76u8,
    ]
}

/// The sum of a sequence of elements, taken from the left, starting with
/// the neutral element.
pub open spec fn point_sum(p: Seq<Seq<u8>>) -> Seq<u8>
    decreases p.len(),
{
    if p.len() == 0 {
        identity_encoding()
    } else {
        ristretto_sum(point_sum(p.drop_last()), p.last())
    }
}

/// The multiscalar product `s[0] * p[0] + ... + s[k-1] * p[k-1]`.
pub open spec fn msm(s: Seq<nat>, p: Seq<Seq<u8>>) -> Seq<u8> {
    point_sum(Seq::new(s.len(), |i: int| ristretto_product(s[i], p[i])))
}

/// The elements that a sequence of present points holds.
pub open spec fn unwrap_all(p: Seq<Option<Seq<u8>>>) -> Seq<Seq<u8>> {
    Seq::new(p.len(), |i: int| p[i].unwrap())
}

/// Whether every point of the sequence is present.
pub open spec fn all_present(p: Seq<Option<Seq<u8>>>) -> bool {
    forall|i: int| 0 <= i < p.len() ==> (#[trigger] p[i]) is Some
}

/// 32 bytes that claim to encode a group element.
#[derive(Clone, Copy, Debug, PartialEq, Eq)]
pub struct CompressedRistretto(pub [u8; 32]);

impl View for CompressedRistretto {
    type V = Seq<u8>;

    open spec fn view(&self) -> Seq<u8> {
        self.0@
    }
}

impl DeepView for CompressedRistretto {
    type V = Seq<u8>;

    open spec fn deep_view(&self) -> Seq<u8> {
        self@
    }
}

#[verifier::external_type_specification]
#[verifier::external_body]
pub struct ExRistrettoPoint(curve25519_dalek::RistrettoPoint);

/// The 32 bytes that a `curve25519_dalek` point compresses to.
pub uninterp spec fn ristretto_encoding(p: curve25519_dalek::RistrettoPoint) -> Seq<u8>;

/// A group element. It is known by its encoding.
#[derive(Clone, Copy, Debug, PartialEq, Eq)]
pub struct RistrettoElement {
    inner: curve25519_dalek::RistrettoPoint,
}

impl View for RistrettoElement {
    type V = Seq<u8>;

    closed spec fn view(&self) -> Seq<u8> {
        ristretto_encoding(self.inner)
    }
}

impl DeepView for RistrettoElement {
    type V = Seq<u8>;

    open spec fn deep_view(&self) -> Seq<u8> {
        self@
    }
}

/// `CompressedRistretto::decompress` of `curve25519_dalek`: succeeds exactly
/// on the encodings of group elements, and the element found compresses to
/// the bytes given.
#[verifier::external_body]
fn point_decompress(bytes: &[u8; 32]) -> (r: Option<RistrettoElement>)
    ensures
        r is Some <==> ristretto_decodes(bytes@),
        r matches Some(p) ==> ristretto_encoding(p.inner) == bytes@,
{
    match curve25519_dalek::ristretto::CompressedRistretto(*bytes).decompress() {
        Some(p) => Some(RistrettoElement { inner: p }),
        None => None,
    }
}

/// `RistrettoPoint::compress` of `curve25519_dalek`: the 32 bytes of the
/// element's encoding, which decode.
#[verifier::external_body]
fn point_compress(p: &RistrettoElement) -> (r: [u8; 32])
    ensures
        r@ == ristretto_encoding(p.inner),
        ristretto_decodes(r@),
{
    p.inner.compress().to_bytes()
}

/// `RistrettoPoint::identity` of `curve25519_dalek`: the neutral element,
/// which encodes as 32 zero bytes.
#[verifier::external_body]
fn point_identity() -> (r: RistrettoElement)
    ensures
        r@ == identity_encoding(),
{
    RistrettoElement { inner: curve25519_dalek::RistrettoPoint::identity() }
}

/// `RISTRETTO_BASEPOINT_POINT` of `curve25519_dalek`, whose encoding is the
/// constant `RISTRETTO_BASEPOINT_COMPRESSED`.
#[verifier::external_body]
fn point_basepoint() -> (r: RistrettoElement)
    ensures
        r@ == basepoint_encoding(),
{
    RistrettoElement { inner: curve25519_dalek::constants::RISTRETTO_BASEPOINT_POINT }
}

/// `+` of `curve25519_dalek::RistrettoPoint`.
#[verifier::external_body]
fn point_add(a: &RistrettoElement, b: &RistrettoElement) -> (r: RistrettoElement)
    ensures
        r@ == ristretto_sum(a@, b@),
{
    RistrettoElement { inner: a.inner + b.inner }
}

/// Unary `-` of `curve25519_dalek::RistrettoPoint`.
#[verifier::external_body]
fn point_neg(a: &RistrettoElement) -> (r: RistrettoElement)
    ensures
        r@ == ristretto_negation(a@),
{
    RistrettoElement { inner: -a.inner }
}

/// `ConditionallySelectable::conditional_select` of `subtle`, for
/// `curve25519_dalek::RistrettoPoint`: the second element if the choice is
/// set, else the first, in constant time.
#[verifier::external_body]
fn point_select(a: &RistrettoElement, b: &RistrettoElement, choice: bool) -> (r: RistrettoElement)
    ensures
        r == if choice {
            *b
        } else {
            *a
        },
{
    let c = subtle::Choice::from(choice as u8);
    RistrettoElement { inner: curve25519_dalek::RistrettoPoint::conditional_select(&a.inner, &b.inner, c) }
}

/// `*` of a `curve25519_dalek` scalar and point, in constant time: the
/// multiple of the element, which is what doubling and adding gives.
#[verifier::external_body]
fn point_mul(s: &Scalar, p: &RistrettoElement) -> (r: RistrettoElement)
    ensures
        r@ == ristretto_product(s@, p@),
{
    let x = curve25519_dalek::Scalar::from_bytes_mod_order(s.to_bytes());
    RistrettoElement { inner: x * p.inner }
}

/// `RistrettoPoint::multiscalar_mul` of `curve25519_dalek` (constant time):
/// the sum of the products, for inputs of one length.
#[verifier::external_body]
pub(crate) fn point_msm(scalars: &[Scalar], points: &[RistrettoElement]) -> (r: RistrettoElement)
    requires
        scalars.len() == points.len(),
    ensures
        r@ == msm(scalars.deep_view(), points.deep_view()),
{
    let ss = scalars.iter().map(|s| curve25519_dalek::Scalar::from_bytes_mod_order(s.to_bytes()));
    let ps = points.iter().map(|p| p.inner);
    RistrettoElement { inner: curve25519_dalek::RistrettoPoint::multiscalar_mul(ss, ps) }
}

/// `RistrettoPoint::vartime_multiscalar_mul` of `curve25519_dalek`: the sum
/// of the products, for inputs of one length.
#[verifier::external_body]
pub(crate) fn point_vartime_msm(scalars: &[Scalar], points: &[RistrettoElement]) -> (r:
    RistrettoElement)
    requires
        scalars.len() == points.len(),
    ensures
        r@ == msm(scalars.deep_view(), points.deep_view()),
{
    let ss = scalars.iter().map(|s| curve25519_dalek::Scalar::from_bytes_mod_order(s.to_bytes()));
    let ps = points.iter().map(|p| p.inner);
    RistrettoElement { inner: curve25519_dalek::RistrettoPoint::vartime_multiscalar_mul(ss, ps) }
}

/// `RistrettoPoint::optional_multiscalar_mul` of `curve25519_dalek`: `None`
/// exactly when some point is absent, else the sum of the products.
#[verifier::external_body]
pub(crate) fn point_optional_msm(scalars: &[Scalar], points: &[Option<RistrettoElement>]) -> (r:
    Option<RistrettoElement>)
    requires
        scalars.len() == points.len(),
    ensures
        r is Some <==> all_present(points.deep_view()),
        r matches Some(q) ==> q@ == msm(scalars.deep_view(), unwrap_all(points.deep_view())),
{
    let ss = scalars.iter().map(|s| curve25519_dalek::Scalar::from_bytes_mod_order(s.to_bytes()));
    let ps = points.iter().map(|o| o.map(|p| p.inner));
    match curve25519_dalek::RistrettoPoint::optional_multiscalar_mul(ss, ps) {
        Some(q) => Some(RistrettoElement { inner: q }),
        None => None,
    }
}

/// `RistrettoPoint::from_uniform_bytes` of `curve25519_dalek`.
#[verifier::external_body]
fn point_from_uniform(bytes: &[u8; 64]) -> (r: RistrettoElement)
    ensures
        r@ == ristretto_from_uniform(bytes@),
{
    RistrettoElement { inner: curve25519_dalek::RistrettoPoint::from_uniform_bytes(bytes) }
}

/// `RistrettoPoint::hash_from_bytes` of `curve25519_dalek`, with SHA3-512 of
/// the `sha3` crate as the hash.
#[verifier::external_body]
fn point_hash_sha3_512(input: &[u8]) -> (r: RistrettoElement)
    ensures
        r@ == ristretto_hash_sha3_512(input@),
{
    RistrettoElement {
        inner: curve25519_dalek::RistrettoPoint::hash_from_bytes::<sha3::Sha3_512>(input),
    }
}

impl CompressedRistretto {
    /// The encoding of the neutral element.
    pub fn identity() -> (r: CompressedRistretto)
        ensures
            r@ == identity_encoding(),
    {
        let r = CompressedRistretto([0u8; 32]);
        assert(r@ =~= identity_encoding());
        r
    }

    pub fn to_bytes(&self) -> (r: [u8; 32])
        ensures
            r@ == self@,
    {
        self.0
    }

    pub fn as_bytes(&self) -> (r: &[u8; 32])
        ensures
            r@ == self@,
    {
        &self.0
    }

    /// Whether these are the 32 zero bytes that encode the neutral element.
    pub fn is_identity(&self) -> (r: bool)
        ensures
            r == (self@ == identity_encoding()),
    {
        let mut i: usize = 0;
        while i < 32
            invariant
                i <= 32,
                forall|k: int| 0 <= k < i ==> self.0@[k] == 0u8,
            decreases 32 - i,
        {
            if self.0[i] != 0 {
                assert(identity_encoding()[i as int] == 0u8);
                return false;
            }
            i += 1;
        }
        assert(self@ =~= identity_encoding());
        true
    }

    /// Whether two encodings are the same bytes.
    pub fn eq(&self, other: &CompressedRistretto) -> (r: bool)
        ensures
            r == (self@ == other@),
    {
        let mut i: usize = 0;
        while i < 32
            invariant
                i <= 32,
                forall|k: int| 0 <= k < i ==> self.0@[k] == other.0@[k],
            decreases 32 - i,
        {
            if self.0[i] != other.0[i] {
                return false;
            }
            i += 1;
        }
        assert(self@ =~= other@);
        true
    }

    /// The group element that the bytes encode, if they encode one.
    pub fn decompress(&self) -> (r: Option<RistrettoElement>)
        ensures
            r is Some <==> ristretto_decodes(self@),
            r matches Some(p) ==> p@ == self@,
    {
        point_decompress(&self.0)
    }
}

impl RistrettoElement {
    /// The encoding of the element.
    pub fn compress(&self) -> (r: CompressedRistretto)
        ensures
            r@ == self@,
            ristretto_decodes(self@),
    {
        CompressedRistretto(point_compress(self))
    }

    /// The neutral element.
    pub fn identity() -> (r: RistrettoElement)
        ensures
            r@ == identity_encoding(),
    {
        point_identity()
    }

    /// The Ristretto255 basepoint.
    pub fn basepoint() -> (r: RistrettoElement)
        ensures
            r@ == basepoint_encoding(),
    {
        point_basepoint()
    }

    /// Whether two elements are the same.
    pub fn eq(&self, other: &RistrettoElement) -> (r: bool)
        ensures
            r == (self@ == other@),
    {
        self.compress().eq(&other.compress())
    }

    /// Whether this is the neutral element.
    pub fn is_identity(&self) -> (r: bool)
        ensures
            r == (self@ == identity_encoding()),
    {
        self.compress().is_identity()
    }

    pub fn add(&self, rhs: &RistrettoElement) -> (r: RistrettoElement)
        ensures
            r@ == ristretto_sum(self@, rhs@),
    {
        point_add(self, rhs)
    }

    /// The inverse of this element.
    pub fn neg(&self) -> (r: RistrettoElement)
        ensures
            r@ == ristretto_negation(self@),
    {
        point_neg(self)
    }

    /// `b` if the choice is set, else `a`, in constant time.
    pub fn conditional_select(a: &RistrettoElement, b: &RistrettoElement, choice: bool) -> (r:
        RistrettoElement)
        ensures
            r == if choice {
                *b
            } else {
                *a
            },
    {
        point_select(a, b, choice)
    }

    /// `s` times this element, in constant time.
    pub fn mul(&self, s: &Scalar) -> (r: RistrettoElement)
        ensures
            r@ == ristretto_product(s@, self@),
    {
        point_mul(s, self)
    }

    /// One step of doubling and adding: from `x` times this element to
    /// `2 x` or `2 x + 1` times this element.
    fn double_and_add(&self, acc: RistrettoElement, started: bool, bit: bool, Ghost(x): Ghost<nat>)
        -> (r: RistrettoElement)
        requires
            acc@ == ristretto_product(x, self@),
            started == (x > 0),
        ensures
            r@ == ristretto_product(
                2 * x + if bit {
                    1nat
                } else {
                    0nat
                },
                self@,
            ),
    {
        proof {
            reveal_with_fuel(ristretto_product, 2);
        }
        if !started {
            if bit {
                *self
            } else {
                acc
            }
        } else {
            let twice = acc.add(&acc);
            if bit {
                twice.add(self)
            } else {
                twice
            }
        }
    }

    /// Eight steps of doubling and adding, for the bits of `v` from the
    /// highest: from `x` times this element to `256 x + v` times this
    /// element.
    fn mul_byte(&self, acc: RistrettoElement, started: bool, v: u8, Ghost(x): Ghost<nat>) -> (r: (
        RistrettoElement,
        bool,
    ))
        requires
            acc@ == ristretto_product(x, self@),
            started == (x > 0),
        ensures
            r.0@ == ristretto_product(256 * x + v as nat, self@),
            r.1 == (256 * x + v as nat > 0),
    {
        let b7 = (v / 128) % 2 == 1;
        let b6 = (v / 64) % 2 == 1;
        let b5 = (v / 32) % 2 == 1;
        let b4 = (v / 16) % 2 == 1;
        let b3 = (v / 8) % 2 == 1;
        let b2 = (v / 4) % 2 == 1;
        let b1 = (v / 2) % 2 == 1;
        let b0 = v % 2 == 1;
        let ghost x7: nat = 2 * x + (v / 128) as nat;
        let ghost x6: nat = 4 * x + (v / 64) as nat;
        let ghost x5: nat = 8 * x + (v / 32) as nat;
        let ghost x4: nat = 16 * x + (v / 16) as nat;
        let ghost x3: nat = 32 * x + (v / 8) as nat;
        let ghost x2: nat = 64 * x + (v / 4) as nat;
        let ghost x1: nat = 128 * x + (v / 2) as nat;
        let a7 = self.double_and_add(acc, started, b7, Ghost(x));
        let a6 = self.double_and_add(a7, started || b7, b6, Ghost(x7));
        let a5 = self.double_and_add(a6, started || b7 || b6, b5, Ghost(x6));
        let a4 = self.double_and_add(a5, started || b7 || b6 || b5, b4, Ghost(x5));
        let a3 = self.double_and_add(a4, started || b7 || b6 || b5 || b4, b3, Ghost(x4));
        let a2 = self.double_and_add(a3, started || b7 || b6 || b5 || b4 || b3, b2, Ghost(x3));
        let a1 = self.double_and_add(
            a2,
            started || b7 || b6 || b5 || b4 || b3 || b2,
            b1,
            Ghost(x2),
        );
        let a0 = self.double_and_add(
            a1,
            started || b7 || b6 || b5 || b4 || b3 || b2 || b1,
            b0,
            Ghost(x1),
        );
        (a0, started || v != 0)
    }

    /// `s` times this element, by doubling and adding, in a time that
    /// depends on `s`: for scalars that are public.
    pub fn vartime_mul(&self, s: &Scalar) -> (r: RistrettoElement)
        ensures
            r@ == ristretto_product(s@, self@),
    {
        let bytes = s.to_bytes();
        let mut acc = RistrettoElement::identity();
        let mut started = false;
        proof {
            reveal_with_fuel(ristretto_product, 1);
        }
        let ghost mut x: nat = 0;
        let mut i: usize = 32;
        assert(bytes@.skip(32) =~= Seq::<u8>::empty());
        while i > 0
            invariant
                i <= 32,
                acc@ == ristretto_product(x, self@),
                started == (x > 0),
                x == crate::scalar::le_nat(bytes@.skip(i as int)),
            decreases i,
        {
            i -= 1;
            proof {
                assert(bytes@.skip(i as int).skip(1) =~= bytes@.skip(i + 1));
                assert(bytes@.skip(i as int)[0] == bytes@[i as int]);
            }
            let next = self.mul_byte(acc, started, bytes[i], Ghost(x));
            acc = next.0;
            started = next.1;
            proof {
                x = 256 * x + bytes[i as int] as nat;
            }
        }
        assert(bytes@.skip(0) =~= bytes@);
        acc
    }

    /// The sum of the products, each by doubling and adding, in a time that
    /// depends on the scalars: for scalars that are public.
    pub fn vartime_sum_of_products(scalars: &[Scalar], points: &[RistrettoElement]) -> (r:
        RistrettoElement)
        requires
            scalars.len() == points.len(),
        ensures
            r@ == msm(scalars.deep_view(), points.deep_view()),
    {
        let mut acc = RistrettoElement::identity();
        let ghost terms = Seq::new(
            scalars.len() as nat,
            |i: int| ristretto_product(scalars[i]@, points[i]@),
        );
        let mut i: usize = 0;
        assert(terms.take(0) =~= Seq::<Seq<u8>>::empty());
        while i < scalars.len()
            invariant
                i <= scalars.len(),
                scalars.len() == points.len(),
                terms == Seq::new(
                    scalars.len() as nat,
                    |i: int| ristretto_product(scalars[i]@, points[i]@),
                ),
                acc@ == point_sum(terms.take(i as int)),
            decreases scalars.len() - i,
        {
            proof {
                assert(terms.take(i + 1).drop_last() =~= terms.take(i as int));
            }
            let term = points[i].vartime_mul(&scalars[i]);
            acc = acc.add(&term);
            i += 1;
        }
        proof {
            assert(terms.take(scalars.len() as int) =~= terms);
            assert(terms =~= Seq::new(
                scalars.deep_view().len(),
                |i: int| ristretto_product(scalars.deep_view()[i], points.deep_view()[i]),
            ));
        }
        acc
    }

    /// The sum of the products in constant time; `None` when the lengths differ.
    pub fn multiscalar_mul(scalars: &[Scalar], points: &[RistrettoElement]) -> (r: Option<
        RistrettoElement,
    >)
        ensures
            r is Some <==> scalars.len() == points.len(),
            r matches Some(q) ==> q@ == msm(scalars.deep_view(), points.deep_view()),
    {
        if scalars.len() != points.len() {
            return None;
        }
        Some(point_msm(scalars, points))
    }

    /// The sum of the products in variable time; `None` when the lengths differ.
    pub fn vartime_multiscalar_mul(scalars: &[Scalar], points: &[RistrettoElement]) -> (r: Option<
        RistrettoElement,
    >)
        ensures
            r is Some <==> scalars.len() == points.len(),
            r matches Some(q) ==> q@ == msm(scalars.deep_view(), points.deep_view()),
    {
        if scalars.len() != points.len() {
            return None;
        }
        Some(point_vartime_msm(scalars, points))
    }

    /// The sum of the products in variable time; `None` when the lengths
    /// differ or a point is absent.
    pub fn optional_multiscalar_mul(scalars: &[Scalar], points: &[Option<RistrettoElement>]) -> (r:
        Option<RistrettoElement>)
        ensures
            r is Some <==> scalars.len() == points.len() && all_present(points.deep_view()),
            r matches Some(q) ==> q@ == msm(scalars.deep_view(), unwrap_all(points.deep_view())),
    {
        if scalars.len() != points.len() {
            return None;
        }
        point_optional_msm(scalars, points)
    }

    /// The element that the one-way map sends 64 uniform bytes to.
    pub fn from_uniform_bytes(bytes: &[u8; 64]) -> (r: RistrettoElement)
        ensures
            r@ == ristretto_from_uniform(bytes@),
    {
        point_from_uniform(bytes)
    }

    /// The element that `input` hashes to under SHA3-512.
    pub fn hash_from_bytes(input: &[u8]) -> (r: RistrettoElement)
        ensures
            r@ == ristretto_hash_sha3_512(input@),
    {
        point_hash_sha3_512(input)
    }
}

} // verus!
