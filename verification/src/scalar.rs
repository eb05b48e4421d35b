//! Scalars of the Ristretto255 group: integers modulo the group order,
//! held as their canonical 32-byte little-endian encoding.

use vstd::arithmetic::div_mod::*;
use vstd::arithmetic::mul::*;
use vstd::prelude::*;
use zeroize::Zeroize;

verus! {

/// The order of the Ristretto255 group, `2^252 + 27742317777372353535851937790883648493`.
pub open spec fn group_order() -> nat {
    0x1000000000000000000000000000000014def9dea2f79cd65812631a5cf5d3ednat
}

/// `256^len`.
pub open spec fn radix(len: nat) -> nat
    decreases len,
{
    if len == 0 {
        1
    } else {
        256 * radix((len - 1) as nat)
    }
}

/// The integer that a byte string encodes in little-endian order.
pub open spec fn le_nat(b: Seq<u8>) -> nat
    decreases b.len(),
{
    if b.len() == 0 {
        0
    } else {
        b[0] as nat + 256 * le_nat(b.skip(1))
    }
}

/// The little-endian encoding of `v` in `len` bytes (the low `len` bytes of `v`).
pub open spec fn le_bytes(v: nat, len: nat) -> Seq<u8>
    decreases len,
{
    if len == 0 {
        Seq::empty()
    } else {
        seq![(v % 256) as u8] + le_bytes(v / 256, (len - 1) as nat)
    }
}

pub proof fn lemma_le_bytes_len(v: nat, len: nat)
    ensures
        le_bytes(v, len).len() == len,
    decreases len,
{
    if len > 0 {
        lemma_le_bytes_len(v / 256, (len - 1) as nat);
    }
}

pub proof fn lemma_le_nat_bound(b: Seq<u8>)
    ensures
        le_nat(b) < radix(b.len()),
    decreases b.len(),
{
    if b.len() > 0 {
        lemma_le_nat_bound(b.skip(1));
    }
}

/// Encoding a value that fits and decoding it again gives the value back.
pub proof fn lemma_le_nat_of_le_bytes(v: nat, len: nat)
    requires
        v < radix(len),
    ensures
        le_nat(le_bytes(v, len)) == v,
    decreases len,
{
    if len > 0 {
        let rest = le_bytes(v / 256, (len - 1) as nat);
        let all = le_bytes(v, len);
        lemma_le_nat_of_le_bytes(v / 256, (len - 1) as nat);
        assert(all.skip(1) =~= rest);
        assert(all[0] == (v % 256) as u8);
    }
}

/// Decoding a byte string and encoding the value in the same length gives
/// the byte string back.
pub proof fn lemma_le_bytes_of_le_nat(b: Seq<u8>)
    ensures
        le_bytes(le_nat(b), b.len()) == b,
    decreases b.len(),
{
    if b.len() > 0 {
        let v = le_nat(b);
        let tail = b.skip(1);
        lemma_le_bytes_of_le_nat(tail);
        assert(v % 256 == b[0] as nat && v / 256 == le_nat(tail)) by {
            lemma_fundamental_div_mod_converse(v as int, 256, le_nat(tail) as int, b[0] as int);
        }
        assert(le_bytes(v, b.len()) =~= b);
    }
}

/// Two byte strings of one length that encode the same integer are equal.
pub proof fn lemma_le_nat_injective(a: Seq<u8>, b: Seq<u8>)
    requires
        a.len() == b.len(),
        le_nat(a) == le_nat(b),
    ensures
        a == b,
{
    lemma_le_bytes_of_le_nat(a);
    lemma_le_bytes_of_le_nat(b);
}

pub proof fn lemma_radix_32()
    ensures
        radix(32) == 0x10000000000000000000000000000000000000000000000000000000000000000nat,
        group_order() < radix(32),
{
    reveal_with_fuel(radix, 33);
}

/// Sum of two residues.
pub open spec fn fadd(a: nat, b: nat) -> nat {
    (a + b) % group_order()
}

/// Difference of two residues.
pub open spec fn fsub(a: nat, b: nat) -> nat {
    ((a as int - b as int) % (group_order() as int)) as nat
}

/// Product of two residues.
pub open spec fn fmul(a: nat, b: nat) -> nat {
    (a * b) % group_order()
}

/// The additive inverse of a residue.
pub open spec fn fneg(a: nat) -> nat {
    ((-(a as int)) % (group_order() as int)) as nat
}

/// `r` is a canonical multiplicative inverse of `a`.
pub open spec fn is_inverse(a: nat, r: nat) -> bool {
    r < group_order() && (a * r) % group_order() == 1
}

/// The multiplicative inverse of a residue; zero for zero.
pub open spec fn finv(a: nat) -> nat {
    if a % group_order() == 0 {
        0
    } else {
        choose|r: nat| is_inverse(a, r)
    }
}

/// A residue has at most one canonical inverse.
pub proof fn lemma_inverse_unique(a: nat, r1: nat, r2: nat)
    requires
        is_inverse(a, r1),
        is_inverse(a, r2),
    ensures
        r1 == r2,
{
    let l = group_order() as int;
    let a = a as int;
    let r1 = r1 as int;
    let r2 = r2 as int;
    // r1 == r1 * (a * r2) == (r1 * a) * r2 == r2, all modulo the order
    lemma_mul_mod_noop_general(r1, a * r2, l);
    lemma_mul_mod_noop_general(a * r1, r2, l);
    assert(r1 * (a * r2) == (a * r1) * r2) by (nonlinear_arith);
    assert(r1 * 1 == r1 && 1 * r2 == r2);
    lemma_small_mod(r1 as nat, l as nat);
    lemma_small_mod(r2 as nat, l as nat);
}

/// Multiplying by two factors in either order gives the same.
pub proof fn lemma_fmul_swap(x: nat, a: nat, b: nat)
    ensures
        fmul(fmul(x, a), b) == fmul(fmul(x, b), a),
{
    let l = group_order() as int;
    lemma_mul_mod_noop_general((x * a) as int, b as int, l);
    lemma_mul_mod_noop_general((x * b) as int, a as int, l);
    assert(x * a * b == x * b * a) by (nonlinear_arith);
}

/// Multiplying by the inverse of `c` and then by the square of `c` is
/// multiplying by `c`, for a residue `c` that is zero or has an inverse.
pub proof fn lemma_field_cancel(x: nat, c: nat)
    requires
        c < group_order(),
        c == 0 || is_inverse(c, finv(c)),
    ensures
        fmul(fmul(x, finv(c)), fmul(c, c)) == fmul(x, c),
{
    let l = group_order() as int;
    let f = finv(c);
    if c == 0 {
        assert(f == 0);
        assert(x * 0 == 0);
        assert(0 * 0 == 0);
    } else {
        lemma_mul_mod_noop_general((x * f) as int, (c * c) as int, l);
        assert((x * f) * (c * c) == (x * c) * (c * f)) by (nonlinear_arith);
        lemma_mul_mod_noop_general((x * c) as int, (c * f) as int, l);
        assert((x * c) * 1 == x * c);
    }
}

/// The product of two products is the product of the products of their
/// factors, taken crosswise.
pub proof fn lemma_fmul_pairs(a: nat, b: nat, c: nat, d: nat)
    ensures
        fmul(fmul(a, b), fmul(c, d)) == fmul(fmul(a, c), fmul(b, d)),
{
    let l = group_order() as int;
    lemma_mul_mod_noop_general((a * b) as int, (c * d) as int, l);
    lemma_mul_mod_noop_general((a * c) as int, (b * d) as int, l);
    assert((a * b) * (c * d) == (a * c) * (b * d)) by (nonlinear_arith);
}

/// An element of the scalar field, always reduced modulo the group order.
#[derive(Clone, Copy, Debug, PartialEq, Eq)]
pub struct Scalar {
    bytes: [u8; 32],
}

impl View for Scalar {
    type V = nat;

    closed spec fn view(&self) -> nat {
        le_nat(self.bytes@)
    }
}

impl DeepView for Scalar {
    type V = nat;

    open spec fn deep_view(&self) -> nat {
        self@
    }
}

/// The sum that `+` of `curve25519_dalek::Scalar` computes: the sum of the
/// two residues, reduced.
#[verifier::external_body]
fn scalar_add(a: &Scalar, b: &Scalar) -> (r: Scalar)
    ensures
        r@ == fadd(a@, b@),
{
    let x = curve25519_dalek::Scalar::from_bytes_mod_order(a.bytes);
    let y = curve25519_dalek::Scalar::from_bytes_mod_order(b.bytes);
    Scalar { bytes: (x + y).to_bytes() }
}

/// The difference that `-` of `curve25519_dalek::Scalar` computes, reduced
/// into `[0, order)`.
#[verifier::external_body]
fn scalar_sub(a: &Scalar, b: &Scalar) -> (r: Scalar)
    ensures
        r@ == fsub(a@, b@),
{
    let x = curve25519_dalek::Scalar::from_bytes_mod_order(a.bytes);
    let y = curve25519_dalek::Scalar::from_bytes_mod_order(b.bytes);
    Scalar { bytes: (x - y).to_bytes() }
}

/// The product that `*` of `curve25519_dalek::Scalar` computes, reduced.
#[verifier::external_body]
fn scalar_mul(a: &Scalar, b: &Scalar) -> (r: Scalar)
    ensures
        r@ == fmul(a@, b@),
{
    let x = curve25519_dalek::Scalar::from_bytes_mod_order(a.bytes);
    let y = curve25519_dalek::Scalar::from_bytes_mod_order(b.bytes);
    Scalar { bytes: (x * y).to_bytes() }
}

/// The negation that unary `-` of `curve25519_dalek::Scalar` computes.
#[verifier::external_body]
fn scalar_neg(a: &Scalar) -> (r: Scalar)
    ensures
        r@ == fneg(a@),
{
    let x = curve25519_dalek::Scalar::from_bytes_mod_order(a.bytes);
    Scalar { bytes: (-x).to_bytes() }
}

/// `curve25519_dalek::Scalar::invert`: for a nonzero residue the result times
/// the argument is one; the exponentiation it runs sends zero to zero.
#[verifier::external_body]
fn scalar_invert(a: &Scalar) -> (r: Scalar)
    ensures
        a@ % group_order() != 0 ==> is_inverse(a@, r@),
        a@ % group_order() == 0 ==> r@ == 0,
{
    let x = curve25519_dalek::Scalar::from_bytes_mod_order(a.bytes);
    Scalar { bytes: x.invert().to_bytes() }
}

/// `From<u64>` of `curve25519_dalek::Scalar`: the scalar whose value is `x`.
#[verifier::external_body]
fn scalar_from_u64(x: u64) -> (r: Scalar)
    ensures
        r@ == x,
{
    Scalar { bytes: curve25519_dalek::Scalar::from(x).to_bytes() }
}

/// `curve25519_dalek::Scalar::from_bytes_mod_order_wide`: the 512-bit
/// little-endian integer, reduced modulo the group order.
#[verifier::external_body]
fn scalar_from_wide(bytes: &[u8; 64]) -> (r: Scalar)
    ensures
        r@ == le_nat(bytes@) % group_order(),
{
    Scalar { bytes: curve25519_dalek::Scalar::from_bytes_mod_order_wide(bytes).to_bytes() }
}

/// `curve25519_dalek::Scalar::from_canonical_bytes`: the scalar that the 32
/// bytes encode, if and only if their value is below the group order.
#[verifier::external_body]
fn scalar_from_canonical(bytes: &[u8; 32]) -> (r: Option<Scalar>)
    ensures
        r is Some <==> le_nat(bytes@) < group_order(),
        r matches Some(s) ==> s@ == le_nat(bytes@),
{
    let parsed: Option<curve25519_dalek::Scalar> =
        curve25519_dalek::Scalar::from_canonical_bytes(*bytes).into();
    match parsed {
        Some(s) => Some(Scalar { bytes: s.to_bytes() }),
        None => None,
    }
}

#[verifier::external_type_specification]
#[verifier::external_body]
pub struct ExThreadRng(rand::rngs::ThreadRng);

/// `curve25519_dalek::Scalar::random`: a scalar drawn from the generator.
/// Nothing is known of which.
#[verifier::external_body]
fn scalar_random(rng: &mut rand::rngs::ThreadRng) -> (r: Scalar) {
    Scalar { bytes: curve25519_dalek::Scalar::random(rng).to_bytes() }
}

/// `Zeroize::zeroize` of the `zeroize` crate, on the scalar's bytes: they
/// are overwritten with zeros, by writes that the compiler may not drop.
#[verifier::external_body]
fn scalar_wipe(s: &mut Scalar)
    ensures
        final(s)@ == 0,
    no_unwind
{
    s.bytes.zeroize()
}

/// `rand::rng`: a handle to the thread's generator, which the operating
/// system seeds. It panics if the operating system gives no seed.
#[verifier::external_body]
fn thread_generator() -> (r: rand::rngs::ThreadRng) {
    rand::rng()
}

/// A handle to the thread's cryptographically secure generator.
pub fn thread_rng() -> (r: rand::rngs::ThreadRng) {
    thread_generator()
}

impl Scalar {
    #[verifier::type_invariant]
    spec fn reduced(self) -> bool {
        le_nat(self.bytes@) < group_order()
    }

    /// A scalar drawn from the generator: some element of the field, in reduced form.
    pub fn random(rng: &mut rand::rngs::ThreadRng) -> (r: Scalar)
        ensures
            r@ < group_order(),
    {
        let r = scalar_random(rng);
        proof {
            use_type_invariant(&r);
        }
        r
    }

    /// `n` scalars drawn from the generator, one after the other.
    pub fn random_vec(rng: &mut rand::rngs::ThreadRng, n: usize) -> (r: Vec<Scalar>)
        ensures
            r.len() == n,
    {
        let mut out: Vec<Scalar> = Vec::new();
        let mut i: usize = 0;
        while i < n
            invariant
                i <= n,
                out.len() == i,
            decreases n - i,
        {
            out.push(scalar_random(rng));
            i += 1;
        }
        out
    }

    /// Overwrites the scalar with zero, for a secret that is no longer
    /// needed.
    pub fn wipe(&mut self)
        ensures
            final(self)@ == 0,
        no_unwind
    {
        scalar_wipe(self)
    }

    /// The scalar zero.
    pub fn zero() -> (r: Scalar)
        ensures
            r@ == 0,
    {
        scalar_from_u64(0)
    }

    /// The scalar one.
    pub fn one() -> (r: Scalar)
        ensures
            r@ == 1,
    {
        scalar_from_u64(1)
    }

    /// The scalar with value `x`.
    pub fn from_u64(x: u64) -> (r: Scalar)
        ensures
            r@ == x,
    {
        scalar_from_u64(x)
    }

    /// Reduces a 512-bit little-endian integer modulo the group order.
    pub fn from_bytes_mod_order_wide(bytes: &[u8; 64]) -> (r: Scalar)
        ensures
            r@ == le_nat(bytes@) % group_order(),
    {
        scalar_from_wide(bytes)
    }

    /// Decodes a canonical encoding; `None` when the value is not below the
    /// group order.
    pub fn from_canonical_bytes(bytes: [u8; 32]) -> (r: Option<Scalar>)
        ensures
            r is Some <==> le_nat(bytes@) < group_order(),
            r matches Some(s) ==> s@ == le_nat(bytes@),
    {
        scalar_from_canonical(&bytes)
    }

    /// The canonical 32-byte little-endian encoding.
    pub fn to_bytes(&self) -> (r: [u8; 32])
        ensures
            r@ == le_bytes(self@, 32),
            le_nat(r@) == self@,
            self@ < group_order(),
    {
        proof {
            use_type_invariant(self);
            lemma_le_bytes_of_le_nat(self.bytes@);
        }
        self.bytes
    }

    pub fn add(&self, rhs: &Scalar) -> (r: Scalar)
        ensures
            r@ == fadd(self@, rhs@),
    {
        scalar_add(self, rhs)
    }

    pub fn sub(&self, rhs: &Scalar) -> (r: Scalar)
        ensures
            r@ == fsub(self@, rhs@),
    {
        scalar_sub(self, rhs)
    }

    pub fn mul(&self, rhs: &Scalar) -> (r: Scalar)
        ensures
            r@ == fmul(self@, rhs@),
    {
        scalar_mul(self, rhs)
    }

    pub fn neg(&self) -> (r: Scalar)
        ensures
            r@ == fneg(self@),
    {
        scalar_neg(self)
    }

    /// The multiplicative inverse; zero for zero.
    pub fn invert(&self) -> (r: Scalar)
        ensures
            r@ == finv(self@),
            self@ < group_order(),
            self@ == 0 || is_inverse(self@, finv(self@)),
    {
        let r = scalar_invert(self);
        proof {
            use_type_invariant(self);
            lemma_small_mod(self@, group_order());
            if self@ % group_order() != 0 {
                lemma_inverse_unique(self@, r@, finv(self@));
            }
        }
        r
    }

    /// Whether two scalars are the same residue.
    pub fn eq(&self, other: &Scalar) -> (r: bool)
        ensures
            r == (self@ == other@),
    {
        let mut i: usize = 0;
        while i < 32
            invariant
                i <= 32,
                forall|k: int| 0 <= k < i ==> self.bytes@[k] == other.bytes@[k],
            decreases 32 - i,
        {
            if self.bytes[i] != other.bytes[i] {
                proof {
                    if self@ == other@ {
                        lemma_le_nat_injective(self.bytes@, other.bytes@);
                    }
                }
                return false;
            }
            i += 1;
        }
        assert(self.bytes@ =~= other.bytes@);
        true
    }

    /// Whether the scalar is zero.
    pub fn is_zero(&self) -> (r: bool)
        ensures
            r == (self@ == 0),
    {
        let z = Scalar::zero();
        self.eq(&z)
    }
}

/// Overwrites every scalar of a vector with zero.
pub fn wipe_scalars(v: &mut Vec<Scalar>)
    ensures
        final(v).len() == old(v).len(),
        forall|i: int| 0 <= i < final(v).len() ==> (#[trigger] final(v)[i])@ == 0,
    no_unwind
{
    let mut i: usize = 0;
    while i < v.len()
        invariant
            i <= v.len(),
            v.len() == old(v).len(),
            forall|k: int| 0 <= k < i ==> (#[trigger] v[k])@ == 0,
        decreases v.len() - i,
    {
        v[i].wipe();
        i += 1;
    }
}

} // verus!
