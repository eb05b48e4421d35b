//! Range proofs: proofs that committed values lie in `[0, 2^n)`.

#![allow(non_snake_case)]

pub mod batch;
pub mod dealer;
pub mod messages;
pub mod party;
pub mod prove;

use crate::errors::ProofError;
use crate::inner_product_proof::ipp_parse;
use crate::inner_product_proof::ipp_serialize;
use crate::inner_product_proof::lemma_ipp_parse_serialize;
use crate::inner_product_proof::lemma_lr_bytes;
use crate::inner_product_proof::InnerProductProof;
use crate::inner_product_proof::InnerProductProofData;
use crate::ristretto::ristretto_decodes;
use crate::ristretto::CompressedRistretto;
use crate::ristretto::RistrettoElement;
use crate::scalar::group_order;
use crate::scalar::le_bytes;
use crate::scalar::le_nat;
use crate::scalar::lemma_le_bytes_len;
use crate::scalar::lemma_le_nat_of_le_bytes;
use crate::scalar::lemma_radix_32;
use crate::scalar::Scalar;
use crate::util::extend32;
use crate::util::geometric_sum;
use crate::util::read32;
use crate::util::sum_of_powers;
use merlin::Transcript;
use vstd::arithmetic::div_mod::lemma_mul_mod_noop_general;
use vstd::arithmetic::div_mod::lemma_sub_mod_noop;
use vstd::arithmetic::div_mod::lemma_sub_mod_noop_right;
use vstd::arithmetic::power::lemma_pow0;
use vstd::arithmetic::power::pow;
use vstd::prelude::*;
use vstd::slice::slice_subrange;

verus! {

/// What a range proof holds: four encoded points, three scalars and an
/// inner product proof.
pub struct RangeProofData {
    /// The commitment to the bits of the values.
    pub a: Seq<u8>,
    /// The commitment to the blinding vectors.
    pub s: Seq<u8>,
    /// The commitment to the coefficient `t_1` of `t(X)`.
    pub t_1: Seq<u8>,
    /// The commitment to the coefficient `t_2` of `t(X)`.
    pub t_2: Seq<u8>,
    /// The value of `t(X)` at the challenge `x`.
    pub t_x: nat,
    /// The blinding of the commitment to `t(x)`.
    pub t_x_blinding: nat,
    /// The blinding of the commitment to the two vectors.
    pub e_blinding: nat,
    /// The inner product proof.
    pub ipp: InnerProductProofData,
}

impl RangeProofData {
    /// Every proof that executable code holds is of this shape.
    pub open spec fn wf(self) -> bool {
        &&& self.a.len() == 32
        &&& self.s.len() == 32
        &&& self.t_1.len() == 32
        &&& self.t_2.len() == 32
        &&& self.t_x < group_order()
        &&& self.t_x_blinding < group_order()
        &&& self.e_blinding < group_order()
        &&& self.ipp.wf()
    }
}

/// The encoding of a proof: `A`, `S`, `T_1`, `T_2`, the three scalars, the
/// pairs of points of the inner product proof, and its two scalars.
pub open spec fn range_proof_serialize(p: RangeProofData) -> Seq<u8> {
    p.a + p.s + p.t_1 + p.t_2 + le_bytes(p.t_x, 32) + le_bytes(p.t_x_blinding, 32) + le_bytes(
        p.e_blinding,
        32,
    ) + ipp_serialize(p.ipp)
}

/// The proof that bytes encode, if they encode one: they are at least
/// seven blocks of 32 bytes, the three scalars are canonical, and what
/// follows them encodes an inner product proof.
pub open spec fn range_proof_parse(bytes: Seq<u8>) -> Option<RangeProofData> {
    if bytes.len() % 32 != 0 || bytes.len() < 7 * 32 {
        None
    } else {
        let t_x = le_nat(bytes.subrange(128, 160));
        let t_x_blinding = le_nat(bytes.subrange(160, 192));
        let e_blinding = le_nat(bytes.subrange(192, 224));
        if t_x >= group_order() || t_x_blinding >= group_order() || e_blinding >= group_order() {
            None
        } else {
            match ipp_parse(bytes.subrange(224, bytes.len() as int)) {
                None => None,
                Some(ipp) => Some(
                    RangeProofData {
                        a: bytes.subrange(0, 32),
                        s: bytes.subrange(32, 64),
                        t_1: bytes.subrange(64, 96),
                        t_2: bytes.subrange(96, 128),
                        t_x,
                        t_x_blinding,
                        e_blinding,
                        ipp,
                    },
                ),
            }
        }
    }
}

/// The encoding of a proof whose inner product proof has `k` rounds has
/// `32 (7 + 2 k + 2)` bytes.
pub proof fn lemma_range_proof_size(p: RangeProofData)
    requires
        p.wf(),
    ensures
        range_proof_serialize(p).len() == 32 * (7 + 2 * p.ipp.l_vec.len() + 2),
{
    lemma_lr_bytes(p.ipp.l_vec, p.ipp.r_vec);
    lemma_le_bytes_len(p.t_x, 32);
    lemma_le_bytes_len(p.t_x_blinding, 32);
    lemma_le_bytes_len(p.e_blinding, 32);
    lemma_le_bytes_len(p.ipp.a, 32);
    lemma_le_bytes_len(p.ipp.b, 32);
}

/// Decoding the encoding of a proof gives the proof back; for proofs with
/// fewer than 32 rounds, which are those that can be decoded at all.
pub proof fn lemma_range_proof_round_trip(p: RangeProofData)
    requires
        p.wf(),
        p.ipp.l_vec.len() < 32,
    ensures
        range_proof_parse(range_proof_serialize(p)) == Some(p),
{
    let bytes = range_proof_serialize(p);
    lemma_ipp_parse_serialize(p.ipp);
    lemma_le_bytes_len(p.t_x, 32);
    lemma_le_bytes_len(p.t_x_blinding, 32);
    lemma_le_bytes_len(p.e_blinding, 32);
    lemma_radix_32();
    lemma_le_nat_of_le_bytes(p.t_x, 32);
    lemma_le_nat_of_le_bytes(p.t_x_blinding, 32);
    lemma_le_nat_of_le_bytes(p.e_blinding, 32);
    assert(bytes.subrange(0, 32) =~= p.a);
    assert(bytes.subrange(32, 64) =~= p.s);
    assert(bytes.subrange(64, 96) =~= p.t_1);
    assert(bytes.subrange(96, 128) =~= p.t_2);
    assert(bytes.subrange(128, 160) =~= le_bytes(p.t_x, 32));
    assert(bytes.subrange(160, 192) =~= le_bytes(p.t_x_blinding, 32));
    assert(bytes.subrange(192, 224) =~= le_bytes(p.e_blinding, 32));
    assert(bytes.subrange(224, bytes.len() as int) =~= ipp_serialize(p.ipp));
}

/// `(z - z^2) <1, y^(nm)> - sum over j < m of z^(j+3) <1, 2^n>`: the terms
/// of the verification equation that depend on the challenges alone.
pub open spec fn delta_value(n: nat, m: nat, y: nat, z: nat) -> nat {
    let zi = z as int;
    (((zi - zi * zi) * geometric_sum(y as int, n * m) - zi * zi * zi * geometric_sum(2, n)
        * geometric_sum(zi, m)) % (group_order() as int)) as nat
}

/// The same terms for one value, summed power by power:
/// the sum over `i < n` of `(z - z^2) y^i - z^3 2^i`.
pub open spec fn delta_by_powers(n: nat, y: int, z: int) -> int
    decreases n,
{
    if n == 0 {
        0
    } else {
        delta_by_powers((n - 1) as nat, y, z) + (z - z * z) * pow(y, (n - 1) as nat) - z * z * z
            * pow(2, (n - 1) as nat)
    }
}

proof fn lemma_delta_by_powers(n: nat, y: int, z: int)
    ensures
        delta_by_powers(n, y, z) == (z - z * z) * geometric_sum(y, n) - z * z * z * geometric_sum(
            2,
            n,
        ),
    decreases n,
{
    if n > 0 {
        let k = (n - 1) as nat;
        lemma_delta_by_powers(k, y, z);
        let a = z - z * z;
        let b = z * z * z;
        assert(a * (geometric_sum(y, k) + pow(y, k)) == a * geometric_sum(y, k) + a * pow(y, k))
            by (nonlinear_arith);
        assert(b * (geometric_sum(2, k) + pow(2, k)) == b * geometric_sum(2, k) + b * pow(2, k))
            by (nonlinear_arith);
    } else {
        assert((z - z * z) * 0 == 0);
        assert(z * z * z * 0 == 0);
    }
}

/// For one value, the closed form of the challenge terms equals their sum
/// power by power, whatever the bitsize and the challenges.
pub proof fn lemma_delta_is_sum_by_powers(n: nat, y: nat, z: nat)
    ensures
        delta_value(n, 1, y, z) == delta_by_powers(n, y as int, z as int) % (group_order() as int),
{
    let zi = z as int;
    lemma_delta_by_powers(n, y as int, zi);
    reveal_with_fuel(geometric_sum, 2);
    lemma_pow0(zi);
    assert(geometric_sum(zi, 1) == 1);
    let c = zi * zi * zi * geometric_sum(2, n);
    assert(c * 1 == c);
    assert(n * 1 == n);
}

/// The terms of the verification equation that depend on the challenges
/// alone.
pub fn delta(n: usize, m: usize, y: &Scalar, z: &Scalar) -> (r: Scalar)
    requires
        n * m <= usize::MAX,
    ensures
        r@ == delta_value(n as nat, m as nat, y@, z@),
{
    let sum_y = sum_of_powers(y, n * m);
    let two = Scalar::from_u64(2);
    let sum_2 = sum_of_powers(&two, n);
    let sum_z = sum_of_powers(z, m);
    let zz = z.mul(z);
    let gap = z.sub(&zz);
    let head = gap.mul(&sum_y);
    let z3 = zz.mul(z);
    let pair = z3.mul(&sum_2);
    let tail = pair.mul(&sum_z);
    proof {
        let l = group_order() as int;
        let zi = z@ as int;
        let gy = geometric_sum(y@ as int, (n * m) as nat);
        let g2 = geometric_sum(2, n as nat);
        let gz = geometric_sum(zi, m as nat);
        lemma_sub_mod_noop_right(zi, zi * zi, l);
        assert(gap@ == (zi - zi * zi) % l);
        lemma_mul_mod_noop_general(zi - zi * zi, gy, l);
        assert(head@ == ((zi - zi * zi) * gy) % l);
        lemma_mul_mod_noop_general(zi * zi, zi, l);
        assert(z3@ == (zi * zi * zi) % l);
        lemma_mul_mod_noop_general(zi * zi * zi, g2, l);
        assert(pair@ == (zi * zi * zi * g2) % l);
        lemma_mul_mod_noop_general(zi * zi * zi * g2, gz, l);
        assert(tail@ == (zi * zi * zi * g2 * gz) % l);
        lemma_sub_mod_noop((zi - zi * zi) * gy, zi * zi * zi * g2 * gz, l);
    }
    head.sub(&tail)
}

/// A proof that one or more committed values lie in a range. The bitsize
/// of the range and the commitments are not part of the proof: the
/// verifier must know them.
#[derive(Clone, Debug)]
pub struct RangeProof {
    A: CompressedRistretto,
    S: CompressedRistretto,
    T_1: CompressedRistretto,
    T_2: CompressedRistretto,
    t_x: Scalar,
    t_x_blinding: Scalar,
    e_blinding: Scalar,
    ipp_proof: InnerProductProof,
}

impl View for RangeProof {
    type V = RangeProofData;

    closed spec fn view(&self) -> RangeProofData {
        RangeProofData {
            a: self.A@,
            s: self.S@,
            t_1: self.T_1@,
            t_2: self.T_2@,
            t_x: self.t_x@,
            t_x_blinding: self.t_x_blinding@,
            e_blinding: self.e_blinding@,
            ipp: self.ipp_proof@,
        }
    }
}

/// A commitment to a value, as the verifier is given it: its encoding goes
/// into the transcript, its point into the verification equation.
pub trait ValueCommitment {
    /// The encoding of the commitment.
    spec fn encoding(&self) -> Seq<u8>;

    /// The point of the commitment, if it has one.
    spec fn point(&self) -> Option<Seq<u8>>;

    fn decompress(&self) -> (r: Option<RistrettoElement>)
        ensures
            r.deep_view() == self.point(),
    ;

    fn compress(&self) -> (r: CompressedRistretto)
        ensures
            r@ == self.encoding(),
    ;
}

impl ValueCommitment for (RistrettoElement, CompressedRistretto) {
    open spec fn encoding(&self) -> Seq<u8> {
        self.1@
    }

    open spec fn point(&self) -> Option<Seq<u8>> {
        Some(self.0@)
    }

    fn decompress(&self) -> (r: Option<RistrettoElement>) {
        Some(self.0)
    }

    fn compress(&self) -> (r: CompressedRistretto) {
        self.1
    }
}

impl ValueCommitment for RistrettoElement {
    open spec fn encoding(&self) -> Seq<u8> {
        self@
    }

    open spec fn point(&self) -> Option<Seq<u8>> {
        Some(self@)
    }

    fn decompress(&self) -> (r: Option<RistrettoElement>) {
        Some(*self)
    }

    fn compress(&self) -> (r: CompressedRistretto) {
        RistrettoElement::compress(self)
    }
}

impl ValueCommitment for CompressedRistretto {
    open spec fn encoding(&self) -> Seq<u8> {
        self@
    }

    open spec fn point(&self) -> Option<Seq<u8>> {
        if ristretto_decodes(self@) {
            Some(self@)
        } else {
            None
        }
    }

    fn decompress(&self) -> (r: Option<RistrettoElement>) {
        CompressedRistretto::decompress(self)
    }

    fn compress(&self) -> (r: CompressedRistretto) {
        *self
    }
}

/// A proof together with what verifying it takes: the transcript, the
/// commitments and the bitsize.
pub struct RangeProofView<'a, V: ValueCommitment> {
    pub proof: &'a RangeProof,
    pub transcript: &'a mut Transcript,
    pub value_commitments: &'a [V],
    pub n: usize,
}

impl RangeProof {
    /// Puts a proof together from its parts.
    pub(crate) fn assemble(
        A: CompressedRistretto,
        S: CompressedRistretto,
        T_1: CompressedRistretto,
        T_2: CompressedRistretto,
        t_x: Scalar,
        t_x_blinding: Scalar,
        e_blinding: Scalar,
        ipp_proof: InnerProductProof,
    ) -> (r: RangeProof)
        ensures
            r@ == (RangeProofData {
                a: A@,
                s: S@,
                t_1: T_1@,
                t_2: T_2@,
                t_x: t_x@,
                t_x_blinding: t_x_blinding@,
                e_blinding: e_blinding@,
                ipp: ipp_proof@,
            }),
    {
        RangeProof { A, S, T_1, T_2, t_x, t_x_blinding, e_blinding, ipp_proof }
    }

    pub(crate) fn point_a(&self) -> (r: &CompressedRistretto)
        ensures
            r@ == self@.a,
    {
        &self.A
    }

    pub(crate) fn point_s(&self) -> (r: &CompressedRistretto)
        ensures
            r@ == self@.s,
    {
        &self.S
    }

    pub(crate) fn point_t_1(&self) -> (r: &CompressedRistretto)
        ensures
            r@ == self@.t_1,
    {
        &self.T_1
    }

    pub(crate) fn point_t_2(&self) -> (r: &CompressedRistretto)
        ensures
            r@ == self@.t_2,
    {
        &self.T_2
    }

    pub(crate) fn scalar_t_x(&self) -> (r: Scalar)
        ensures
            r@ == self@.t_x,
    {
        self.t_x
    }

    pub(crate) fn scalar_t_x_blinding(&self) -> (r: Scalar)
        ensures
            r@ == self@.t_x_blinding,
    {
        self.t_x_blinding
    }

    pub(crate) fn scalar_e_blinding(&self) -> (r: Scalar)
        ensures
            r@ == self@.e_blinding,
    {
        self.e_blinding
    }

    pub(crate) fn inner_proof(&self) -> (r: &InnerProductProof)
        ensures
            r@ == self@.ipp,
    {
        &self.ipp_proof
    }

    /// The encoding of the proof. Decoding it gives the proof back if it
    /// has fewer than 32 rounds.
    pub fn to_bytes(&self) -> (r: Vec<u8>)
        ensures
            r@ == range_proof_serialize(self@),
            self@.wf(),
            r@.len() == 32 * (7 + 2 * self@.ipp.l_vec.len() + 2),
            self@.ipp.l_vec.len() < 32 ==> range_proof_parse(r@) == Some(self@),
    {
        let mut buf: Vec<u8> = Vec::new();
        extend32(&mut buf, self.A.as_bytes());
        extend32(&mut buf, self.S.as_bytes());
        extend32(&mut buf, self.T_1.as_bytes());
        extend32(&mut buf, self.T_2.as_bytes());
        let t_x = self.t_x.to_bytes();
        let t_x_blinding = self.t_x_blinding.to_bytes();
        let e_blinding = self.e_blinding.to_bytes();
        extend32(&mut buf, &t_x);
        extend32(&mut buf, &t_x_blinding);
        extend32(&mut buf, &e_blinding);
        let mut ipp = self.ipp_proof.to_bytes();
        let ghost front = buf@;
        let ghost back = ipp@;
        buf.append(&mut ipp);
        proof {
            assert(buf@ =~= front + back);
            assert(buf@ =~= range_proof_serialize(self@));
            lemma_range_proof_size(self@);
            if self@.ipp.l_vec.len() < 32 {
                lemma_range_proof_round_trip(self@);
            }
        }
        buf
    }

    /// The proof that the bytes encode, or `FormatError`.
    pub fn from_bytes(slice: &[u8]) -> (r: Result<RangeProof, ProofError>)
        ensures
            match range_proof_parse(slice@) {
                Some(p) => r is Ok && r.unwrap()@ == p,
                None => r == Err::<RangeProof, ProofError>(ProofError::FormatError),
            },
    {
        if slice.len() % 32 != 0 {
            return Err(ProofError::FormatError);
        }
        if slice.len() < 7 * 32 {
            return Err(ProofError::FormatError);
        }
        let A = CompressedRistretto(read32(slice, 0));
        let S = CompressedRistretto(read32(slice, 32));
        let T_1 = CompressedRistretto(read32(slice, 64));
        let T_2 = CompressedRistretto(read32(slice, 96));
        let t_x = match Scalar::from_canonical_bytes(read32(slice, 128)) {
            Some(s) => s,
            None => {
                return Err(ProofError::FormatError);
            },
        };
        let t_x_blinding = match Scalar::from_canonical_bytes(read32(slice, 160)) {
            Some(s) => s,
            None => {
                return Err(ProofError::FormatError);
            },
        };
        let e_blinding = match Scalar::from_canonical_bytes(read32(slice, 192)) {
            Some(s) => s,
            None => {
                return Err(ProofError::FormatError);
            },
        };
        let rest = slice_subrange(slice, 224, slice.len());
        let ipp_proof = match InnerProductProof::from_bytes(rest) {
            Ok(p) => p,
            Err(e) => {
                return Err(e);
            },
        };
        Ok(RangeProof { A, S, T_1, T_2, t_x, t_x_blinding, e_blinding, ipp_proof })
    }

    /// A view of the proof for verification in a batch.
    pub fn verification_view<'a, V: ValueCommitment>(
        &'a self,
        transcript: &'a mut Transcript,
        value_commitments: &'a [V],
        n: usize,
    ) -> (r: RangeProofView<'a, V>)
        ensures
            r.proof == self,
            *r.transcript == *old(transcript),
            *final(r.transcript) == *final(transcript),
            r.value_commitments == value_commitments,
            r.n == n,
    {
        RangeProofView { proof: self, transcript, value_commitments, n }
    }
}

} // verus!
