//! The dealer of the multi-party protocol: it gathers the parties'
//! commitments, draws the challenges from the transcript and puts the
//! aggregated proof together, each step consuming the state before it.

#![allow(non_snake_case)]

use crate::errors::MPCError;
use crate::errors::MPCFailure;
use crate::generators::flat_generators;
use crate::generators::kind_g;
use crate::generators::kind_h;
use crate::generators::BulletproofGens;
use crate::generators::PedersenGens;
use crate::inner_product_proof::ipp_create;
use crate::inner_product_proof::InnerProductProof;
use crate::range_proof::batch::batch_add;
use crate::range_proof::batch::batch_empty;
use crate::range_proof::batch::batch_holds;
use crate::range_proof::batch::decoded;
use crate::range_proof::batch::encodings;
use crate::range_proof::batch::log_with_commitments;
use crate::range_proof::batch::points_of;
use crate::range_proof::batch::replay;
use crate::range_proof::messages::share_holds;
use crate::range_proof::messages::BitChallenge;
use crate::range_proof::messages::BitCommitment;
use crate::range_proof::messages::BitCommitmentData;
use crate::range_proof::messages::PolyChallenge;
use crate::range_proof::messages::PolyCommitment;
use crate::range_proof::messages::PolyCommitmentData;
use crate::range_proof::messages::ProofShare;
use crate::range_proof::messages::ProofShareData;
use crate::range_proof::party::valid_bitsize;
use crate::range_proof::RangeProof;
use crate::range_proof::RangeProofData;
use crate::ristretto::identity_encoding;
use crate::ristretto::point_sum;
use crate::ristretto::ristretto_product;
use crate::ristretto::CompressedRistretto;
use crate::ristretto::RistrettoElement;
use crate::scalar::fadd;
use crate::scalar::finv;
use crate::scalar::le_bytes;
use crate::scalar::thread_rng;
use crate::scalar::Scalar;
use crate::transcript::append_point;
use crate::transcript::append_scalar;
use crate::transcript::challenge_scalar;
use crate::transcript::challenge_value;
use crate::transcript::copy_transcript;
use crate::transcript::log_append;
use crate::transcript::log_challenge;
use crate::transcript::log_rangeproof_domain_sep;
use crate::transcript::rangeproof_domain_sep;
use crate::transcript::transcript_log;
use crate::transcript::TranscriptEvent;
use crate::util::is_pow2;
use crate::util::is_power_of_two;
use crate::util::lemma_pow2_product;
use crate::util::log2;
use crate::util::powers;
use crate::util::powers_of;
use merlin::Transcript;
use vstd::prelude::*;
use vstd::string::StringSliceAdditionalSpecFns;

verus! {

/// What the dealer knows from the start.
pub struct DealerSetupData {
    pub n: nat,
    pub m: nat,
    pub gens_capacity: nat,
    pub party_capacity: nat,
    pub b: Seq<u8>,
    pub b_blinding: Seq<u8>,
    /// The history of the transcript before the proof began.
    pub initial_log: Seq<TranscriptEvent>,
}

/// What the dealer knows after the bit commitments.
pub struct DealerBitsData {
    pub setup: DealerSetupData,
    pub y: nat,
    pub z: nat,
    pub bit_commitments: Seq<BitCommitmentData>,
    /// The sum of the parties' `A_j`.
    pub a: Seq<u8>,
    /// The sum of the parties' `S_j`.
    pub s: Seq<u8>,
}

/// What the dealer knows after the polynomial commitments.
pub struct DealerSharesData {
    pub bits: DealerBitsData,
    pub x: nat,
    pub poly_commitments: Seq<PolyCommitmentData>,
    /// The sum of the parties' `T_1_j`.
    pub t_1: Seq<u8>,
    /// The sum of the parties' `T_2_j`.
    pub t_2: Seq<u8>,
}

/// The dealer for `m` parties and `n` bits and the history with the domain
/// separator absorbed, or the reason why there is none: the bitsize is
/// checked first, then the number of parties, then the generators.
pub open spec fn dealer_new(
    log: Seq<TranscriptEvent>,
    n: nat,
    m: nat,
    gens_capacity: nat,
    party_capacity: nat,
    b: Seq<u8>,
    b_blinding: Seq<u8>,
) -> Result<(DealerSetupData, Seq<TranscriptEvent>), MPCFailure> {
    if !valid_bitsize(n) {
        Err(MPCFailure::InvalidBitsize)
    } else if !is_pow2(m) {
        Err(MPCFailure::InvalidAggregationSize)
    } else if gens_capacity < n || party_capacity < m {
        Err(MPCFailure::InvalidGeneratorsLength)
    } else {
        Ok(
            (
                DealerSetupData {
                    n,
                    m,
                    gens_capacity,
                    party_capacity,
                    b,
                    b_blinding,
                    initial_log: log,
                },
                log_rangeproof_domain_sep(log, n, m),
            ),
        )
    }
}

/// The positions of the parties whose own `A_j` or `S_j` is the neutral
/// element, in increasing order.
pub open spec fn neutral_positions(bcs: Seq<BitCommitmentData>) -> Seq<usize>
    decreases bcs.len(),
{
    if bcs.len() == 0 {
        Seq::empty()
    } else {
        let rest = neutral_positions(bcs.drop_last());
        if bcs.last().a_j == identity_encoding() || bcs.last().s_j == identity_encoding() {
            rest.push((bcs.len() - 1) as usize)
        } else {
            rest
        }
    }
}

/// The dealer after the bit commitments and the history left. Each `V_j`
/// is absorbed, then the sums `A` and `S`, and `y` and `z` are drawn. A sum
/// that is the neutral element is refused, and the parties whose own
/// commitment is the neutral element are named.
#[verifier::opaque]
pub open spec fn dealer_receive_bits(
    d: DealerSetupData,
    log: Seq<TranscriptEvent>,
    bcs: Seq<BitCommitmentData>,
) -> Result<(DealerBitsData, Seq<TranscriptEvent>), MPCFailure> {
    let a = point_sum(Seq::new(bcs.len(), |j: int| bcs[j].a_j));
    let s = point_sum(Seq::new(bcs.len(), |j: int| bcs[j].s_j));
    if d.m != bcs.len() {
        Err(MPCFailure::WrongNumBitCommitments)
    } else if a == identity_encoding() || s == identity_encoding() {
        Err(MPCFailure::MalformedProofShares { bad_shares: neutral_positions(bcs) })
    } else {
        let l0 = log_with_commitments(log, Seq::new(bcs.len(), |j: int| bcs[j].v_j));
        let l1 = log_append(log_append(l0, "A".spec_bytes(), a), "S".spec_bytes(), s);
        let y = challenge_value(l1, "y".spec_bytes());
        let l2 = log_challenge(l1, "y".spec_bytes());
        let z = challenge_value(l2, "z".spec_bytes());
        Ok(
            (
                DealerBitsData { setup: d, y, z, bit_commitments: bcs, a, s },
                log_challenge(l2, "z".spec_bytes()),
            ),
        )
    }
}

/// The dealer after the polynomial commitments and the history left: the
/// sums `T_1` and `T_2` are absorbed and `x` is drawn.
#[verifier::opaque]
pub open spec fn dealer_receive_polys(
    d: DealerBitsData,
    log: Seq<TranscriptEvent>,
    pcs: Seq<PolyCommitmentData>,
) -> Result<(DealerSharesData, Seq<TranscriptEvent>), MPCFailure> {
    if d.setup.m != pcs.len() {
        Err(MPCFailure::WrongNumPolyCommitments)
    } else {
        let t_1 = point_sum(Seq::new(pcs.len(), |j: int| pcs[j].t_1_j));
        let t_2 = point_sum(Seq::new(pcs.len(), |j: int| pcs[j].t_2_j));
        let l1 = log_append(log_append(log, "T_1".spec_bytes(), t_1), "T_2".spec_bytes(), t_2);
        Ok(
            (
                DealerSharesData {
                    bits: d,
                    x: challenge_value(l1, "x".spec_bytes()),
                    poly_commitments: pcs,
                    t_1,
                    t_2,
                },
                log_challenge(l1, "x".spec_bytes()),
            ),
        )
    }
}

/// The dealer keeps what it knew and the commitments that it was given.
pub proof fn lemma_dealer_keeps(
    d0: DealerSetupData,
    l0: Seq<TranscriptEvent>,
    bcs: Seq<BitCommitmentData>,
    l1: Seq<TranscriptEvent>,
    pcs: Seq<PolyCommitmentData>,
)
    ensures
        dealer_receive_bits(d0, l0, bcs) matches Ok((d1, _)) ==> d1.setup == d0
            && d1.bit_commitments == bcs && (dealer_receive_polys(d1, l1, pcs) matches Ok(
            (d2, _),
        ) ==> d2.bits == d1 && d2.poly_commitments == pcs),
{
    reveal(dealer_receive_bits);
    reveal(dealer_receive_polys);
}

/// The sum of a sequence of scalars.
pub open spec fn scalar_sum(s: Seq<nat>) -> nat
    decreases s.len(),
{
    if s.len() == 0 {
        0
    } else {
        fadd(scalar_sum(s.drop_last()), s.last())
    }
}

/// The vectors of a sequence, one after the other.
pub open spec fn concat_all(vs: Seq<Seq<nat>>) -> Seq<nat>
    decreases vs.len(),
{
    if vs.len() == 0 {
        Seq::empty()
    } else {
        concat_all(vs.drop_last()) + vs.last()
    }
}

/// The positions of the shares whose vectors do not have `n` entries each,
/// in increasing order.
pub open spec fn missized_positions(shares: Seq<ProofShareData>, n: nat) -> Seq<usize>
    decreases shares.len(),
{
    if shares.len() == 0 {
        Seq::empty()
    } else {
        let rest = missized_positions(shares.drop_last(), n);
        if shares.last().l_vec.len() != n || shares.last().r_vec.len() != n {
            rest.push((shares.len() - 1) as usize)
        } else {
            rest
        }
    }
}

/// The aggregated proof and the history left. The shares' scalars are
/// summed and absorbed, `w` is drawn, and the inner product proof is made
/// for the shares' vectors, one after the other, over the generators of `m`
/// parties and `n` bits, those of `H` scaled by the powers of `1 / y`, with
/// `Q = w B`. Shares of a wrong size are named.
#[verifier::opaque]
pub open spec fn dealer_assemble(
    d: DealerSharesData,
    log: Seq<TranscriptEvent>,
    shares: Seq<ProofShareData>,
) -> Result<(RangeProofData, Seq<TranscriptEvent>), MPCFailure> {
    let n = d.bits.setup.n;
    let m = d.bits.setup.m;
    if m != shares.len() {
        Err(MPCFailure::WrongNumProofShares)
    } else if missized_positions(shares, n).len() > 0 {
        Err(MPCFailure::MalformedProofShares { bad_shares: missized_positions(shares, n) })
    } else {
        let t_x = scalar_sum(Seq::new(shares.len(), |j: int| shares[j].t_x));
        let t_x_blinding = scalar_sum(Seq::new(shares.len(), |j: int| shares[j].t_x_blinding));
        let e_blinding = scalar_sum(Seq::new(shares.len(), |j: int| shares[j].e_blinding));
        let l1 = log_append(log, "t_x".spec_bytes(), le_bytes(t_x, 32));
        let l2 = log_append(l1, "t_x_blinding".spec_bytes(), le_bytes(t_x_blinding, 32));
        let l3 = log_append(l2, "e_blinding".spec_bytes(), le_bytes(e_blinding, 32));
        let w = challenge_value(l3, "w".spec_bytes());
        let l4 = log_challenge(l3, "w".spec_bytes());
        let made = ipp_create(
            l4,
            ristretto_product(w, d.bits.setup.b),
            Seq::new(n * m, |i: int| 1nat),
            powers_of(finv(d.bits.y), n * m),
            flat_generators(kind_g(), n, m),
            flat_generators(kind_h(), n, m),
            concat_all(Seq::new(shares.len(), |j: int| shares[j].l_vec)),
            concat_all(Seq::new(shares.len(), |j: int| shares[j].r_vec)),
        );
        Ok(
            (
                RangeProofData {
                    a: d.bits.a,
                    s: d.bits.s,
                    t_1: d.t_1,
                    t_2: d.t_2,
                    t_x,
                    t_x_blinding,
                    e_blinding,
                    ipp: made.0,
                },
                made.1,
            ),
        )
    }
}

/// Whether the share at position `j` holds against the commitments and the
/// challenges that the dealer has.
pub open spec fn dealer_share_holds(d: DealerSharesData, shares: Seq<ProofShareData>, j: int)
    -> bool {
    share_holds(
        shares[j],
        d.bits.setup.gens_capacity,
        d.bits.setup.party_capacity,
        d.bits.setup.b,
        d.bits.setup.b_blinding,
        j as nat,
        d.bits.bit_commitments[j],
        d.bits.y,
        d.bits.z,
        d.poly_commitments[j],
        d.x,
    )
}

/// The positions among the first `k` of the shares that do not hold, in
/// increasing order.
pub open spec fn bad_positions(d: DealerSharesData, shares: Seq<ProofShareData>, k: nat) -> Seq<
    usize,
>
    decreases k,
{
    if k == 0 {
        Seq::empty()
    } else {
        let rest = bad_positions(d, shares, (k - 1) as nat);
        if dealer_share_holds(d, shares, k - 1) {
            rest
        } else {
            rest.push((k - 1) as usize)
        }
    }
}

/// Whether the aggregated proof verifies against the parties' value
/// commitments, from the history that the transcript had before the proof
/// began, with the batch factor given.
pub open spec fn dealer_proof_verifies(d: DealerSharesData, proof: RangeProofData, factor: nat)
    -> bool {
    let setup = d.bits.setup;
    let vs = Seq::new(d.bits.bit_commitments.len(), |j: int| d.bits.bit_commitments[j].v_j);
    match replay(setup.initial_log, proof, vs, setup.n, setup.gens_capacity, setup.party_capacity) {
        Err(_) => false,
        Ok(rp) => batch_holds(
            batch_add(
                batch_empty(),
                rp,
                proof,
                Seq::new(vs.len(), |j: int| decoded(vs[j])),
                setup.n,
                factor,
            ),
            setup.b,
            setup.b_blinding,
        ),
    }
}

/// The aggregated proof of shares that are not trusted, and the history
/// left: the proof is put together and verified; if it does not verify,
/// each share is checked on its own and those that do not hold are named.
pub open spec fn dealer_receive_shares(
    d: DealerSharesData,
    log: Seq<TranscriptEvent>,
    shares: Seq<ProofShareData>,
    factor: nat,
) -> Result<(RangeProofData, Seq<TranscriptEvent>), MPCFailure> {
    match dealer_assemble(d, log, shares) {
        Err(e) => Err(e),
        Ok((proof, log2)) => if dealer_proof_verifies(d, proof, factor) {
            Ok((proof, log2))
        } else {
            Err(
                MPCFailure::MalformedProofShares {
                    bad_shares: bad_positions(d, shares, shares.len()),
                },
            )
        },
    }
}

/// The entry point of the dealer's side of the protocol.
pub struct Dealer {}

/// The dealer's own state from the start.
pub struct DealerSetup<'b> {
    bp_gens: &'b BulletproofGens,
    pc_gens: &'b PedersenGens,
    initial_transcript: Transcript,
    n: usize,
    m: usize,
}

/// The dealer's own state after the bit commitments.
pub struct DealerBits<'b> {
    setup: DealerSetup<'b>,
    bit_challenge: BitChallenge,
    bit_commitments: Vec<BitCommitment>,
    A: RistrettoElement,
    S: RistrettoElement,
}

/// The dealer's own state after the polynomial commitments.
pub struct DealerShares<'b> {
    bits: DealerBits<'b>,
    poly_challenge: PolyChallenge,
    poly_commitments: Vec<PolyCommitment>,
    T_1: RistrettoElement,
    T_2: RistrettoElement,
}

/// A dealer that waits for the parties' bit commitments.
pub struct DealerAwaitingBitCommitments<'a, 'b> {
    pub transcript: &'a mut Transcript,
    pub state: DealerSetup<'b>,
}

/// A dealer that waits for the parties' polynomial commitments.
pub struct DealerAwaitingPolyCommitments<'a, 'b> {
    pub transcript: &'a mut Transcript,
    pub state: DealerBits<'b>,
}

/// A dealer that waits for the parties' proof shares.
pub struct DealerAwaitingProofShares<'a, 'b> {
    pub transcript: &'a mut Transcript,
    pub state: DealerShares<'b>,
}

impl<'b> View for DealerSetup<'b> {
    type V = DealerSetupData;

    closed spec fn view(&self) -> DealerSetupData {
        DealerSetupData {
            n: self.n as nat,
            m: self.m as nat,
            gens_capacity: self.bp_gens.gens_capacity() as nat,
            party_capacity: self.bp_gens.party_capacity() as nat,
            b: self.pc_gens.B@,
            b_blinding: self.pc_gens.B_blinding@,
            initial_log: transcript_log(self.initial_transcript),
        }
    }
}

impl<'b> View for DealerBits<'b> {
    type V = DealerBitsData;

    closed spec fn view(&self) -> DealerBitsData {
        DealerBitsData {
            setup: self.setup@,
            y: self.bit_challenge.y@,
            z: self.bit_challenge.z@,
            bit_commitments: Seq::new(
                self.bit_commitments.len() as nat,
                |j: int| self.bit_commitments[j]@,
            ),
            a: self.A@,
            s: self.S@,
        }
    }
}

impl<'b> View for DealerShares<'b> {
    type V = DealerSharesData;

    closed spec fn view(&self) -> DealerSharesData {
        DealerSharesData {
            bits: self.bits@,
            x: self.poly_challenge.x@,
            poly_commitments: Seq::new(
                self.poly_commitments.len() as nat,
                |j: int| self.poly_commitments[j]@,
            ),
            t_1: self.T_1@,
            t_2: self.T_2@,
        }
    }
}

impl<'b> DealerSetup<'b> {
    #[verifier::type_invariant]
    spec fn wf(self) -> bool {
        &&& valid_bitsize(self.n as nat)
        &&& is_pow2(self.m as nat)
        &&& self.n <= self.bp_gens.gens_capacity()
        &&& self.m <= self.bp_gens.party_capacity()
    }
}

impl<'b> DealerBits<'b> {
    #[verifier::type_invariant]
    spec fn wf(self) -> bool {
        self.bit_commitments.len() == self.setup.m
    }
}

impl<'b> DealerShares<'b> {
    #[verifier::type_invariant]
    spec fn wf(self) -> bool {
        self.poly_commitments.len() == self.bits.setup.m
    }
}

/// The views of the bit commitments of a vector.
pub open spec fn bit_commitment_views(v: Seq<BitCommitment>) -> Seq<BitCommitmentData> {
    Seq::new(v.len(), |j: int| v[j]@)
}

/// The views of the polynomial commitments of a vector.
pub open spec fn poly_commitment_views(v: Seq<PolyCommitment>) -> Seq<PolyCommitmentData> {
    Seq::new(v.len(), |j: int| v[j]@)
}

/// The views of the proof shares of a slice.
pub open spec fn share_views(v: Seq<ProofShare>) -> Seq<ProofShareData> {
    Seq::new(v.len(), |j: int| v[j]@)
}

impl Dealer {
    /// A dealer for `m` parties that prove ranges of `n` bits. The domain
    /// separator of the proof is absorbed into the transcript, which the
    /// dealer holds until the proof is made.
    pub fn new<'a, 'b>(
        bp_gens: &'b BulletproofGens,
        pc_gens: &'b PedersenGens,
        transcript: &'a mut Transcript,
        n: usize,
        m: usize,
    ) -> (r: Result<DealerAwaitingBitCommitments<'a, 'b>, MPCError>)
        ensures
            match dealer_new(
                transcript_log(*old(transcript)),
                n as nat,
                m as nat,
                bp_gens.gens_capacity() as nat,
                bp_gens.party_capacity() as nat,
                pc_gens.B@,
                pc_gens.B_blinding@,
            ) {
                Ok((d, log)) => r is Ok && r.unwrap().state@ == d && transcript_log(
                    *r.unwrap().transcript,
                ) == log && transcript_log(*final(r.unwrap().transcript)) == transcript_log(
                    *final(transcript),
                ),
                Err(e) => r matches Err(err) && err@ == e && transcript_log(*final(transcript))
                    == transcript_log(*old(transcript)),
            },
    {
        if !(n == 8 || n == 16 || n == 32 || n == 64) {
            return Err(MPCError::InvalidBitsize);
        }
        if !is_power_of_two(m) {
            return Err(MPCError::InvalidAggregationSize);
        }
        if bp_gens.gens_capacity() < n {
            return Err(MPCError::InvalidGeneratorsLength);
        }
        if bp_gens.party_capacity() < m {
            return Err(MPCError::InvalidGeneratorsLength);
        }
        let initial_transcript = copy_transcript(transcript);
        rangeproof_domain_sep(transcript, n as u64, m as u64);
        Ok(
            DealerAwaitingBitCommitments {
                transcript,
                state: DealerSetup { bp_gens, pc_gens, initial_transcript, n, m },
            },
        )
    }
}

/// The positions of the parties whose own commitment is the neutral
/// element.
fn find_neutral(bit_commitments: &Vec<BitCommitment>) -> (r: Vec<usize>)
    ensures
        r@ == neutral_positions(bit_commitment_views(bit_commitments@)),
{
    let mut out: Vec<usize> = Vec::new();
    let ghost bcs = bit_commitment_views(bit_commitments@);
    let mut j: usize = 0;
    assert(bcs.take(0) =~= Seq::<BitCommitmentData>::empty());
    while j < bit_commitments.len()
        invariant
            j <= bit_commitments.len(),
            bcs == bit_commitment_views(bit_commitments@),
            out@ == neutral_positions(bcs.take(j as int)),
        decreases bit_commitments.len() - j,
    {
        proof {
            assert(bcs.take(j + 1).drop_last() =~= bcs.take(j as int));
            assert(bcs.take(j + 1).last() == bit_commitments[j as int]@);
        }
        if bit_commitments[j].A_j.is_identity() || bit_commitments[j].S_j.is_identity() {
            out.push(j);
        }
        j += 1;
    }
    assert(bcs.take(bit_commitments.len() as int) =~= bcs);
    out
}

impl<'a, 'b> DealerAwaitingBitCommitments<'a, 'b> {
    /// Takes the parties' bit commitments and gives the challenges `y`, `z`.
    #[verifier::loop_isolation(false)]
    pub fn receive_bit_commitments(self, bit_commitments: Vec<BitCommitment>) -> (r: Result<
        (DealerAwaitingPolyCommitments<'a, 'b>, BitChallenge),
        MPCError,
    >)
        ensures
            match dealer_receive_bits(
                self.state@,
                transcript_log(*old(self.transcript)),
                bit_commitment_views(bit_commitments@),
            ) {
                Ok((d, log)) => r is Ok && r.unwrap().0.state@ == d && r.unwrap().1.y@ == d.y
                    && r.unwrap().1.z@ == d.z && transcript_log(*r.unwrap().0.transcript) == log
                    && transcript_log(*final(r.unwrap().0.transcript)) == transcript_log(
                    *final(self.transcript),
                ),
                Err(e) => r matches Err(err) && err@ == e,
            },
    {
        let DealerAwaitingBitCommitments { transcript, state: setup } = self;
        proof {
            use_type_invariant(&setup);
            reveal(dealer_receive_bits);
        }
        let ghost bcs = bit_commitment_views(bit_commitments@);
        let m = setup.m;
        if m != bit_commitments.len() {
            return Err(MPCError::WrongNumBitCommitments);
        }
        let ghost log0 = transcript_log(*transcript);
        let ghost vs = Seq::new(bcs.len(), |j: int| bcs[j].v_j);
        let ghost a_points = Seq::new(bcs.len(), |j: int| bcs[j].a_j);
        let ghost s_points = Seq::new(bcs.len(), |j: int| bcs[j].s_j);
        let mut a_sum = RistrettoElement::identity();
        let mut s_sum = RistrettoElement::identity();
        let mut j: usize = 0;
        proof {
            assert(a_points.take(0) =~= Seq::<Seq<u8>>::empty());
            assert(s_points.take(0) =~= Seq::<Seq<u8>>::empty());
        }
        while j < m
            invariant
                j <= m,
                m == bit_commitments.len(),
                bcs == bit_commitment_views(bit_commitments@),
                a_points == Seq::new(bcs.len(), |j: int| bcs[j].a_j),
                s_points == Seq::new(bcs.len(), |j: int| bcs[j].s_j),
                a_sum@ == point_sum(a_points.take(j as int)),
                s_sum@ == point_sum(s_points.take(j as int)),
            decreases m - j,
        {
            proof {
                assert(a_points.take(j + 1).drop_last() =~= a_points.take(j as int));
                assert(s_points.take(j + 1).drop_last() =~= s_points.take(j as int));
                assert(a_points.take(j + 1).last() == bit_commitments[j as int].A_j@);
                assert(s_points.take(j + 1).last() == bit_commitments[j as int].S_j@);
            }
            a_sum = a_sum.add(&bit_commitments[j].A_j);
            s_sum = s_sum.add(&bit_commitments[j].S_j);
            j += 1;
        }
        proof {
            assert(a_points.take(m as int) =~= a_points);
            assert(s_points.take(m as int) =~= s_points);
        }
        if a_sum.is_identity() || s_sum.is_identity() {
            let bad_shares = find_neutral(&bit_commitments);
            return Err(MPCError::MalformedProofShares { bad_shares });
        }
        let mut j: usize = 0;
        assert(vs.take(0) =~= Seq::<Seq<u8>>::empty());
        while j < m
            invariant
                j <= m,
                m == bit_commitments.len(),
                bcs == bit_commitment_views(bit_commitments@),
                vs == Seq::new(bcs.len(), |j: int| bcs[j].v_j),
                transcript_log(*transcript) == log_with_commitments(log0, vs.take(j as int)),
            decreases m - j,
        {
            proof {
                assert(vs.take(j + 1).drop_last() =~= vs.take(j as int));
                assert(vs.take(j + 1).last() == bit_commitments[j as int].V_j@);
            }
            append_point(transcript, "V", &bit_commitments[j].V_j);
            j += 1;
        }
        proof {
            assert(vs.take(m as int) =~= vs);
        }
        append_point(transcript, "A", &a_sum.compress());
        append_point(transcript, "S", &s_sum.compress());
        let y = challenge_scalar(transcript, "y");
        let z = challenge_scalar(transcript, "z");
        let bit_challenge = BitChallenge { y, z };
        let state = DealerBits {
            setup,
            bit_challenge,
            bit_commitments,
            A: a_sum,
            S: s_sum,
        };
        proof {
            assert(state@.bit_commitments =~= bcs);
        }
        Ok((DealerAwaitingPolyCommitments { transcript, state }, bit_challenge))
    }
}

impl<'a, 'b> DealerAwaitingPolyCommitments<'a, 'b> {
    /// Takes the parties' polynomial commitments and gives the challenge
    /// `x`.
    #[verifier::loop_isolation(false)]
    pub fn receive_poly_commitments(self, poly_commitments: Vec<PolyCommitment>) -> (r: Result<
        (DealerAwaitingProofShares<'a, 'b>, PolyChallenge),
        MPCError,
    >)
        ensures
            match dealer_receive_polys(
                self.state@,
                transcript_log(*old(self.transcript)),
                poly_commitment_views(poly_commitments@),
            ) {
                Ok((d, log)) => r is Ok && r.unwrap().0.state@ == d && r.unwrap().1.x@ == d.x
                    && transcript_log(*r.unwrap().0.transcript) == log && transcript_log(
                    *final(r.unwrap().0.transcript),
                ) == transcript_log(*final(self.transcript)),
                Err(e) => r matches Err(err) && err@ == e,
            },
    {
        let DealerAwaitingPolyCommitments { transcript, state: bits } = self;
        proof {
            use_type_invariant(&bits);
            use_type_invariant(&bits.setup);
            reveal(dealer_receive_polys);
        }
        let ghost pcs = poly_commitment_views(poly_commitments@);
        let m = bits.setup.m;
        if m != poly_commitments.len() {
            return Err(MPCError::WrongNumPolyCommitments);
        }
        let ghost t1_points = Seq::new(pcs.len(), |j: int| pcs[j].t_1_j);
        let ghost t2_points = Seq::new(pcs.len(), |j: int| pcs[j].t_2_j);
        let mut t1_sum = RistrettoElement::identity();
        let mut t2_sum = RistrettoElement::identity();
        let mut j: usize = 0;
        proof {
            assert(t1_points.take(0) =~= Seq::<Seq<u8>>::empty());
            assert(t2_points.take(0) =~= Seq::<Seq<u8>>::empty());
        }
        while j < m
            invariant
                j <= m,
                m == poly_commitments.len(),
                pcs == poly_commitment_views(poly_commitments@),
                t1_points == Seq::new(pcs.len(), |j: int| pcs[j].t_1_j),
                t2_points == Seq::new(pcs.len(), |j: int| pcs[j].t_2_j),
                t1_sum@ == point_sum(t1_points.take(j as int)),
                t2_sum@ == point_sum(t2_points.take(j as int)),
            decreases m - j,
        {
            proof {
                assert(t1_points.take(j + 1).drop_last() =~= t1_points.take(j as int));
                assert(t2_points.take(j + 1).drop_last() =~= t2_points.take(j as int));
                assert(t1_points.take(j + 1).last() == poly_commitments[j as int].T_1_j@);
                assert(t2_points.take(j + 1).last() == poly_commitments[j as int].T_2_j@);
            }
            t1_sum = t1_sum.add(&poly_commitments[j].T_1_j);
            t2_sum = t2_sum.add(&poly_commitments[j].T_2_j);
            j += 1;
        }
        proof {
            assert(t1_points.take(m as int) =~= t1_points);
            assert(t2_points.take(m as int) =~= t2_points);
        }
        append_point(transcript, "T_1", &t1_sum.compress());
        append_point(transcript, "T_2", &t2_sum.compress());
        let x = challenge_scalar(transcript, "x");
        let poly_challenge = PolyChallenge { x };
        let state = DealerShares {
            bits,
            poly_challenge,
            poly_commitments,
            T_1: t1_sum,
            T_2: t2_sum,
        };
        proof {
            assert(state@.poly_commitments =~= pcs);
        }
        Ok((DealerAwaitingProofShares { transcript, state }, poly_challenge))
    }
}

/// The positions of the shares whose vectors do not have `n` entries each.
fn find_missized(proof_shares: &[ProofShare], n: usize) -> (r: Vec<usize>)
    ensures
        r@ == missized_positions(share_views(proof_shares@), n as nat),
{
    let mut out: Vec<usize> = Vec::new();
    let ghost shares = share_views(proof_shares@);
    let mut j: usize = 0;
    assert(shares.take(0) =~= Seq::<ProofShareData>::empty());
    while j < proof_shares.len()
        invariant
            j <= proof_shares.len(),
            shares == share_views(proof_shares@),
            out@ == missized_positions(shares.take(j as int), n as nat),
        decreases proof_shares.len() - j,
    {
        proof {
            assert(shares.take(j + 1).drop_last() =~= shares.take(j as int));
            assert(shares.take(j + 1).last() == proof_shares[j as int]@);
            assert(proof_shares[j as int].l_vec.len() == proof_shares[j as int]@.l_vec.len());
            assert(proof_shares[j as int].r_vec.len() == proof_shares[j as int]@.r_vec.len());
        }
        if proof_shares[j].l_vec.len() != n || proof_shares[j].r_vec.len() != n {
            out.push(j);
        }
        j += 1;
    }
    assert(shares.take(proof_shares.len() as int) =~= shares);
    out
}

/// Shares whose vectors all have `n` entries give vectors of `n` entries
/// per share when put one after the other.
pub proof fn lemma_concat_all_len(vs: Seq<Seq<nat>>, n: nat)
    requires
        forall|j: int| 0 <= j < vs.len() ==> (#[trigger] vs[j]).len() == n,
    ensures
        concat_all(vs).len() == n * vs.len(),
    decreases vs.len(),
{
    if vs.len() > 0 {
        lemma_concat_all_len(vs.drop_last(), n);
        assert(n * vs.len() == n * (vs.len() - 1) + n) by (nonlinear_arith)
            requires
                vs.len() >= 1,
        ;
    } else {
        assert(n * 0 == 0);
    }
}

/// No position is named exactly when every share has vectors of `n`
/// entries.
pub proof fn lemma_no_missized(shares: Seq<ProofShareData>, n: nat)
    ensures
        missized_positions(shares, n).len() == 0 <==> forall|j: int|
            0 <= j < shares.len() ==> (#[trigger] shares[j]).l_vec.len() == n
                && shares[j].r_vec.len() == n,
    decreases shares.len(),
{
    if shares.len() > 0 {
        lemma_no_missized(shares.drop_last(), n);
        if missized_positions(shares, n).len() == 0 {
            assert forall|j: int| 0 <= j < shares.len() implies (#[trigger] shares[j]).l_vec.len()
                == n && shares[j].r_vec.len() == n by {
                if j < shares.len() - 1 {
                    assert(shares.drop_last()[j] == shares[j]);
                }
            }
        } else if missized_positions(shares.drop_last(), n).len() == 0 {
            assert(shares.last() == shares[shares.len() - 1]);
        } else {
            let bad = choose|j: int|
                0 <= j < shares.drop_last().len() && !((#[trigger] shares.drop_last()[j]).l_vec.len()
                    == n && shares.drop_last()[j].r_vec.len() == n);
            assert(shares[bad] == shares.drop_last()[bad]);
        }
    }
}

/// The sum of one of the scalars of each share.
fn sum_field(proof_shares: &[ProofShare], which: u8) -> (r: Scalar)
    requires
        which < 3,
    ensures
        which == 0 ==> r@ == scalar_sum(
            Seq::new(proof_shares.len() as nat, |j: int| proof_shares[j]@.t_x),
        ),
        which == 1 ==> r@ == scalar_sum(
            Seq::new(proof_shares.len() as nat, |j: int| proof_shares[j]@.t_x_blinding),
        ),
        which == 2 ==> r@ == scalar_sum(
            Seq::new(proof_shares.len() as nat, |j: int| proof_shares[j]@.e_blinding),
        ),
{
    let ghost values = Seq::new(
        proof_shares.len() as nat,
        |j: int|
            if which == 0 {
                proof_shares[j]@.t_x
            } else if which == 1 {
                proof_shares[j]@.t_x_blinding
            } else {
                proof_shares[j]@.e_blinding
            },
    );
    let mut acc = Scalar::zero();
    let mut j: usize = 0;
    assert(values.take(0) =~= Seq::<nat>::empty());
    while j < proof_shares.len()
        invariant
            j <= proof_shares.len(),
            which < 3,
            values.len() == proof_shares.len(),
            forall|k: int|
                0 <= k < values.len() ==> #[trigger] values[k] == if which == 0 {
                    proof_shares[k]@.t_x
                } else if which == 1 {
                    proof_shares[k]@.t_x_blinding
                } else {
                    proof_shares[k]@.e_blinding
                },
            acc@ == scalar_sum(values.take(j as int)),
        decreases proof_shares.len() - j,
    {
        proof {
            assert(values.take(j + 1).drop_last() =~= values.take(j as int));
            assert(values.take(j + 1).last() == values[j as int]);
        }
        let term = if which == 0 {
            proof_shares[j].t_x
        } else if which == 1 {
            proof_shares[j].t_x_blinding
        } else {
            proof_shares[j].e_blinding
        };
        acc = acc.add(&term);
        j += 1;
    }
    proof {
        assert(values.take(proof_shares.len() as int) =~= values);
        if which == 0 {
            assert(values =~= Seq::new(proof_shares.len() as nat, |j: int| proof_shares[j]@.t_x));
        } else if which == 1 {
            assert(values =~= Seq::new(
                proof_shares.len() as nat,
                |j: int| proof_shares[j]@.t_x_blinding,
            ));
        } else {
            assert(values =~= Seq::new(
                proof_shares.len() as nat,
                |j: int| proof_shares[j]@.e_blinding,
            ));
        }
    }
    acc
}

/// The left or the right vectors of the shares, one after the other.
fn join_vectors(proof_shares: &[ProofShare], left: bool) -> (r: Vec<Scalar>)
    ensures
        left ==> r.deep_view() == concat_all(
            Seq::new(proof_shares.len() as nat, |j: int| proof_shares[j]@.l_vec),
        ),
        !left ==> r.deep_view() == concat_all(
            Seq::new(proof_shares.len() as nat, |j: int| proof_shares[j]@.r_vec),
        ),
{
    let ghost vectors = Seq::new(
        proof_shares.len() as nat,
        |j: int|
            if left {
                proof_shares[j]@.l_vec
            } else {
                proof_shares[j]@.r_vec
            },
    );
    let mut out: Vec<Scalar> = Vec::new();
    let mut j: usize = 0;
    proof {
        assert(vectors.take(0) =~= Seq::<Seq<nat>>::empty());
        assert(out.deep_view() =~= Seq::<nat>::empty());
    }
    while j < proof_shares.len()
        invariant
            j <= proof_shares.len(),
            vectors.len() == proof_shares.len(),
            forall|k: int|
                0 <= k < vectors.len() ==> #[trigger] vectors[k] == if left {
                    proof_shares[k]@.l_vec
                } else {
                    proof_shares[k]@.r_vec
                },
            out.deep_view() == concat_all(vectors.take(j as int)),
        decreases proof_shares.len() - j,
    {
        let source = if left {
            &proof_shares[j].l_vec
        } else {
            &proof_shares[j].r_vec
        };
        let ghost before = out.deep_view();
        let mut i: usize = 0;
        while i < source.len()
            invariant
                i <= source.len(),
                out.deep_view() == before + source.deep_view().take(i as int),
            decreases source.len() - i,
        {
            let ghost prev = out.deep_view();
            out.push(source[i]);
            proof {
                assert(out.deep_view() =~= prev.push(source[i as int]@));
                assert(source.deep_view().take(i + 1) =~= source.deep_view().take(i as int).push(
                    source[i as int]@,
                ));
                assert(out.deep_view() =~= before + source.deep_view().take(i + 1));
            }
            i += 1;
        }
        proof {
            assert(source.deep_view().take(source.len() as int) =~= source.deep_view());
            assert(vectors.take(j + 1).drop_last() =~= vectors.take(j as int));
            assert(vectors.take(j + 1).last() == source.deep_view());
        }
        j += 1;
    }
    proof {
        assert(vectors.take(proof_shares.len() as int) =~= vectors);
        if left {
            assert(vectors =~= Seq::new(proof_shares.len() as nat, |j: int| proof_shares[j]@.l_vec));
        } else {
            assert(vectors =~= Seq::new(proof_shares.len() as nat, |j: int| proof_shares[j]@.r_vec));
        }
    }
    out
}

/// `len` scalars of value one.
fn ones(len: usize) -> (r: Vec<Scalar>)
    ensures
        r.deep_view() == Seq::new(len as nat, |i: int| 1nat),
{
    let one = Scalar::one();
    let mut out: Vec<Scalar> = Vec::new();
    let mut i: usize = 0;
    while i < len
        invariant
            i <= len,
            one@ == 1,
            out.len() == i,
            forall|k: int| 0 <= k < i ==> (#[trigger] out[k])@ == 1,
        decreases len - i,
    {
        out.push(one);
        i += 1;
    }
    assert(out.deep_view() =~= Seq::new(len as nat, |i: int| 1nat));
    out
}

impl<'b> DealerShares<'b> {
    /// Puts the aggregated proof together from the parties' shares.
    fn assemble(&self, transcript: &mut Transcript, proof_shares: &[ProofShare]) -> (r: Result<
        RangeProof,
        MPCError,
    >)
        ensures
            match dealer_assemble(
                self@,
                transcript_log(*old(transcript)),
                share_views(proof_shares@),
            ) {
                Ok((p, log)) => r is Ok && r.unwrap()@ == p && transcript_log(*final(transcript))
                    == log,
                Err(e) => r matches Err(err) && err@ == e,
            },
            r matches Ok(p) ==> p@.ipp.l_vec.len() == log2(
                self@.bits.setup.n * self@.bits.setup.m,
            ),
    {
        proof {
            use_type_invariant(self);
            use_type_invariant(&self.bits);
            use_type_invariant(&self.bits.setup);
            reveal(dealer_assemble);
        }
        let ghost shares = share_views(proof_shares@);
        let setup = &self.bits.setup;
        let n = setup.n;
        let m = setup.m;
        if m != proof_shares.len() {
            return Err(MPCError::WrongNumProofShares);
        }
        let bad_shares = find_missized(proof_shares, n);
        if bad_shares.len() > 0 {
            return Err(MPCError::MalformedProofShares { bad_shares });
        }
        let gens_capacity = setup.bp_gens.gens_capacity();
        let party_capacity = setup.bp_gens.party_capacity();
        assert(n * m <= usize::MAX) by (nonlinear_arith)
            requires
                n <= gens_capacity,
                m <= party_capacity,
                gens_capacity * party_capacity <= usize::MAX,
        ;
        let t_x = sum_field(proof_shares, 0);
        let t_x_blinding = sum_field(proof_shares, 1);
        let e_blinding = sum_field(proof_shares, 2);
        proof {
            assert(Seq::new(proof_shares.len() as nat, |j: int| proof_shares[j]@.t_x) =~= Seq::new(
                shares.len(),
                |j: int| shares[j].t_x,
            ));
            assert(Seq::new(proof_shares.len() as nat, |j: int| proof_shares[j]@.t_x_blinding)
                =~= Seq::new(shares.len(), |j: int| shares[j].t_x_blinding));
            assert(Seq::new(proof_shares.len() as nat, |j: int| proof_shares[j]@.e_blinding)
                =~= Seq::new(shares.len(), |j: int| shares[j].e_blinding));
        }
        append_scalar(transcript, "t_x", &t_x);
        append_scalar(transcript, "t_x_blinding", &t_x_blinding);
        append_scalar(transcript, "e_blinding", &e_blinding);
        let w = challenge_scalar(transcript, "w");
        let q = setup.pc_gens.B.mul(&w);
        let g_factors = ones(n * m);
        let y_inv = self.bits.bit_challenge.y.invert();
        let h_factors = powers(&y_inv, n * m);
        let l_vec = join_vectors(proof_shares, true);
        let r_vec = join_vectors(proof_shares, false);
        let g = setup.bp_gens.G(n, m);
        let h = setup.bp_gens.H(n, m);
        proof {
            let ls = Seq::new(shares.len(), |j: int| shares[j].l_vec);
            let rs = Seq::new(shares.len(), |j: int| shares[j].r_vec);
            assert(Seq::new(proof_shares.len() as nat, |j: int| proof_shares[j]@.l_vec) =~= ls);
            assert(Seq::new(proof_shares.len() as nat, |j: int| proof_shares[j]@.r_vec) =~= rs);
            lemma_no_missized(shares, n as nat);
            lemma_concat_all_len(ls, n as nat);
            lemma_concat_all_len(rs, n as nat);
            reveal_with_fuel(is_pow2, 8);
            lemma_pow2_product(n as nat, m as nat);
            assert(l_vec.len() == l_vec.deep_view().len());
            assert(r_vec.len() == r_vec.deep_view().len());
            assert(g.len() == g.deep_view().len());
            assert(h.len() == h.deep_view().len());
            assert(g_factors.len() == g_factors.deep_view().len());
            assert(h_factors.len() == h_factors.deep_view().len());
        }
        let ipp_proof = InnerProductProof::create(
            transcript,
            &q,
            g_factors.as_slice(),
            h_factors.as_slice(),
            g,
            h,
            l_vec,
            r_vec,
        );
        Ok(
            RangeProof::assemble(
                self.bits.A.compress(),
                self.bits.S.compress(),
                self.T_1.compress(),
                self.T_2.compress(),
                t_x,
                t_x_blinding,
                e_blinding,
                ipp_proof,
            ),
        )
    }

    /// The positions of the shares that do not hold on their own.
    fn audit(&self, proof_shares: &[ProofShare]) -> (r: Vec<usize>)
        requires
            proof_shares.len() == self@.bits.setup.m,
        ensures
            r@ == bad_positions(self@, share_views(proof_shares@), proof_shares.len() as nat),
    {
        proof {
            use_type_invariant(self);
            use_type_invariant(&self.bits);
        }
        let ghost d = self@;
        let ghost shares = share_views(proof_shares@);
        let mut out: Vec<usize> = Vec::new();
        let mut j: usize = 0;
        while j < proof_shares.len()
            invariant
                j <= proof_shares.len(),
                d == self@,
                shares == share_views(proof_shares@),
                proof_shares.len() == self.bits.bit_commitments.len(),
                proof_shares.len() == self.poly_commitments.len(),
                out@ == bad_positions(d, shares, j as nat),
            decreases proof_shares.len() - j,
        {
            let held = proof_shares[j].audit_share(
                self.bits.setup.bp_gens,
                self.bits.setup.pc_gens,
                j,
                &self.bits.bit_commitments[j],
                &self.bits.bit_challenge,
                &self.poly_commitments[j],
                &self.poly_challenge,
            );
            proof {
                assert(shares[j as int] == proof_shares[j as int]@);
                assert(d.bits.bit_commitments[j as int] == self.bits.bit_commitments[j as int]@);
                assert(d.poly_commitments[j as int] == self.poly_commitments[j as int]@);
                assert(held is Ok <==> dealer_share_holds(d, shares, j as int));
            }
            if held.is_err() {
                out.push(j);
            }
            j += 1;
        }
        out
    }

    /// The encodings of the parties' value commitments.
    fn value_commitments(&self) -> (r: Vec<CompressedRistretto>)
        ensures
            r.deep_view() == Seq::new(
                self@.bits.bit_commitments.len(),
                |j: int| self@.bits.bit_commitments[j].v_j,
            ),
    {
        let mut out: Vec<CompressedRistretto> = Vec::new();
        let mut j: usize = 0;
        while j < self.bits.bit_commitments.len()
            invariant
                j <= self.bits.bit_commitments.len(),
                out.len() == j,
                forall|k: int|
                    0 <= k < j ==> (#[trigger] out[k])@ == self.bits.bit_commitments[k].V_j@,
            decreases self.bits.bit_commitments.len() - j,
        {
            out.push(self.bits.bit_commitments[j].V_j);
            j += 1;
        }
        assert(out.deep_view() =~= Seq::new(
            self@.bits.bit_commitments.len(),
            |j: int| self@.bits.bit_commitments[j].v_j,
        ));
        out
    }
}

/// The view of a proof that a step gave, if it gave one.
pub open spec fn proof_outcome(r: Result<RangeProof, MPCError>) -> Result<
    RangeProofData,
    MPCFailure,
> {
    match r {
        Ok(p) => Ok(p@),
        Err(e) => Err(e@),
    }
}

/// The proof of an outcome, without the history.
pub open spec fn proof_of(
    r: Result<(RangeProofData, Seq<TranscriptEvent>), MPCFailure>,
) -> Result<RangeProofData, MPCFailure> {
    match r {
        Ok((p, _)) => Ok(p),
        Err(e) => Err(e),
    }
}

impl<'a, 'b> DealerAwaitingProofShares<'a, 'b> {
    /// Puts the aggregated proof together from shares that are trusted: the
    /// proof is not verified.
    pub fn receive_trusted_shares(self, proof_shares: &[ProofShare]) -> (r: Result<
        RangeProof,
        MPCError,
    >)
        ensures
            match dealer_assemble(
                self.state@,
                transcript_log(*old(self.transcript)),
                share_views(proof_shares@),
            ) {
                Ok((p, log)) => r is Ok && r.unwrap()@ == p && transcript_log(
                    *final(self.transcript),
                ) == log,
                Err(e) => r matches Err(err) && err@ == e,
            },
            r matches Ok(p) ==> p@.ipp.l_vec.len() == log2(
                self.state@.bits.setup.n * self.state@.bits.setup.m,
            ),
    {
        let DealerAwaitingProofShares { transcript, state } = self;
        state.assemble(transcript, proof_shares)
    }

    /// Puts the aggregated proof together from shares that are not trusted
    /// and verifies it, with the batch factor given. If it does not verify,
    /// the shares that do not hold on their own are named.
    pub fn receive_shares_with_factor(self, proof_shares: &[ProofShare], batch_factor: Scalar) -> (r:
        Result<RangeProof, MPCError>)
        ensures
            match dealer_receive_shares(
                self.state@,
                transcript_log(*old(self.transcript)),
                share_views(proof_shares@),
                batch_factor@,
            ) {
                Ok((p, log)) => r is Ok && r.unwrap()@ == p && transcript_log(
                    *final(self.transcript),
                ) == log,
                Err(e) => r matches Err(err) && err@ == e,
            },
            r matches Ok(p) ==> p@.ipp.l_vec.len() == log2(
                self.state@.bits.setup.n * self.state@.bits.setup.m,
            ),
    {
        let DealerAwaitingProofShares { transcript, state } = self;
        proof {
            reveal(dealer_assemble);
        }
        let proof = match state.assemble(transcript, proof_shares) {
            Ok(p) => p,
            Err(e) => {
                return Err(e);
            },
        };
        proof {
            use_type_invariant(&state);
            use_type_invariant(&state.bits);
        }
        let commitments = state.value_commitments();
        let mut replayed = copy_transcript(&state.bits.setup.initial_transcript);
        let ghost d = state@;
        proof {
            let vs = Seq::new(d.bits.bit_commitments.len(), |j: int| d.bits.bit_commitments[j].v_j);
            assert(encodings(commitments@) =~= vs);
            assert(points_of(commitments@) =~= Seq::new(vs.len(), |j: int| decoded(vs[j])));
        }
        let verdict = proof.verify_multiple_with_factor(
            state.bits.setup.bp_gens,
            state.bits.setup.pc_gens,
            &mut replayed,
            commitments.as_slice(),
            state.bits.setup.n,
            batch_factor,
        );
        if verdict.is_ok() {
            Ok(proof)
        } else {
            let bad_shares = state.audit(proof_shares);
            Err(MPCError::MalformedProofShares { bad_shares })
        }
    }

    /// Puts the aggregated proof together from shares that are not trusted
    /// and verifies it, with a batch factor from the thread's generator: the
    /// result is that of `receive_shares_with_factor` for some factor.
    pub fn receive_shares(self, proof_shares: &[ProofShare]) -> (r: Result<RangeProof, MPCError>)
        ensures
            exists|factor: nat|
                proof_outcome(r) == proof_of(
                    #[trigger] dealer_receive_shares(
                        self.state@,
                        transcript_log(*old(self.transcript)),
                        share_views(proof_shares@),
                        factor,
                    ),
                ),
    {
        let mut rng = thread_rng();
        let batch_factor = Scalar::random(&mut rng);
        let ghost d = self.state@;
        let ghost log = transcript_log(*self.transcript);
        let r = self.receive_shares_with_factor(proof_shares, batch_factor);
        proof {
            assert(proof_outcome(r) == proof_of(
                dealer_receive_shares(d, log, share_views(proof_shares@), batch_factor@),
            ));
        }
        r
    }
}

} // verus!
