//! Proving: the multi-party protocol, run in one process with all the
//! parties and the dealer.

#![allow(non_snake_case)]

use crate::errors::MPCError;
use crate::errors::MPCFailure;
use crate::errors::ProofError;
use crate::errors::ProofFailure;
use crate::generators::flat_generators;
use crate::generators::kind_g;
use crate::generators::kind_h;
use crate::inner_product_proof::ipp_fold;
use crate::inner_product_proof::lemma_replay_follows_fold;
use crate::inner_product_proof::IppProver;
use crate::range_proof::batch::replay;
use crate::range_proof::batch::replay_points;
use crate::range_proof::batch::replay_tail;
use crate::range_proof::dealer::concat_all;
use crate::range_proof::dealer::lemma_concat_all_len;
use crate::range_proof::dealer::lemma_no_missized;
use crate::range_proof::dealer::scalar_sum;
use crate::ristretto::ristretto_product;
use crate::scalar::finv;
use crate::scalar::le_bytes;
use crate::transcript::challenge_value;
use crate::transcript::log_append;
use crate::transcript::log_challenge;
use crate::transcript::log_innerproduct_domain_sep;
use crate::util::powers_of;
use vstd::string::StringSliceAdditionalSpecFns;
use crate::generators::BulletproofGens;
use crate::generators::PedersenGens;
use crate::range_proof::dealer::bit_commitment_views;
use crate::range_proof::dealer::dealer_assemble;
use crate::range_proof::dealer::dealer_new;
use crate::range_proof::dealer::dealer_receive_bits;
use crate::range_proof::dealer::dealer_receive_polys;
use crate::range_proof::dealer::lemma_dealer_keeps;
use crate::range_proof::dealer::poly_commitment_views;
use crate::range_proof::dealer::share_views;
use crate::range_proof::dealer::Dealer;
use crate::range_proof::messages::BitCommitment;
use crate::range_proof::messages::BitCommitmentData;
use crate::range_proof::messages::PolyCommitment;
use crate::range_proof::messages::PolyCommitmentData;
use crate::range_proof::messages::ProofShare;
use crate::range_proof::messages::ProofShareData;
use crate::range_proof::party::party_apply_bit_challenge;
use crate::range_proof::party::party_apply_poly_challenge;
use crate::range_proof::party::party_assign_position;
use crate::range_proof::party::valid_bitsize;
use crate::range_proof::party::Party;
use crate::range_proof::party::PartyAwaitingBitChallenge;
use crate::range_proof::party::PartyAwaitingPolyChallenge;
use crate::range_proof::party::PartyBits;
use crate::range_proof::party::PartyPolys;
use crate::range_proof::party::PartySetup;
use crate::range_proof::RangeProof;
use crate::range_proof::RangeProofData;
use crate::ristretto::CompressedRistretto;
use crate::scalar::thread_rng;
use crate::scalar::Scalar;
use crate::transcript::transcript_log;
use crate::transcript::TranscriptEvent;
use crate::util::is_pow2;
use crate::util::log2;
use merlin::Transcript;
use rand::rngs::ThreadRng;
use vstd::prelude::*;

verus! {

/// The blinding scalars that one party draws in the course of a proof.
pub struct PartyBlindings {
    pub a_blinding: Scalar,
    pub s_blinding: Scalar,
    pub s_L: Vec<Scalar>,
    pub s_R: Vec<Scalar>,
    pub t_1_blinding: Scalar,
    pub t_2_blinding: Scalar,
}

/// The values of one party's blinding scalars.
pub struct PartyBlindingsData {
    pub a_blinding: nat,
    pub s_blinding: nat,
    pub s_l: Seq<nat>,
    pub s_r: Seq<nat>,
    pub t_1_blinding: nat,
    pub t_2_blinding: nat,
}

impl View for PartyBlindings {
    type V = PartyBlindingsData;

    open spec fn view(&self) -> PartyBlindingsData {
        PartyBlindingsData {
            a_blinding: self.a_blinding@,
            s_blinding: self.s_blinding@,
            s_l: self.s_L.deep_view(),
            s_r: self.s_R.deep_view(),
            t_1_blinding: self.t_1_blinding@,
            t_2_blinding: self.t_2_blinding@,
        }
    }
}

/// The views of a sequence of blinding scalars.
pub open spec fn blinding_views(r: Seq<PartyBlindings>) -> Seq<PartyBlindingsData> {
    Seq::new(r.len(), |j: int| r[j]@)
}

/// Whether there are blinding scalars for `m` parties and `n` bits.
pub open spec fn blindings_fit(r: Seq<PartyBlindingsData>, m: nat, n: nat) -> bool {
    r.len() == m && forall|j: int|
        0 <= j < m ==> (#[trigger] r[j]).s_l.len() == n && r[j].s_r.len() == n
}

/// What is fixed for all the parties of a proof.
pub struct ProofContext {
    pub b: Seq<u8>,
    pub b_blinding: Seq<u8>,
    pub gens_capacity: nat,
    pub party_capacity: nat,
    pub n: nat,
}

/// Party `j` once it has committed to the bits of `v`, and its commitment.
pub open spec fn party_bits_of(
    c: ProofContext,
    v: nat,
    v_blinding: nat,
    j: nat,
    r: PartyBlindingsData,
) -> (PartyBits, BitCommitmentData) {
    party_assign_position(
        PartySetup {
            b: c.b,
            b_blinding: c.b_blinding,
            party_capacity: c.party_capacity,
            n: c.n,
            v,
            v_blinding,
        },
        j,
        r.a_blinding,
        r.s_blinding,
        r.s_l,
        r.s_r,
    ).unwrap()
}

/// Party `j` once it has committed to its polynomial, and its commitment.
pub open spec fn party_polys_of(
    c: ProofContext,
    v: nat,
    v_blinding: nat,
    j: nat,
    r: PartyBlindingsData,
    y: nat,
    z: nat,
) -> (PartyPolys, PolyCommitmentData) {
    party_apply_bit_challenge(
        party_bits_of(c, v, v_blinding, j, r).0,
        y,
        z,
        r.t_1_blinding,
        r.t_2_blinding,
    )
}

/// The end of the protocol: each party gives its share for the challenge
/// `x`, unless `x` is zero, and the dealer puts the proof together.
pub open spec fn prove_shares(
    c: ProofContext,
    values: Seq<u64>,
    blindings: Seq<nat>,
    rand: Seq<PartyBlindingsData>,
    d: crate::range_proof::dealer::DealerSharesData,
    log: Seq<TranscriptEvent>,
) -> Result<(RangeProofData, Seq<Seq<u8>>, Seq<TranscriptEvent>), ProofFailure> {
    let m = values.len();
    if d.x == 0 {
        Err(ProofFailure::ProvingError(MPCFailure::MaliciousDealer))
    } else {
        let shares = Seq::new(
            m,
            |j: int|
                party_apply_poly_challenge(
                    party_polys_of(
                        c,
                        values[j] as nat,
                        blindings[j],
                        j as nat,
                        rand[j],
                        d.bits.y,
                        d.bits.z,
                    ).0,
                    d.x,
                ).unwrap(),
        );
        match dealer_assemble(d, log, shares) {
            Err(e) => Err(ProofFailure::of_mpc(e)),
            Ok((proof, log2)) => Ok(
                (proof, Seq::new(m, |j: int| d.bits.bit_commitments[j].v_j), log2),
            ),
        }
    }
}

/// The proof that the values lie in the range of `n` bits, the encodings
/// of the commitments to the values, and the history left; or the reason
/// why there is none. The numbers of values and of blinding factors are
/// compared first; then the dealer checks the bitsize, the number of
/// values and the generators; then the protocol is run with party `j`
/// holding value `j`.
pub open spec fn prove(
    log: Seq<TranscriptEvent>,
    c: ProofContext,
    values: Seq<u64>,
    blindings: Seq<nat>,
    rand: Seq<PartyBlindingsData>,
) -> Result<(RangeProofData, Seq<Seq<u8>>, Seq<TranscriptEvent>), ProofFailure> {
    let m = values.len();
    if values.len() != blindings.len() {
        Err(ProofFailure::WrongNumBlindingFactors)
    } else {
        match dealer_new(log, c.n, m, c.gens_capacity, c.party_capacity, c.b, c.b_blinding) {
            Err(e) => Err(ProofFailure::of_mpc(e)),
            Ok((d0, l0)) => {
                let bcs = Seq::new(
                    m,
                    |j: int|
                        party_bits_of(c, values[j] as nat, blindings[j], j as nat, rand[j]).1,
                );
                match dealer_receive_bits(d0, l0, bcs) {
                    Err(e) => Err(ProofFailure::of_mpc(e)),
                    Ok((d1, l1)) => {
                        let pcs = Seq::new(
                            m,
                            |j: int|
                                party_polys_of(
                                    c,
                                    values[j] as nat,
                                    blindings[j],
                                    j as nat,
                                    rand[j],
                                    d1.y,
                                    d1.z,
                                ).1,
                        );
                        match dealer_receive_polys(d1, l1, pcs) {
                            Err(e) => Err(ProofFailure::of_mpc(e)),
                            Ok((d2, l2)) => prove_shares(c, values, blindings, rand, d2, l2),
                        }
                    },
                }
            },
        }
    }
}

/// Whether an outcome of proving agrees with what a call gave: the same
/// error, or the same proof and commitments and the history that was left.
pub open spec fn proved(
    want: Result<(RangeProofData, Seq<Seq<u8>>, Seq<TranscriptEvent>), ProofFailure>,
    r: Result<(RangeProof, Vec<CompressedRistretto>), ProofError>,
    log: Seq<TranscriptEvent>,
) -> bool {
    match want {
        Ok((p, vs, l)) => r is Ok && r.unwrap().0@ == p && r.unwrap().1.deep_view() == vs && log
            == l,
        Err(e) => r matches Err(err) && err@ == e,
    }
}

/// Whether an outcome of proving for one value agrees with what a call
/// gave.
pub open spec fn proved_single(
    want: Result<(RangeProofData, Seq<Seq<u8>>, Seq<TranscriptEvent>), ProofFailure>,
    r: Result<(RangeProof, CompressedRistretto), ProofError>,
    log: Seq<TranscriptEvent>,
) -> bool {
    match want {
        Ok((p, vs, l)) => r is Ok && r.unwrap().0@ == p && r.unwrap().1@ == vs[0] && log == l,
        Err(e) => r matches Err(err) && err@ == e,
    }
}

/// The context of a proof with the generators given.
pub open spec fn context_of(bp_gens: &BulletproofGens, pc_gens: &PedersenGens, n: usize)
    -> ProofContext {
    ProofContext {
        b: pc_gens.B@,
        b_blinding: pc_gens.B_blinding@,
        gens_capacity: bp_gens.gens_capacity() as nat,
        party_capacity: bp_gens.party_capacity() as nat,
        n: n as nat,
    }
}

/// The verifier follows the prover: the replay of a proof that the prover
/// made, for the commitments that the prover made, from the history that
/// the prover began with, absorbs what the prover absorbed, then the last
/// two scalars of the proof, and draws one more challenge. So every
/// challenge that the verifier derives is the challenge that the prover
/// had. Where the replay stops, it is with a `VerificationError`.
pub proof fn lemma_verifier_follows_prover(
    log: Seq<TranscriptEvent>,
    c: ProofContext,
    values: Seq<u64>,
    blindings: Seq<nat>,
    rand: Seq<PartyBlindingsData>,
)
    requires
        prove(log, c, values, blindings, rand) is Ok,
    ensures
        ({
            let made = prove(log, c, values, blindings, rand)->Ok_0;
            match replay(log, made.0, made.1, c.n, c.gens_capacity, c.party_capacity) {
                Ok(rp) => rp.log == log_challenge(
                    log_append(
                        log_append(made.2, "ipp_a".spec_bytes(), le_bytes(made.0.ipp.a, 32)),
                        "ipp_b".spec_bytes(),
                        le_bytes(made.0.ipp.b, 32),
                    ),
                    "c".spec_bytes(),
                ),
                Err(e) => e == ProofError::VerificationError,
            }
        }),
{
    reveal(dealer_receive_bits);
    reveal(dealer_receive_polys);
    reveal(dealer_assemble);
    reveal(replay_points);
    reveal(replay_tail);
    let m = values.len();
    let n = c.n;
    let started = dealer_new(log, n, m, c.gens_capacity, c.party_capacity, c.b, c.b_blinding)->Ok_0;
    let bcs = Seq::new(
        m,
        |j: int| party_bits_of(c, values[j] as nat, blindings[j], j as nat, rand[j]).1,
    );
    let bits = dealer_receive_bits(started.0, started.1, bcs)->Ok_0;
    let pcs = Seq::new(
        m,
        |j: int|
            party_polys_of(
                c,
                values[j] as nat,
                blindings[j],
                j as nat,
                rand[j],
                bits.0.y,
                bits.0.z,
            ).1,
    );
    let polys = dealer_receive_polys(bits.0, bits.1, pcs)->Ok_0;
    let d = polys.0;
    let shares = Seq::new(
        m,
        |j: int|
            party_apply_poly_challenge(
                party_polys_of(
                    c,
                    values[j] as nat,
                    blindings[j],
                    j as nat,
                    rand[j],
                    d.bits.y,
                    d.bits.z,
                ).0,
                d.x,
            ).unwrap(),
    );
    let made = prove(log, c, values, blindings, rand)->Ok_0;
    let vs = made.1;
    assert(vs =~= Seq::new(bcs.len(), |j: int| bcs[j].v_j));
    // the inner product proof is made over vectors of `n m` entries
    let ls = Seq::new(shares.len(), |j: int| shares[j].l_vec);
    let rs = Seq::new(shares.len(), |j: int| shares[j].r_vec);
    lemma_no_missized(shares, n);
    lemma_concat_all_len(ls, n);
    lemma_concat_all_len(rs, n);
    let t_x = scalar_sum(Seq::new(shares.len(), |j: int| shares[j].t_x));
    let t_x_blinding = scalar_sum(Seq::new(shares.len(), |j: int| shares[j].t_x_blinding));
    let e_blinding = scalar_sum(Seq::new(shares.len(), |j: int| shares[j].e_blinding));
    let with_t = log_append(polys.1, "t_x".spec_bytes(), le_bytes(t_x, 32));
    let with_tb = log_append(with_t, "t_x_blinding".spec_bytes(), le_bytes(t_x_blinding, 32));
    let with_e = log_append(with_tb, "e_blinding".spec_bytes(), le_bytes(e_blinding, 32));
    let w = challenge_value(with_e, "w".spec_bytes());
    let after_w = log_challenge(with_e, "w".spec_bytes());
    let st = IppProver {
        log: log_innerproduct_domain_sep(after_w, concat_all(ls).len()),
        q: ristretto_product(w, d.bits.setup.b),
        gf: Seq::new(n * m, |i: int| 1nat),
        hf: powers_of(finv(d.bits.y), n * m),
        g: flat_generators(kind_g(), n, m),
        h: flat_generators(kind_h(), n, m),
        a: concat_all(ls),
        b: concat_all(rs),
    };
    lemma_replay_follows_fold(st);
    assert(made.0.ipp == ipp_fold(st).0);
    assert(made.2 == ipp_fold(st).1);
}

/// A copy of a vector of scalars.
fn copy_scalars(v: &Vec<Scalar>) -> (r: Vec<Scalar>)
    ensures
        r.deep_view() == v.deep_view(),
        r.len() == v.len(),
{
    let mut out: Vec<Scalar> = Vec::new();
    let mut i: usize = 0;
    while i < v.len()
        invariant
            i <= v.len(),
            out.len() == i,
            forall|k: int| 0 <= k < i ==> (#[trigger] out[k])@ == v[k]@,
        decreases v.len() - i,
    {
        out.push(v[i]);
        i += 1;
    }
    assert(out.deep_view() =~= v.deep_view());
    out
}

/// The values of a slice of scalars.
pub open spec fn scalar_values(s: Seq<Scalar>) -> Seq<nat> {
    Seq::new(s.len(), |j: int| s[j]@)
}

/// The first round: every party takes its position and commits to its
/// bits.
fn commit_bits<'a>(
    bp_gens: &'a BulletproofGens,
    pc_gens: &'a PedersenGens,
    values: &[u64],
    blindings: &[Scalar],
    n: usize,
    rand: &[PartyBlindings],
) -> (r: Result<(Vec<PartyAwaitingBitChallenge<'a>>, Vec<BitCommitment>), MPCError>)
    requires
        values.len() == blindings.len(),
        blindings_fit(blinding_views(rand@), values.len() as nat, n as nat),
        valid_bitsize(n as nat),
        n <= bp_gens.gens_capacity(),
        values.len() <= bp_gens.party_capacity(),
    ensures
        r is Ok,
        r.unwrap().0.len() == values.len(),
        r.unwrap().1.len() == values.len(),
        forall|j: int|
            0 <= j < values.len() ==> ((#[trigger] r.unwrap().0[j])@, r.unwrap().1[j]@)
                == party_bits_of(
                context_of(bp_gens, pc_gens, n),
                values[j] as nat,
                blindings[j]@,
                j as nat,
                rand[j]@,
            ),
{
    let m = values.len();
    let ghost c = context_of(bp_gens, pc_gens, n);
    let mut parties: Vec<PartyAwaitingBitChallenge<'a>> = Vec::new();
    let mut bit_commitments: Vec<BitCommitment> = Vec::new();
    let mut j: usize = 0;
    while j < m
        invariant
            j <= m,
            m == values.len(),
            m == blindings.len(),
            blindings_fit(blinding_views(rand@), m as nat, n as nat),
            valid_bitsize(n as nat),
            n <= bp_gens.gens_capacity(),
            m <= bp_gens.party_capacity(),
            c == context_of(bp_gens, pc_gens, n),
            parties.len() == j,
            bit_commitments.len() == j,
            forall|k: int|
                0 <= k < j ==> ((#[trigger] parties[k])@, bit_commitments[k]@) == party_bits_of(
                    c,
                    values[k] as nat,
                    blindings[k]@,
                    k as nat,
                    rand[k]@,
                ),
        decreases m - j,
    {
        proof {
            assert(blinding_views(rand@)[j as int] == rand[j as int]@);
        }
        let party = match Party::new(bp_gens, pc_gens, values[j], blindings[j], n) {
            Ok(p) => p,
            Err(e) => {
                return Err(e);
            },
        };
        let s_L = copy_scalars(&rand[j].s_L);
        let s_R = copy_scalars(&rand[j].s_R);
        let next = party.assign_position_with_blindings(
            j,
            rand[j].a_blinding,
            rand[j].s_blinding,
            s_L,
            s_R,
        );
        match next {
            Ok((state, commitment)) => {
                parties.push(state);
                bit_commitments.push(commitment);
            },
            Err(e) => {
                return Err(e);
            },
        }
        j += 1;
    }
    Ok((parties, bit_commitments))
}

/// The second round: every party takes the challenges `y`, `z` and commits
/// to its polynomial.
fn commit_polys<'a>(
    parties: Vec<PartyAwaitingBitChallenge<'a>>,
    bit_challenge: &crate::range_proof::messages::BitChallenge,
    rand: &[PartyBlindings],
) -> (r: (Vec<PartyAwaitingPolyChallenge>, Vec<PolyCommitment>))
    requires
        parties.len() == rand.len(),
    ensures
        r.0.len() == parties.len(),
        r.1.len() == parties.len(),
        forall|j: int|
            0 <= j < parties.len() ==> ((#[trigger] r.0[j])@, r.1[j]@) == party_apply_bit_challenge(
                parties[j]@,
                bit_challenge.y@,
                bit_challenge.z@,
                rand[j]@.t_1_blinding,
                rand[j]@.t_2_blinding,
            ),
{
    let m = parties.len();
    let ghost all = parties@;
    let mut rest = parties;
    let mut next: Vec<PartyAwaitingPolyChallenge> = Vec::new();
    let mut poly_commitments: Vec<PolyCommitment> = Vec::new();
    let mut j: usize = 0;
    assert(rest@ =~= all.subrange(0, m as int));
    while j < m
        invariant
            j <= m,
            m == all.len(),
            m == rand.len(),
            rest@ == all.subrange(j as int, m as int),
            next.len() == j,
            poly_commitments.len() == j,
            forall|k: int|
                0 <= k < j ==> ((#[trigger] next[k])@, poly_commitments[k]@)
                    == party_apply_bit_challenge(
                    all[k]@,
                    bit_challenge.y@,
                    bit_challenge.z@,
                    rand[k]@.t_1_blinding,
                    rand[k]@.t_2_blinding,
                ),
        decreases m - j,
    {
        let party = rest.remove(0);
        proof {
            assert(party == all[j as int]);
            assert(rest@ =~= all.subrange(j + 1, m as int));
        }
        let (state, commitment) = party.apply_challenge_with_blindings(
            bit_challenge,
            rand[j].t_1_blinding,
            rand[j].t_2_blinding,
        );
        next.push(state);
        poly_commitments.push(commitment);
        j += 1;
    }
    (next, poly_commitments)
}

/// The third round: every party takes the challenge `x` and gives its
/// share. A challenge of zero is refused by the first party.
fn make_shares(
    parties: Vec<PartyAwaitingPolyChallenge>,
    poly_challenge: &crate::range_proof::messages::PolyChallenge,
) -> (r: Result<Vec<ProofShare>, MPCError>)
    ensures
        poly_challenge.x@ == 0 && parties.len() > 0 ==> (r matches Err(e) && e@
            == MPCFailure::MaliciousDealer),
        poly_challenge.x@ != 0 || parties.len() == 0 ==> r is Ok && r.unwrap().len()
            == parties.len() && forall|j: int|
            0 <= j < parties.len() ==> Ok::<ProofShareData, MPCError>(
                (#[trigger] r.unwrap()[j])@,
            ) == party_apply_poly_challenge(parties[j]@, poly_challenge.x@),
{
    let m = parties.len();
    let ghost all = parties@;
    let mut rest = parties;
    let mut shares: Vec<ProofShare> = Vec::new();
    let mut j: usize = 0;
    assert(rest@ =~= all.subrange(0, m as int));
    while j < m
        invariant
            j <= m,
            m == all.len(),
            all == parties@,
            rest@ == all.subrange(j as int, m as int),
            shares.len() == j,
            j > 0 ==> poly_challenge.x@ != 0,
            forall|k: int|
                0 <= k < j ==> Ok::<ProofShareData, MPCError>((#[trigger] shares[k])@)
                    == party_apply_poly_challenge(all[k]@, poly_challenge.x@),
        decreases m - j,
    {
        let party = rest.remove(0);
        proof {
            assert(party == all[j as int]);
            assert(rest@ =~= all.subrange(j + 1, m as int));
        }
        match party.apply_challenge(poly_challenge) {
            Ok(share) => {
                shares.push(share);
            },
            Err(e) => {
                proof {
                    assert(party_apply_poly_challenge(all[j as int]@, poly_challenge.x@) is Err);
                }
                return Err(e);
            },
        }
        j += 1;
    }
    Ok(shares)
}

impl RangeProof {
    /// A proof that each of the values lies in the range of `n` bits, and
    /// the commitments to the values, with the parties' blinding scalars
    /// given: one set for each value, with one entry per bit in `s_L` and
    /// in `s_R`.
    #[verifier::rlimit(50)]
    pub fn prove_multiple_with_blindings(
        bp_gens: &BulletproofGens,
        pc_gens: &PedersenGens,
        transcript: &mut Transcript,
        values: &[u64],
        blindings: &[Scalar],
        n: usize,
        rand: &[PartyBlindings],
    ) -> (r: Result<(RangeProof, Vec<CompressedRistretto>), ProofError>)
        requires
            blindings_fit(blinding_views(rand@), values.len() as nat, n as nat),
        ensures
            r matches Ok(made) ==> made.0@.ipp.l_vec.len() == log2(
                (n * values.len()) as nat,
            ),
            proved(
                prove(
                    transcript_log(*old(transcript)),
                    context_of(bp_gens, pc_gens, n),
                    values@,
                    scalar_values(blindings@),
                    blinding_views(rand@),
                ),
                r,
                transcript_log(*final(transcript)),
            ),
            values.len() != blindings.len() || dealer_new(
                transcript_log(*old(transcript)),
                n as nat,
                values.len() as nat,
                bp_gens.gens_capacity() as nat,
                bp_gens.party_capacity() as nat,
                pc_gens.B@,
                pc_gens.B_blinding@,
            ) is Err ==> r is Err && transcript_log(*final(transcript)) == transcript_log(
                *old(transcript),
            ),
    {
        if values.len() != blindings.len() {
            return Err(ProofError::WrongNumBlindingFactors);
        }
        let m = values.len();
        let ghost c = context_of(bp_gens, pc_gens, n);
        let ghost vals = values@;
        let ghost blinds = scalar_values(blindings@);
        let ghost rs = blinding_views(rand@);
        let dealer = match Dealer::new(bp_gens, pc_gens, transcript, n, m) {
            Ok(d) => d,
            Err(e) => {
                return Err(ProofError::from_mpc(e));
            },
        };
        let (parties, bit_commitments) = match commit_bits(
            bp_gens,
            pc_gens,
            values,
            blindings,
            n,
            rand,
        ) {
            Ok(p) => p,
            Err(e) => {
                return Err(ProofError::from_mpc(e));
            },
        };
        let ghost bit_states = parties@;
        let ghost bit_messages = bit_commitments@;
        proof {
            assert forall|j: int| 0 <= j < m implies (#[trigger] bit_commitments[j])@
                == party_bits_of(c, vals[j] as nat, blinds[j], j as nat, rs[j]).1 by {
                assert((parties[j]@, bit_commitments[j]@) == party_bits_of(
                    c,
                    vals[j] as nat,
                    blinds[j],
                    j as nat,
                    rs[j],
                ));
            }
            assert(bit_commitment_views(bit_commitments@) =~= Seq::new(
                m as nat,
                |j: int| party_bits_of(c, vals[j] as nat, blinds[j], j as nat, rs[j]).1,
            ));
        }
        let value_commitments = commitments_of(&bit_commitments);
        let ghost d0 = dealer.state@;
        let ghost l0 = transcript_log(*dealer.transcript);
        let ghost bcs = bit_commitment_views(bit_commitments@);
        let (dealer, bit_challenge) = match dealer.receive_bit_commitments(bit_commitments) {
            Ok(d) => d,
            Err(e) => {
                return Err(ProofError::from_mpc(e));
            },
        };
        let (parties, poly_commitments) = commit_polys(parties, &bit_challenge, rand);
        let ghost poly_states = parties@;
        proof {
            assert forall|j: int| 0 <= j < m implies (#[trigger] poly_states[j])@ == party_polys_of(
                c,
                vals[j] as nat,
                blinds[j],
                j as nat,
                rs[j],
                bit_challenge.y@,
                bit_challenge.z@,
            ).0 && poly_commitments[j]@ == party_polys_of(
                c,
                vals[j] as nat,
                blinds[j],
                j as nat,
                rs[j],
                bit_challenge.y@,
                bit_challenge.z@,
            ).1 by {
                assert((bit_states[j]@, bit_messages[j]@) == party_bits_of(
                    c,
                    vals[j] as nat,
                    blinds[j],
                    j as nat,
                    rs[j],
                ));
            }
            assert forall|j: int| 0 <= j < m implies (#[trigger] poly_commitments[j])@
                == party_polys_of(
                c,
                vals[j] as nat,
                blinds[j],
                j as nat,
                rs[j],
                bit_challenge.y@,
                bit_challenge.z@,
            ).1 by {
                assert(poly_states[j]@ == party_polys_of(
                    c,
                    vals[j] as nat,
                    blinds[j],
                    j as nat,
                    rs[j],
                    bit_challenge.y@,
                    bit_challenge.z@,
                ).0);
            }
            assert(poly_commitment_views(poly_commitments@) =~= Seq::new(
                m as nat,
                |j: int|
                    party_polys_of(
                        c,
                        vals[j] as nat,
                        blinds[j],
                        j as nat,
                        rs[j],
                        bit_challenge.y@,
                        bit_challenge.z@,
                    ).1,
            ));
        }
        let ghost l1 = transcript_log(*dealer.transcript);
        let ghost pcs = poly_commitment_views(poly_commitments@);
        proof {
            lemma_dealer_keeps(d0, l0, bcs, l1, pcs);
        }
        let (dealer, poly_challenge) = match dealer.receive_poly_commitments(poly_commitments) {
            Ok(d) => d,
            Err(e) => {
                return Err(ProofError::from_mpc(e));
            },
        };
        proof {
            reveal_with_fuel(is_pow2, 1);
            assert(m > 0);
        }
        let proof_shares = match make_shares(parties, &poly_challenge) {
            Ok(s) => s,
            Err(e) => {
                return Err(ProofError::from_mpc(e));
            },
        };
        proof {
            assert(share_views(proof_shares@) =~= Seq::new(
                m as nat,
                |j: int|
                    party_apply_poly_challenge(
                        party_polys_of(
                            c,
                            vals[j] as nat,
                            blinds[j],
                            j as nat,
                            rs[j],
                            bit_challenge.y@,
                            bit_challenge.z@,
                        ).0,
                        poly_challenge.x@,
                    ).unwrap(),
            ));
        }
        let proof = match dealer.receive_trusted_shares(proof_shares.as_slice()) {
            Ok(p) => p,
            Err(e) => {
                return Err(ProofError::from_mpc(e));
            },
        };
        proof {
            let want = prove(transcript_log(*old(transcript)), c, vals, blinds, rs);
            assert(value_commitments.deep_view() =~= want->Ok_0.1);
        }
        Ok((proof, value_commitments))
    }

    /// A proof that each of the values lies in the range of `n` bits, and
    /// the commitments to the values, with blinding scalars from the
    /// generator: the result is that of `prove_multiple_with_blindings` for
    /// some blinding scalars. Where the parameters are refused, nothing is
    /// drawn and the transcript is left as it was.
    pub fn prove_multiple_with_rng(
        bp_gens: &BulletproofGens,
        pc_gens: &PedersenGens,
        transcript: &mut Transcript,
        values: &[u64],
        blindings: &[Scalar],
        n: usize,
        rng: &mut ThreadRng,
    ) -> (r: Result<(RangeProof, Vec<CompressedRistretto>), ProofError>)
        ensures
            r matches Ok(made) ==> made.0@.ipp.l_vec.len() == log2(
                (n * values.len()) as nat,
            ),
            exists|rand: Seq<PartyBlindingsData>|
                blindings_fit(rand, values.len() as nat, n as nat) && proved(
                    #[trigger] prove(
                        transcript_log(*old(transcript)),
                        context_of(bp_gens, pc_gens, n),
                        values@,
                        scalar_values(blindings@),
                        rand,
                    ),
                    r,
                    transcript_log(*final(transcript)),
                ),
            values.len() != blindings.len() || dealer_new(
                transcript_log(*old(transcript)),
                n as nat,
                values.len() as nat,
                bp_gens.gens_capacity() as nat,
                bp_gens.party_capacity() as nat,
                pc_gens.B@,
                pc_gens.B_blinding@,
            ) is Err ==> r is Err && transcript_log(*final(transcript)) == transcript_log(
                *old(transcript),
            ),
    {
        let m = values.len();
        let ghost c = context_of(bp_gens, pc_gens, n);
        let ghost log = transcript_log(*transcript);
        let ghost none = Seq::new(
            m as nat,
            |j: int|
                PartyBlindingsData {
                    a_blinding: 0,
                    s_blinding: 0,
                    s_l: Seq::new(n as nat, |i: int| 0nat),
                    s_r: Seq::new(n as nat, |i: int| 0nat),
                    t_1_blinding: 0,
                    t_2_blinding: 0,
                },
        );
        let ghost refused = prove(log, c, values@, scalar_values(blindings@), none);
        assert(blindings_fit(none, m as nat, n as nat));
        if values.len() != blindings.len() {
            let r = Err(ProofError::WrongNumBlindingFactors);
            assert(proved(refused, r, log));
            return r;
        }
        if !(n == 8 || n == 16 || n == 32 || n == 64) {
            let r = Err(ProofError::InvalidBitsize);
            assert(proved(refused, r, log));
            return r;
        }
        if !crate::util::is_power_of_two(m) {
            let r = Err(ProofError::InvalidAggregationSize);
            assert(proved(refused, r, log));
            return r;
        }
        if bp_gens.gens_capacity() < n || bp_gens.party_capacity() < m {
            let r = Err(ProofError::InvalidGeneratorsLength);
            assert(proved(refused, r, log));
            return r;
        }
        let mut rand: Vec<PartyBlindings> = Vec::new();
        let mut j: usize = 0;
        while j < m
            invariant
                j <= m,
                rand.len() == j,
                forall|k: int|
                    0 <= k < j ==> (#[trigger] rand[k])@.s_l.len() == n && rand[k]@.s_r.len() == n,
            decreases m - j,
        {
            let a_blinding = Scalar::random(rng);
            let s_blinding = Scalar::random(rng);
            let s_L = Scalar::random_vec(rng, n);
            let s_R = Scalar::random_vec(rng, n);
            let t_1_blinding = Scalar::random(rng);
            let t_2_blinding = Scalar::random(rng);
            assert(s_L.len() == s_L.deep_view().len());
            assert(s_R.len() == s_R.deep_view().len());
            rand.push(
                PartyBlindings { a_blinding, s_blinding, s_L, s_R, t_1_blinding, t_2_blinding },
            );
            j += 1;
        }
        let r = Self::prove_multiple_with_blindings(
            bp_gens,
            pc_gens,
            transcript,
            values,
            blindings,
            n,
            rand.as_slice(),
        );
        proof {
            assert(blindings_fit(blinding_views(rand@), m as nat, n as nat));
            assert(proved(
                prove(log, c, values@, scalar_values(blindings@), blinding_views(rand@)),
                r,
                transcript_log(*transcript),
            ));
        }
        r
    }

    /// A proof that each of the values lies in the range of `n` bits, and
    /// the commitments to the values, with blinding scalars from the
    /// thread's generator.
    pub fn prove_multiple(
        bp_gens: &BulletproofGens,
        pc_gens: &PedersenGens,
        transcript: &mut Transcript,
        values: &[u64],
        blindings: &[Scalar],
        n: usize,
    ) -> (r: Result<(RangeProof, Vec<CompressedRistretto>), ProofError>)
        ensures
            r matches Ok(made) ==> made.0@.ipp.l_vec.len() == log2(
                (n * values.len()) as nat,
            ),
            exists|rand: Seq<PartyBlindingsData>|
                blindings_fit(rand, values.len() as nat, n as nat) && proved(
                    #[trigger] prove(
                        transcript_log(*old(transcript)),
                        context_of(bp_gens, pc_gens, n),
                        values@,
                        scalar_values(blindings@),
                        rand,
                    ),
                    r,
                    transcript_log(*final(transcript)),
                ),
            values.len() != blindings.len() || dealer_new(
                transcript_log(*old(transcript)),
                n as nat,
                values.len() as nat,
                bp_gens.gens_capacity() as nat,
                bp_gens.party_capacity() as nat,
                pc_gens.B@,
                pc_gens.B_blinding@,
            ) is Err ==> r is Err && transcript_log(*final(transcript)) == transcript_log(
                *old(transcript),
            ),
    {
        let mut rng = thread_rng();
        Self::prove_multiple_with_rng(bp_gens, pc_gens, transcript, values, blindings, n, &mut rng)
    }

    /// A proof that `v` lies in the range of `n` bits, and the commitment
    /// to `v`, with blinding scalars from the generator: `prove_multiple`
    /// for the one value.
    pub fn prove_single_with_rng(
        bp_gens: &BulletproofGens,
        pc_gens: &PedersenGens,
        transcript: &mut Transcript,
        v: u64,
        v_blinding: &Scalar,
        n: usize,
        rng: &mut ThreadRng,
    ) -> (r: Result<(RangeProof, CompressedRistretto), ProofError>)
        ensures
            r matches Ok(made) ==> made.0@.ipp.l_vec.len() == log2(n as nat),
            exists|rand: Seq<PartyBlindingsData>|
                blindings_fit(rand, 1, n as nat) && proved_single(
                    #[trigger] prove(
                        transcript_log(*old(transcript)),
                        context_of(bp_gens, pc_gens, n),
                        seq![v],
                        seq![v_blinding@],
                        rand,
                    ),
                    r,
                    transcript_log(*final(transcript)),
                ),
    {
        let values = [v];
        let blindings = [*v_blinding];
        let vs = values.as_slice();
        let bs = blindings.as_slice();
        proof {
            assert(vs@ =~= seq![v]);
            assert(scalar_values(bs@) =~= seq![v_blinding@]);
        }
        let ghost log = transcript_log(*transcript);
        let made = Self::prove_multiple_with_rng(bp_gens, pc_gens, transcript, vs, bs, n, rng);
        let ghost c = context_of(bp_gens, pc_gens, n);
        let ghost rand = choose|rand: Seq<PartyBlindingsData>|
            blindings_fit(rand, 1, n as nat) && proved(
                #[trigger] prove(log, c, seq![v], seq![v_blinding@], rand),
                made,
                transcript_log(*transcript),
            );
        let r = match made {
            Ok((proof, commitments)) => {
                assert(commitments.len() == commitments.deep_view().len());
                assert(commitments.deep_view()[0] == commitments[0]@);
                Ok((proof, commitments[0]))
            },
            Err(e) => Err(e),
        };
        proof {
            assert(proved_single(
                prove(log, c, seq![v], seq![v_blinding@], rand),
                r,
                transcript_log(*transcript),
            ));
        }
        r
    }

    /// A proof that `v` lies in the range of `n` bits, and the commitment
    /// to `v`, with blinding scalars from the thread's generator.
    pub fn prove_single(
        bp_gens: &BulletproofGens,
        pc_gens: &PedersenGens,
        transcript: &mut Transcript,
        v: u64,
        v_blinding: &Scalar,
        n: usize,
    ) -> (r: Result<(RangeProof, CompressedRistretto), ProofError>)
        ensures
            r matches Ok(made) ==> made.0@.ipp.l_vec.len() == log2(n as nat),
            exists|rand: Seq<PartyBlindingsData>|
                blindings_fit(rand, 1, n as nat) && proved_single(
                    #[trigger] prove(
                        transcript_log(*old(transcript)),
                        context_of(bp_gens, pc_gens, n),
                        seq![v],
                        seq![v_blinding@],
                        rand,
                    ),
                    r,
                    transcript_log(*final(transcript)),
                ),
    {
        let mut rng = thread_rng();
        Self::prove_single_with_rng(bp_gens, pc_gens, transcript, v, v_blinding, n, &mut rng)
    }
}

/// The encodings of the parties' value commitments.
fn commitments_of(bit_commitments: &Vec<BitCommitment>) -> (r: Vec<CompressedRistretto>)
    ensures
        r.deep_view() == Seq::new(bit_commitments.len() as nat, |j: int| bit_commitments[j]@.v_j),
{
    let mut out: Vec<CompressedRistretto> = Vec::new();
    let mut j: usize = 0;
    while j < bit_commitments.len()
        invariant
            j <= bit_commitments.len(),
            out.len() == j,
            forall|k: int| 0 <= k < j ==> (#[trigger] out[k])@ == bit_commitments[k].V_j@,
        decreases bit_commitments.len() - j,
    {
        out.push(bit_commitments[j].V_j);
        j += 1;
    }
    assert(out.deep_view() =~= Seq::new(
        bit_commitments.len() as nat,
        |j: int| bit_commitments[j]@.v_j,
    ));
    out
}

} // verus!
