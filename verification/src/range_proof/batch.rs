//! Verification of range proofs: each proof's transcript is replayed, the
//! terms of its verification equation are scaled by a batch factor and
//! gathered, and one multiscalar product decides all the proofs at once.

#![allow(non_snake_case)]

use crate::errors::ProofError;
use crate::generators::flat_generators;
use crate::generators::kind_g;
use crate::generators::kind_h;
use crate::generators::BulletproofGens;
use crate::generators::PedersenGens;
use crate::inner_product_proof::ipp_verification;
use crate::inner_product_proof::lemma_challenges_len;
use crate::range_proof::delta;
use crate::range_proof::delta_value;
use crate::range_proof::party::valid_bitsize;
use crate::range_proof::RangeProof;
use crate::range_proof::RangeProofData;
use crate::range_proof::RangeProofView;
use crate::range_proof::ValueCommitment;
use crate::ristretto::all_present;
use crate::ristretto::identity_encoding;
use crate::ristretto::msm;
use crate::ristretto::point_optional_msm;
use crate::ristretto::ristretto_decodes;
use crate::ristretto::unwrap_all;
use crate::ristretto::RistrettoElement;
use crate::scalar::fadd;
use crate::scalar::finv;
use crate::scalar::fmul;
use crate::scalar::fneg;
use crate::scalar::fsub;
use crate::scalar::le_bytes;
use crate::scalar::thread_rng;
use crate::scalar::Scalar;
use crate::transcript::append_point;
use crate::transcript::append_scalar;
use crate::transcript::challenge_scalar;
use crate::transcript::challenge_value;
use crate::transcript::log_append;
use crate::transcript::log_challenge;
use crate::transcript::log_innerproduct_domain_sep;
use crate::transcript::log_rangeproof_domain_sep;
use crate::transcript::rangeproof_domain_sep;
use crate::transcript::transcript_log;
use crate::transcript::validate_and_append_point;
use crate::transcript::TranscriptEvent;
use crate::util::fpow;
use crate::util::powers;
use crate::util::powers_of;
use merlin::Transcript;
use rand::rngs::ThreadRng;
use vstd::arithmetic::div_mod::lemma_fundamental_div_mod_converse;
use vstd::prelude::*;
use vstd::string::StringSliceAdditionalSpecFns;

verus! {

/// The encodings of a sequence of commitments.
pub open spec fn encodings<V: ValueCommitment>(vs: Seq<V>) -> Seq<Seq<u8>> {
    Seq::new(vs.len(), |i: int| vs[i].encoding())
}

/// The points of a sequence of commitments.
pub open spec fn points_of<V: ValueCommitment>(vs: Seq<V>) -> Seq<Option<Seq<u8>>> {
    Seq::new(vs.len(), |i: int| vs[i].point())
}

/// The point that bytes encode, if they encode one.
pub open spec fn decoded(enc: Seq<u8>) -> Option<Seq<u8>> {
    if ristretto_decodes(enc) {
        Some(enc)
    } else {
        None
    }
}

/// The history after the encodings of the commitments are absorbed, one
/// after the other.
pub open spec fn log_with_commitments(log: Seq<TranscriptEvent>, vs: Seq<Seq<u8>>) -> Seq<
    TranscriptEvent,
>
    decreases vs.len(),
{
    if vs.len() == 0 {
        log
    } else {
        log_append(log_with_commitments(log, vs.drop_last()), "V".spec_bytes(), vs.last())
    }
}

/// What a replay of a proof's transcript gives: the challenges, the
/// verification scalars of the inner product proof, and the history left.
pub struct Replay {
    pub y: nat,
    pub z: nat,
    pub x: nat,
    pub w: nat,
    pub c: nat,
    pub u_sq: Seq<nat>,
    pub u_inv_sq: Seq<nat>,
    pub s: Seq<nat>,
    pub log: Seq<TranscriptEvent>,
}

/// The last part of the replay, from the challenge `x` on: the three
/// scalars are absorbed, `w` is drawn, the rounds of the inner product
/// proof are replayed, its two scalars are absorbed, and `c` is drawn.
#[verifier::opaque]
pub open spec fn replay_tail(
    log: Seq<TranscriptEvent>,
    p: RangeProofData,
    nm: nat,
    y: nat,
    z: nat,
    x: nat,
) -> Result<Replay, ProofError> {
    let l1 = log_append(log, "t_x".spec_bytes(), le_bytes(p.t_x, 32));
    let l2 = log_append(l1, "t_x_blinding".spec_bytes(), le_bytes(p.t_x_blinding, 32));
    let l3 = log_append(l2, "e_blinding".spec_bytes(), le_bytes(p.e_blinding, 32));
    let w = challenge_value(l3, "w".spec_bytes());
    let l4 = log_challenge(l3, "w".spec_bytes());
    match ipp_verification(l4, p.ipp, nm) {
        None => Err(ProofError::VerificationError),
        Some((v, l5)) => {
            let l6 = log_append(l5, "ipp_a".spec_bytes(), le_bytes(p.ipp.a, 32));
            let l7 = log_append(l6, "ipp_b".spec_bytes(), le_bytes(p.ipp.b, 32));
            Ok(
                Replay {
                    y,
                    z,
                    x,
                    w,
                    c: challenge_value(l7, "c".spec_bytes()),
                    u_sq: v.u_sq,
                    u_inv_sq: v.u_inv_sq,
                    s: v.s,
                    log: log_challenge(l7, "c".spec_bytes()),
                },
            )
        },
    }
}

/// The replay from the commitments on: `A` and `S` are absorbed, `y` and
/// `z` are drawn, `T_1` and `T_2` are absorbed, `x` is drawn. A point that
/// is the encoding of the neutral element ends the verification.
#[verifier::opaque]
pub open spec fn replay_points(
    log: Seq<TranscriptEvent>,
    p: RangeProofData,
    nm: nat,
) -> Result<Replay, ProofError> {
    if p.a == identity_encoding() || p.s == identity_encoding() {
        Err(ProofError::VerificationError)
    } else {
        let l1 = log_append(log_append(log, "A".spec_bytes(), p.a), "S".spec_bytes(), p.s);
        let y = challenge_value(l1, "y".spec_bytes());
        let l2 = log_challenge(l1, "y".spec_bytes());
        let z = challenge_value(l2, "z".spec_bytes());
        let l3 = log_challenge(l2, "z".spec_bytes());
        if p.t_1 == identity_encoding() || p.t_2 == identity_encoding() {
            Err(ProofError::VerificationError)
        } else {
            let l4 = log_append(
                log_append(l3, "T_1".spec_bytes(), p.t_1),
                "T_2".spec_bytes(),
                p.t_2,
            );
            let x = challenge_value(l4, "x".spec_bytes());
            replay_tail(log_challenge(l4, "x".spec_bytes()), p, nm, y, z, x)
        }
    }
}

/// The replay of the transcript of a proof for commitments with the
/// encodings `vs` and `n` bits, against generators with the capacities
/// given. The bitsize is checked first, then the generators; then the
/// transcript is replayed as the prover built it.
pub open spec fn replay(
    log: Seq<TranscriptEvent>,
    p: RangeProofData,
    vs: Seq<Seq<u8>>,
    n: nat,
    gens_capacity: nat,
    party_capacity: nat,
) -> Result<Replay, ProofError> {
    if !valid_bitsize(n) {
        Err(ProofError::InvalidBitsize)
    } else if gens_capacity < n || party_capacity < vs.len() {
        Err(ProofError::InvalidGeneratorsLength)
    } else {
        replay_points(
            log_with_commitments(log_rangeproof_domain_sep(log, n, vs.len()), vs),
            p,
            n * vs.len(),
        )
    }
}

/// A replay that succeeds gives one coefficient per generator and one
/// square per round.
pub proof fn lemma_replay_shape(
    log: Seq<TranscriptEvent>,
    p: RangeProofData,
    vs: Seq<Seq<u8>>,
    n: nat,
    gens_capacity: nat,
    party_capacity: nat,
)
    ensures
        replay(log, p, vs, n, gens_capacity, party_capacity) matches Ok(rp) ==> rp.s.len() == n
            * vs.len() && rp.u_sq.len() == p.ipp.l_vec.len() && rp.u_inv_sq.len()
            == p.ipp.l_vec.len(),
{
    reveal(replay_points);
    reveal(replay_tail);
    let r = replay(log, p, vs, n, gens_capacity, party_capacity);
    if r is Ok {
        let nm = n * vs.len();
        let l0 = log_with_commitments(log_rangeproof_domain_sep(log, n, vs.len()), vs);
        let l1 = log_append(log_append(l0, "A".spec_bytes(), p.a), "S".spec_bytes(), p.s);
        let l2 = log_challenge(l1, "y".spec_bytes());
        let l3 = log_challenge(l2, "z".spec_bytes());
        let l4 = log_append(log_append(l3, "T_1".spec_bytes(), p.t_1), "T_2".spec_bytes(), p.t_2);
        let l5 = log_challenge(l4, "x".spec_bytes());
        let l6 = log_append(l5, "t_x".spec_bytes(), le_bytes(p.t_x, 32));
        let l7 = log_append(l6, "t_x_blinding".spec_bytes(), le_bytes(p.t_x_blinding, 32));
        let l8 = log_append(l7, "e_blinding".spec_bytes(), le_bytes(p.e_blinding, 32));
        let l9 = log_challenge(l8, "w".spec_bytes());
        lemma_challenges_len(log_innerproduct_domain_sep(l9, nm), p.ipp.l_vec, p.ipp.r_vec);
    }
}

/// The terms of the collected verification equation: scalars against the
/// points of the proofs, against the two Pedersen generators, and against
/// the generators `G` and `H` of as many parties and bits as the largest
/// proof so far has.
pub struct BatchData {
    pub dynamic_scalars: Seq<nat>,
    pub dynamic_points: Seq<Option<Seq<u8>>>,
    pub b_scalar: nat,
    pub b_blinding_scalar: nat,
    pub g_scalars: Seq<Seq<nat>>,
    pub h_scalars: Seq<Seq<nat>>,
    pub party_capacity: nat,
    pub gens_capacity: nat,
}

/// The scalars of one proof's own points, before the batch factor:
/// `1` for `A`, `x` for `S`, `c x` for `T_1`, `c x^2` for `T_2`, the squares
/// of the challenges for the left points and of their inverses for the
/// right points, and `c z^2 z^j` for commitment `j`.
pub open spec fn proof_scalars(rp: Replay, m: nat) -> Seq<nat> {
    seq![1nat, rp.x, fmul(rp.c, rp.x), fmul(fmul(rp.c, rp.x), rp.x)] + rp.u_sq + rp.u_inv_sq
        + Seq::new(m, |j: int| fmul(fmul(rp.c, fmul(rp.z, rp.z)), fpow(rp.z, j as nat)))
}

/// A sequence of scalars, each multiplied by `factor`.
pub open spec fn scaled(s: Seq<nat>, factor: nat) -> Seq<nat> {
    Seq::new(s.len(), |i: int| fmul(s[i], factor))
}

/// One proof's own points: `A`, `S`, `T_1`, `T_2`, the left and the right
/// points of the inner product proof, and the commitments.
pub open spec fn proof_points(p: RangeProofData, points: Seq<Option<Seq<u8>>>) -> Seq<
    Option<Seq<u8>>,
> {
    seq![decoded(p.a), decoded(p.s), decoded(p.t_1), decoded(p.t_2)] + Seq::new(
        p.ipp.l_vec.len(),
        |i: int| decoded(p.ipp.l_vec[i]),
    ) + Seq::new(p.ipp.r_vec.len(), |i: int| decoded(p.ipp.r_vec[i])) + points
}

/// The scalar of the generator `B`: `w (t_x - a b) + c (delta - t_x)`.
pub open spec fn basepoint_scalar(rp: Replay, p: RangeProofData, n: nat, m: nat) -> nat {
    fadd(
        fmul(rp.w, fsub(p.t_x, fmul(p.ipp.a, p.ipp.b))),
        fmul(rp.c, fsub(delta_value(n, m, rp.y, rp.z), p.t_x)),
    )
}

/// The scalar of the generator `B_blinding`: `-e_blinding - c t_x_blinding`.
pub open spec fn blinding_scalar(rp: Replay, p: RangeProofData) -> nat {
    fsub(fneg(p.e_blinding), fmul(rp.c, p.t_x_blinding))
}

/// The scalar of generator `G` number `k`: `-z - a s_k`.
pub open spec fn g_coefficient(rp: Replay, p: RangeProofData, k: int) -> nat {
    fsub(fneg(rp.z), fmul(p.ipp.a, rp.s[k]))
}

/// The scalar of generator `H` number `k`, bit `k mod n` of party `k / n`:
/// `z + y^(-k) (z^2 z^j 2^i - b / s_k)`, where `1 / s_k` is the entry of `s`
/// that mirrors `k`.
pub open spec fn h_coefficient(rp: Replay, p: RangeProofData, n: nat, nm: nat, k: int) -> nat {
    fadd(
        rp.z,
        fmul(
            fpow(finv(rp.y), k as nat),
            fsub(
                fmul(
                    fmul(rp.z, rp.z),
                    fmul(fpow(2, (k % n as int) as nat), fpow(rp.z, (k / n as int) as nat)),
                ),
                fmul(p.ipp.b, rp.s[nm - 1 - k]),
            ),
        ),
    )
}

/// The entry of a matrix, or zero outside of it.
pub open spec fn padded(mat: Seq<Seq<nat>>, j: int, i: int) -> nat {
    if 0 <= j < mat.len() && 0 <= i < mat[j].len() {
        mat[j][i]
    } else {
        0
    }
}

/// The scalars of the generators `G` for one proof of `m` values of `n`
/// bits, party by party, each multiplied by `factor`.
pub open spec fn g_terms(rp: Replay, p: RangeProofData, n: nat, m: nat, factor: nat) -> Seq<nat> {
    Seq::new(n * m, |k: int| fmul(g_coefficient(rp, p, k), factor))
}

/// The scalars of the generators `H` for one proof of `m` values of `n`
/// bits, party by party, each multiplied by `factor`.
pub open spec fn h_terms(rp: Replay, p: RangeProofData, n: nat, m: nat, factor: nat) -> Seq<nat> {
    Seq::new(n * m, |k: int| fmul(h_coefficient(rp, p, n, n * m, k), factor))
}

/// A matrix grown to `rows` rows of `cols` entries, new entries being
/// zero, with term `j n + i` added to entry `i` of row `j` for the first
/// `n` entries of the first `m` rows.
pub open spec fn grown(
    old: Seq<Seq<nat>>,
    terms: Seq<nat>,
    rows: nat,
    cols: nat,
    n: nat,
    m: nat,
) -> Seq<Seq<nat>> {
    Seq::new(
        rows,
        |j: int|
            Seq::new(
                cols,
                |i: int|
                    if j < m && i < n {
                        fadd(padded(old, j, i), terms[j * n + i])
                    } else {
                        padded(old, j, i)
                    },
            ),
    )
}

/// The terms after those of one more proof are added, scaled by `factor`.
#[verifier::opaque]
pub open spec fn batch_add(
    old: BatchData,
    rp: Replay,
    p: RangeProofData,
    points: Seq<Option<Seq<u8>>>,
    n: nat,
    factor: nat,
) -> BatchData {
    let m = points.len();
    let pc = if old.party_capacity >= m {
        old.party_capacity
    } else {
        m
    };
    let gc = if old.gens_capacity >= n {
        old.gens_capacity
    } else {
        n
    };
    BatchData {
        dynamic_scalars: old.dynamic_scalars + scaled(proof_scalars(rp, m), factor),
        dynamic_points: old.dynamic_points + proof_points(p, points),
        b_scalar: fadd(old.b_scalar, fmul(basepoint_scalar(rp, p, n, m), factor)),
        b_blinding_scalar: fadd(old.b_blinding_scalar, fmul(blinding_scalar(rp, p), factor)),
        g_scalars: grown(old.g_scalars, g_terms(rp, p, n, m, factor), pc, gc, n, m),
        h_scalars: grown(old.h_scalars, h_terms(rp, p, n, m, factor), pc, gc, n, m),
        party_capacity: pc,
        gens_capacity: gc,
    }
}

/// The terms before any proof is added.
pub open spec fn batch_empty() -> BatchData {
    BatchData {
        dynamic_scalars: Seq::empty(),
        dynamic_points: Seq::empty(),
        b_scalar: 0,
        b_blinding_scalar: 0,
        g_scalars: Seq::empty(),
        h_scalars: Seq::empty(),
        party_capacity: 0,
        gens_capacity: 0,
    }
}

/// The rows of a matrix with `cols` columns, one after the other.
pub open spec fn flatten(mat: Seq<Seq<nat>>, cols: nat) -> Seq<nat> {
    Seq::new(mat.len() * cols, |k: int| mat[k / cols as int][k % cols as int])
}

/// All the scalars of the collected equation.
pub open spec fn batch_scalars(b: BatchData) -> Seq<nat> {
    b.dynamic_scalars + flatten(b.g_scalars, b.gens_capacity) + flatten(
        b.h_scalars,
        b.gens_capacity,
    ) + seq![b.b_blinding_scalar, b.b_scalar]
}

/// Each point of a sequence, as a point that is present.
pub open spec fn present(p: Seq<Seq<u8>>) -> Seq<Option<Seq<u8>>> {
    Seq::new(p.len(), |i: int| Some(p[i]))
}

/// All the points of the collected equation, in the order of the scalars.
pub open spec fn batch_points(b: BatchData, pc_b: Seq<u8>, pc_b_blinding: Seq<u8>) -> Seq<
    Option<Seq<u8>>,
> {
    b.dynamic_points + present(flat_generators(kind_g(), b.gens_capacity, b.party_capacity))
        + present(flat_generators(kind_h(), b.gens_capacity, b.party_capacity)) + seq![
        Some(pc_b_blinding),
        Some(pc_b),
    ]
}

/// Whether the collected equation holds: every point is there, and the
/// multiscalar product is the neutral element.
#[verifier::opaque]
pub open spec fn batch_holds(b: BatchData, pc_b: Seq<u8>, pc_b_blinding: Seq<u8>) -> bool {
    all_present(batch_points(b, pc_b, pc_b_blinding)) && msm(
        batch_scalars(b),
        unwrap_all(batch_points(b, pc_b, pc_b_blinding)),
    ) == identity_encoding()
}

/// The challenges and verification scalars of one proof.
pub struct Challenges {
    pub y: Scalar,
    pub z: Scalar,
    pub x: Scalar,
    pub w: Scalar,
    pub c: Scalar,
    pub u_sq: Vec<Scalar>,
    pub u_inv_sq: Vec<Scalar>,
    pub s: Vec<Scalar>,
}

impl Challenges {
    /// Whether these are the values of a replay.
    pub open spec fn agrees(&self, rp: Replay) -> bool {
        &&& self.y@ == rp.y
        &&& self.z@ == rp.z
        &&& self.x@ == rp.x
        &&& self.w@ == rp.w
        &&& self.c@ == rp.c
        &&& self.u_sq.deep_view() == rp.u_sq
        &&& self.u_inv_sq.deep_view() == rp.u_inv_sq
        &&& self.s.deep_view() == rp.s
    }
}

/// Replays the transcript of a proof and derives its challenges.
pub fn replay_transcript<V: ValueCommitment>(
    proof: &RangeProof,
    transcript: &mut Transcript,
    value_commitments: &[V],
    n: usize,
    bp_gens: &BulletproofGens,
) -> (r: Result<Challenges, ProofError>)
    ensures
        match replay(
            transcript_log(*old(transcript)),
            proof@,
            encodings(value_commitments@),
            n as nat,
            bp_gens.gens_capacity() as nat,
            bp_gens.party_capacity() as nat,
        ) {
            Ok(rp) => r is Ok && r.unwrap().agrees(rp) && transcript_log(*final(transcript))
                == rp.log,
            Err(e) => r == Err::<Challenges, ProofError>(e),
        },
{
    let m = value_commitments.len();
    proof {
        reveal(replay_points);
        reveal(replay_tail);
    }
    if !(n == 8 || n == 16 || n == 32 || n == 64) {
        return Err(ProofError::InvalidBitsize);
    }
    let gens_capacity = bp_gens.gens_capacity();
    let party_capacity = bp_gens.party_capacity();
    if gens_capacity < n {
        return Err(ProofError::InvalidGeneratorsLength);
    }
    if party_capacity < m {
        return Err(ProofError::InvalidGeneratorsLength);
    }
    assert(n * m <= usize::MAX) by (nonlinear_arith)
        requires
            n <= gens_capacity,
            m <= party_capacity,
            gens_capacity * party_capacity <= usize::MAX,
    ;
    rangeproof_domain_sep(transcript, n as u64, m as u64);
    let ghost vs = encodings(value_commitments@);
    let ghost log0 = transcript_log(*transcript);
    let mut i: usize = 0;
    assert(vs.take(0) =~= Seq::<Seq<u8>>::empty());
    while i < m
        invariant
            i <= m,
            m == value_commitments.len(),
            vs == encodings(value_commitments@),
            transcript_log(*transcript) == log_with_commitments(log0, vs.take(i as int)),
        decreases m - i,
    {
        let enc = value_commitments[i].compress();
        proof {
            assert(vs.take(i + 1).drop_last() =~= vs.take(i as int));
            assert(vs.take(i + 1).last() == value_commitments[i as int].encoding());
        }
        append_point(transcript, "V", &enc);
        i += 1;
    }
    proof {
        assert(vs.take(m as int) =~= vs);
    }
    let a_ok = validate_and_append_point(transcript, "A", proof.point_a());
    if a_ok.is_err() {
        return Err(ProofError::VerificationError);
    }
    let s_ok = validate_and_append_point(transcript, "S", proof.point_s());
    if s_ok.is_err() {
        return Err(ProofError::VerificationError);
    }
    let y = challenge_scalar(transcript, "y");
    let z = challenge_scalar(transcript, "z");
    let t1_ok = validate_and_append_point(transcript, "T_1", proof.point_t_1());
    if t1_ok.is_err() {
        return Err(ProofError::VerificationError);
    }
    let t2_ok = validate_and_append_point(transcript, "T_2", proof.point_t_2());
    if t2_ok.is_err() {
        return Err(ProofError::VerificationError);
    }
    let x = challenge_scalar(transcript, "x");
    let t_x = proof.scalar_t_x();
    let t_x_blinding = proof.scalar_t_x_blinding();
    let e_blinding = proof.scalar_e_blinding();
    append_scalar(transcript, "t_x", &t_x);
    append_scalar(transcript, "t_x_blinding", &t_x_blinding);
    append_scalar(transcript, "e_blinding", &e_blinding);
    let w = challenge_scalar(transcript, "w");
    let (u_sq, u_inv_sq, s) = match proof.inner_proof().verification_scalars(n * m, transcript) {
        Ok(v) => v,
        Err(e) => {
            return Err(e);
        },
    };
    let a = proof.inner_proof().scalar_a();
    let b = proof.inner_proof().scalar_b();
    append_scalar(transcript, "ipp_a", &a);
    append_scalar(transcript, "ipp_b", &b);
    let c = challenge_scalar(transcript, "c");
    Ok(Challenges { y, z, x, w, c, u_sq, u_inv_sq, s })
}

/// The terms of the verification equations of a batch of proofs, gathered
/// for one multiscalar product.
pub struct BatchCollector<'a> {
    dynamic_scalars: Vec<Scalar>,
    dynamic_points: Vec<Option<RistrettoElement>>,
    pedersen_B_scalar: Scalar,
    pedersen_B_blinding_scalar: Scalar,
    g_scalars: Vec<Vec<Scalar>>,
    h_scalars: Vec<Vec<Scalar>>,
    party_capacity: usize,
    gens_capacity: usize,
    bp_gens: &'a BulletproofGens,
    pc_gens: &'a PedersenGens,
}

impl<'a> View for BatchCollector<'a> {
    type V = BatchData;

    closed spec fn view(&self) -> BatchData {
        BatchData {
            dynamic_scalars: self.dynamic_scalars.deep_view(),
            dynamic_points: self.dynamic_points.deep_view(),
            b_scalar: self.pedersen_B_scalar@,
            b_blinding_scalar: self.pedersen_B_blinding_scalar@,
            g_scalars: self.g_scalars.deep_view(),
            h_scalars: self.h_scalars.deep_view(),
            party_capacity: self.party_capacity as nat,
            gens_capacity: self.gens_capacity as nat,
        }
    }
}

/// Whether a matrix has `rows` rows of `cols` entries.
pub open spec fn has_shape(mat: Seq<Vec<Scalar>>, rows: nat, cols: nat) -> bool {
    mat.len() == rows && forall|j: int| 0 <= j < rows ==> (#[trigger] mat[j]).len() == cols
}

/// The matrix of one kind of generator scalars after one more proof.
fn grow_matrix(
    old: &Vec<Vec<Scalar>>,
    old_rows: usize,
    old_cols: usize,
    rows: usize,
    cols: usize,
    terms: &Vec<Scalar>,
    n: usize,
    m: usize,
) -> (r: Vec<Vec<Scalar>>)
    requires
        has_shape(old@, old_rows as nat, old_cols as nat),
        old_rows <= rows,
        old_cols <= cols,
        m <= rows,
        n <= cols,
        terms.len() == n * m,
    ensures
        has_shape(r@, rows as nat, cols as nat),
        r.deep_view() == grown(
            old.deep_view(),
            terms.deep_view(),
            rows as nat,
            cols as nat,
            n as nat,
            m as nat,
        ),
{
    let zero = Scalar::zero();
    let mut out: Vec<Vec<Scalar>> = Vec::new();
    let mut j: usize = 0;
    while j < rows
        invariant
            j <= rows,
            has_shape(old@, old_rows as nat, old_cols as nat),
            old_rows <= rows,
            old_cols <= cols,
            m <= rows,
            n <= cols,
            terms.len() == n * m,
            zero@ == 0,
            has_shape(out@, j as nat, cols as nat),
            forall|jj: int, i: int|
                0 <= jj < j && 0 <= i < cols ==> (#[trigger] out[jj][i])@ == if jj < m && i < n {
                    fadd(padded(old.deep_view(), jj, i), terms[jj * n + i]@)
                } else {
                    padded(old.deep_view(), jj, i)
                },
        decreases rows - j,
    {
        let mut row: Vec<Scalar> = Vec::new();
        let mut i: usize = 0;
        while i < cols
            invariant
                i <= cols,
                j < rows,
                has_shape(old@, old_rows as nat, old_cols as nat),
                old_rows <= rows,
                old_cols <= cols,
                m <= rows,
                n <= cols,
                terms.len() == n * m,
                zero@ == 0,
                row.len() == i,
                forall|ii: int|
                    0 <= ii < i ==> (#[trigger] row[ii])@ == if j < m && ii < n {
                        fadd(padded(old.deep_view(), j as int, ii), terms[j * n + ii]@)
                    } else {
                        padded(old.deep_view(), j as int, ii)
                    },
            decreases cols - i,
        {
            let before = if j < old_rows && i < old_cols {
                old[j][i]
            } else {
                zero
            };
            proof {
                if j < old_rows && i < old_cols {
                    assert(old.deep_view()[j as int][i as int] == old[j as int][i as int]@);
                }
                assert(before@ == padded(old.deep_view(), j as int, i as int));
            }
            let entry = if j < m && i < n {
                assert(j * n + i < n * m) by (nonlinear_arith)
                    requires
                        j < m,
                        i < n,
                ;
                before.add(&terms[j * n + i])
            } else {
                before
            };
            row.push(entry);
            i += 1;
        }
        out.push(row);
        j += 1;
    }
    proof {
        let want = grown(
            old.deep_view(),
            terms.deep_view(),
            rows as nat,
            cols as nat,
            n as nat,
            m as nat,
        );
        assert forall|jj: int| 0 <= jj < rows implies (#[trigger] out.deep_view()[jj])
            == want[jj] by {
            assert forall|i: int| 0 <= i < cols implies out.deep_view()[jj][i] == want[jj][i] by {
                assert(out.deep_view()[jj][i] == out[jj][i]@);
                if jj < m && i < n {
                    assert(0 <= jj * n + i < n * m) by (nonlinear_arith)
                        requires
                            0 <= jj < m,
                            0 <= i < n,
                    ;
                    assert(terms.deep_view()[jj * n + i] == terms[jj * n + i]@);
                }
            }
            assert(out.deep_view()[jj] =~= want[jj]);
        }
        assert(out.deep_view() =~= want);
    }
    out
}

/// The scalars of a sequence, each multiplied by `factor`.
fn scale(s: &Vec<Scalar>, factor: &Scalar) -> (r: Vec<Scalar>)
    ensures
        r.deep_view() == scaled(s.deep_view(), factor@),
{
    let mut out: Vec<Scalar> = Vec::new();
    let mut i: usize = 0;
    while i < s.len()
        invariant
            i <= s.len(),
            out.len() == i,
            forall|k: int| 0 <= k < i ==> (#[trigger] out[k])@ == fmul(s[k]@, factor@),
        decreases s.len() - i,
    {
        out.push(s[i].mul(factor));
        i += 1;
    }
    assert(out.deep_view() =~= scaled(s.deep_view(), factor@));
    out
}

/// The scalars of the generators `G` and `H` for one proof, scaled by the
/// batch factor.
fn generator_terms(
    ch: &Challenges,
    a: Scalar,
    b: Scalar,
    n: usize,
    m: usize,
    batch_factor: &Scalar,
    Ghost(rp): Ghost<Replay>,
    Ghost(pd): Ghost<RangeProofData>,
) -> (r: (Vec<Scalar>, Vec<Scalar>))
    requires
        ch.agrees(rp),
        a@ == pd.ipp.a,
        b@ == pd.ipp.b,
        n > 0,
        n * m <= usize::MAX,
        ch.s.len() == n * m,
    ensures
        r.0.len() == n * m,
        r.1.len() == n * m,
        r.0.deep_view() == g_terms(rp, pd, n as nat, m as nat, batch_factor@),
        r.1.deep_view() == h_terms(rp, pd, n as nat, m as nat, batch_factor@),
{
    let y = ch.y;
    let z = ch.z;
    let zz = z.mul(&z);
    let minus_z = z.neg();
    let nm = n * m;
    // the scalars of the generators
    let two = Scalar::from_u64(2);
    let exp_2 = powers(&two, n);
    let exp_z = powers(&z, m);
    let y_inv = y.invert();
    let exp_y_inv = powers(&y_inv, nm);
    assert(exp_2.len() == exp_2.deep_view().len());
    assert(exp_z.len() == exp_z.deep_view().len());
    assert(exp_y_inv.len() == exp_y_inv.deep_view().len());
    let mut g_out: Vec<Scalar> = Vec::new();
    let mut h_out: Vec<Scalar> = Vec::new();
    let mut k: usize = 0;
    let mut kj: usize = 0;
    let mut ki: usize = 0;
    while k < nm
        invariant
            k <= nm,
            nm == n * m,
            n > 0,
            k == kj * n + ki,
            ki < n,
            kj <= m,
            ch.agrees(rp),
            ch.s.len() == nm,
            exp_2.len() == n,
            exp_z.len() == m,
            exp_y_inv.len() == nm,
            exp_2.deep_view() == powers_of(2, n as nat),
            exp_z.deep_view() == powers_of(z@, m as nat),
            exp_y_inv.deep_view() == powers_of(y_inv@, nm as nat),
            y_inv@ == finv(rp.y),
            z@ == rp.z,
            zz@ == fmul(rp.z, rp.z),
            minus_z@ == fneg(rp.z),
            a@ == pd.ipp.a,
            b@ == pd.ipp.b,
                        g_out.len() == k,
            h_out.len() == k,
            forall|t: int|
                0 <= t < k ==> (#[trigger] g_out[t])@ == fmul(
                    g_coefficient(rp, pd, t),
                    batch_factor@,
                ),
            forall|t: int|
                0 <= t < k ==> (#[trigger] h_out[t])@ == fmul(
                    h_coefficient(rp, pd, n as nat, nm as nat, t),
                    batch_factor@,
                ),
        decreases nm - k,
    {
        proof {
            lemma_fundamental_div_mod_converse(k as int, n as int, kj as int, ki as int);
            assert(kj < m) by (nonlinear_arith)
                requires
                    kj * n + ki < n * m,
                    ki >= 0,
                    n > 0,
            ;
            assert(ch.s.deep_view()[k as int] == ch.s[k as int]@);
            assert(ch.s.deep_view()[nm - 1 - k] == ch.s[nm - 1 - k]@);
            assert(exp_2.deep_view()[ki as int] == exp_2[ki as int]@);
            assert(exp_z.deep_view()[kj as int] == exp_z[kj as int]@);
            assert(exp_y_inv.deep_view()[k as int] == exp_y_inv[k as int]@);
        }
        let g = minus_z.sub(&a.mul(&ch.s[k]));
        let z_and_2 = exp_2[ki].mul(&exp_z[kj]);
        let h = z.add(&exp_y_inv[k].mul(&zz.mul(&z_and_2).sub(&b.mul(&ch.s[nm - 1 - k]))));
        g_out.push(g.mul(batch_factor));
        h_out.push(h.mul(batch_factor));
        k += 1;
        ki += 1;
        if ki == n {
            ki = 0;
            kj += 1;
            assert((kj - 1) * n + n == kj * n) by (nonlinear_arith);
        }
    }

    proof {
        assert(g_out.deep_view() =~= g_terms(rp, pd, n as nat, m as nat, batch_factor@));
        assert(h_out.deep_view() =~= h_terms(rp, pd, n as nat, m as nat, batch_factor@));
    }
    (g_out, h_out)
}

/// The scalars of a proof's own points, scaled by the batch factor.
fn own_scalars(ch: &Challenges, m: usize, batch_factor: &Scalar, Ghost(rp): Ghost<Replay>) -> (r:
    Vec<Scalar>)
    requires
        ch.agrees(rp),
        rp.u_sq.len() == rp.u_inv_sq.len(),
    ensures
        r.deep_view() == scaled(proof_scalars(rp, m as nat), batch_factor@),
{
    let x = ch.x;
    let c = ch.c;
    let z = ch.z;
    let zz = z.mul(&z);
    let exp_z = powers(&z, m);
    assert(exp_z.len() == exp_z.deep_view().len());
    // the scalars of the proof's own points
    let mut base: Vec<Scalar> = Vec::new();
    base.push(Scalar::one());
    base.push(x);
    base.push(c.mul(&x));
    base.push(c.mul(&x).mul(&x));
    let mut t: usize = 0;
    assert(ch.u_sq.len() == ch.u_sq.deep_view().len());
    assert(ch.u_inv_sq.len() == ch.u_inv_sq.deep_view().len());
    let ghost want = proof_scalars(rp, m as nat);
    assert(ch.u_sq.deep_view() == rp.u_sq);
    assert(ch.u_inv_sq.deep_view() == rp.u_inv_sq);
    let lg = ch.u_sq.len();
    while t < lg
        invariant
            t <= lg,
            lg == ch.u_sq.len(),
            ch.u_sq.deep_view() == rp.u_sq,
            want == proof_scalars(rp, m as nat),
            base.len() == 4 + t,
            forall|q: int| 0 <= q < 4 + t ==> (#[trigger] base[q])@ == want[q],
        decreases lg - t,
    {
        proof {
            assert(ch.u_sq.deep_view()[t as int] == ch.u_sq[t as int]@);
        }
        base.push(ch.u_sq[t]);
        t += 1;
    }
    let mut t: usize = 0;
    while t < lg
        invariant
            t <= lg,
            lg == ch.u_sq.len(),
            lg == ch.u_inv_sq.len(),
            ch.u_sq.deep_view() == rp.u_sq,
            ch.u_inv_sq.deep_view() == rp.u_inv_sq,
            want == proof_scalars(rp, m as nat),
            base.len() == 4 + lg + t,
            forall|q: int| 0 <= q < 4 + lg + t ==> (#[trigger] base[q])@ == want[q],
        decreases lg - t,
    {
        proof {
            assert(ch.u_inv_sq.deep_view()[t as int] == ch.u_inv_sq[t as int]@);
        }
        base.push(ch.u_inv_sq[t]);
        t += 1;
    }
    let czz = c.mul(&zz);
    let mut t: usize = 0;
    while t < m
        invariant
            t <= m,
            lg == ch.u_sq.len(),
            lg == ch.u_inv_sq.len(),
            ch.u_sq.deep_view() == rp.u_sq,
            ch.u_inv_sq.deep_view() == rp.u_inv_sq,
            exp_z.len() == m,
            exp_z.deep_view() == powers_of(rp.z, m as nat),
            czz@ == fmul(rp.c, fmul(rp.z, rp.z)),
            want == proof_scalars(rp, m as nat),
            base.len() == 4 + lg + lg + t,
            forall|q: int| 0 <= q < 4 + lg + lg + t ==> (#[trigger] base[q])@ == want[q],
        decreases m - t,
    {
        proof {
            assert(exp_z.deep_view()[t as int] == exp_z[t as int]@);
        }
        base.push(czz.mul(&exp_z[t]));
        t += 1;
    }
    assert(base.deep_view() =~= want);
    scale(&base, batch_factor)

}

/// A proof's own points.
fn own_points<V: ValueCommitment>(proof: &RangeProof, value_commitments: &[V]) -> (r: Vec<
    Option<RistrettoElement>,
>)
    ensures
        r.deep_view() == proof_points(proof@, points_of(value_commitments@)),
{
    let ghost pd = proof@;
    let m = value_commitments.len();
    // the proof's own points
    let mut new_points: Vec<Option<RistrettoElement>> = Vec::new();
    new_points.push(proof.point_a().decompress());
    new_points.push(proof.point_s().decompress());
    new_points.push(proof.point_t_1().decompress());
    new_points.push(proof.point_t_2().decompress());
    let l_vec = proof.inner_proof().points_l();
    let r_vec = proof.inner_proof().points_r();
    assert(l_vec.len() == l_vec.deep_view().len());
    assert(r_vec.len() == r_vec.deep_view().len());
    let ghost want_points = proof_points(pd, points_of(value_commitments@));
    let mut t: usize = 0;
    while t < l_vec.len()
        invariant
            t <= l_vec.len(),
            l_vec.deep_view() == pd.ipp.l_vec,
            want_points == proof_points(pd, points_of(value_commitments@)),
            new_points.len() == 4 + t,
            forall|q: int|
                0 <= q < 4 + t ==> (#[trigger] new_points[q]).deep_view() == want_points[q],
        decreases l_vec.len() - t,
    {
        proof {
            assert(l_vec.deep_view()[t as int] == l_vec[t as int]@);
        }
        new_points.push(l_vec[t].decompress());
        t += 1;
    }
    let lgp = l_vec.len();
    let mut t: usize = 0;
    while t < r_vec.len()
        invariant
            t <= r_vec.len(),
            lgp == l_vec.len(),
            lgp == r_vec.len(),
            l_vec.deep_view() == pd.ipp.l_vec,
            r_vec.deep_view() == pd.ipp.r_vec,
            want_points == proof_points(pd, points_of(value_commitments@)),
            new_points.len() == 4 + lgp + t,
            forall|q: int|
                0 <= q < 4 + lgp + t ==> (#[trigger] new_points[q]).deep_view()
                    == want_points[q],
        decreases r_vec.len() - t,
    {
        proof {
            assert(r_vec.deep_view()[t as int] == r_vec[t as int]@);
        }
        new_points.push(r_vec[t].decompress());
        t += 1;
    }
    let mut t: usize = 0;
    while t < m
        invariant
            t <= m,
            m == value_commitments.len(),
            lgp == l_vec.len(),
            lgp == r_vec.len(),
            l_vec.deep_view() == pd.ipp.l_vec,
            r_vec.deep_view() == pd.ipp.r_vec,
            want_points == proof_points(pd, points_of(value_commitments@)),
            new_points.len() == 4 + lgp + lgp + t,
            forall|q: int|
                0 <= q < 4 + lgp + lgp + t ==> (#[trigger] new_points[q]).deep_view()
                    == want_points[q],
        decreases m - t,
    {
        new_points.push(value_commitments[t].decompress());
        t += 1;
    }
    assert(new_points.deep_view() =~= want_points);

    new_points
}

impl<'a> BatchCollector<'a> {
    /// What every collector that `new` made and `add_proof` changed holds.
    pub closed spec fn wf(&self) -> bool {
        &&& has_shape(self.g_scalars@, self.party_capacity as nat, self.gens_capacity as nat)
        &&& has_shape(self.h_scalars@, self.party_capacity as nat, self.gens_capacity as nat)
        &&& self.dynamic_scalars.len() == self.dynamic_points.len()
        &&& self.party_capacity <= self.bp_gens.party_capacity()
        &&& self.gens_capacity <= self.bp_gens.gens_capacity()
    }

    /// The generators that the proofs are verified against.
    pub closed spec fn bp_gens(&self) -> &BulletproofGens {
        self.bp_gens
    }

    /// The Pedersen generators that the proofs are verified against.
    pub closed spec fn pc_gens(&self) -> &PedersenGens {
        self.pc_gens
    }

    /// A collector without proofs.
    pub fn new(bp_gens: &'a BulletproofGens, pc_gens: &'a PedersenGens) -> (r: BatchCollector<'a>)
        ensures
            r.wf(),
            r@ == batch_empty(),
            r.bp_gens() == bp_gens,
            r.pc_gens() == pc_gens,
    {
        let r = BatchCollector {
            dynamic_scalars: Vec::new(),
            dynamic_points: Vec::new(),
            pedersen_B_scalar: Scalar::zero(),
            pedersen_B_blinding_scalar: Scalar::zero(),
            g_scalars: Vec::new(),
            h_scalars: Vec::new(),
            party_capacity: 0,
            gens_capacity: 0,
            bp_gens,
            pc_gens,
        };
        proof {
            assert(r@.dynamic_scalars =~= Seq::<nat>::empty());
            assert(r@.dynamic_points =~= Seq::<Option<Seq<u8>>>::empty());
            assert(r@.g_scalars =~= Seq::<Seq<nat>>::empty());
            assert(r@.h_scalars =~= Seq::<Seq<nat>>::empty());
        }
        r
    }

    /// Replays the proof's transcript and adds the terms of its
    /// verification equation, scaled by `batch_factor`. If the replay fails
    /// the collector stays as it was.
    pub fn add_proof_with_factor<V: ValueCommitment>(
        &mut self,
        view: RangeProofView<V>,
        batch_factor: Scalar,
    ) -> (r: Result<(), ProofError>)
        requires
            old(self).wf(),
        ensures
            final(self).wf(),
            final(self).bp_gens() == old(self).bp_gens(),
            final(self).pc_gens() == old(self).pc_gens(),
            match replay(
                transcript_log(*old(view.transcript)),
                view.proof@,
                encodings(view.value_commitments@),
                view.n as nat,
                old(self).bp_gens().gens_capacity() as nat,
                old(self).bp_gens().party_capacity() as nat,
            ) {
                Ok(rp) => r is Ok && final(self)@ == batch_add(
                    old(self)@,
                    rp,
                    view.proof@,
                    points_of(view.value_commitments@),
                    view.n as nat,
                    batch_factor@,
                ) && transcript_log(*final(view.transcript)) == rp.log,
                Err(e) => r == Err::<(), ProofError>(e) && final(self)@ == old(self)@,
            },
    {
        let n = view.n;
        let m = view.value_commitments.len();
        let proof = view.proof;
        let ch = match replay_transcript(
            proof,
            view.transcript,
            view.value_commitments,
            n,
            self.bp_gens,
        ) {
            Ok(ch) => ch,
            Err(e) => {
                return Err(e);
            },
        };
        let ghost rp = replay(
            transcript_log(*old(view.transcript)),
            view.proof@,
            encodings(view.value_commitments@),
            view.n as nat,
            old(self).bp_gens().gens_capacity() as nat,
            old(self).bp_gens().party_capacity() as nat,
        ).unwrap();
        proof {
            lemma_replay_shape(
                transcript_log(*old(view.transcript)),
                view.proof@,
                encodings(view.value_commitments@),
                view.n as nat,
                old(self).bp_gens().gens_capacity() as nat,
                old(self).bp_gens().party_capacity() as nat,
            );
        }
        self.accumulate(proof, view.value_commitments, n, &ch, &batch_factor, Ghost(rp));
        Ok(())
    }

    /// Adds the terms of the verification equation of a proof whose
    /// transcript was replayed, scaled by `batch_factor`.
    #[verifier::rlimit(50)]
    fn accumulate<V: ValueCommitment>(
        &mut self,
        proof: &RangeProof,
        value_commitments: &[V],
        n: usize,
        ch: &Challenges,
        batch_factor: &Scalar,
        Ghost(rp): Ghost<Replay>,
    )
        requires
            old(self).wf(),
            ch.agrees(rp),
            valid_bitsize(n as nat),
            n <= old(self).bp_gens().gens_capacity(),
            value_commitments.len() <= old(self).bp_gens().party_capacity(),
            rp.s.len() == n * value_commitments.len(),
            rp.u_sq.len() == proof@.ipp.l_vec.len(),
            rp.u_inv_sq.len() == proof@.ipp.l_vec.len(),
        ensures
            final(self).wf(),
            final(self).bp_gens() == old(self).bp_gens(),
            final(self).pc_gens() == old(self).pc_gens(),
            final(self)@ == batch_add(
                old(self)@,
                rp,
                proof@,
                points_of(value_commitments@),
                n as nat,
                batch_factor@,
            ),
    {
        let m = value_commitments.len();
        proof {
            reveal(batch_add);
        }
        let ghost before = self@;
        let ghost pd = proof@;
        let gens_capacity = self.bp_gens.gens_capacity();
        let party_capacity = self.bp_gens.party_capacity();
        assert(n * m <= usize::MAX) by (nonlinear_arith)
            requires
                n <= gens_capacity,
                m <= party_capacity,
                gens_capacity * party_capacity <= usize::MAX,
        ;
        let a = proof.inner_proof().scalar_a();
        let b = proof.inner_proof().scalar_b();
        assert(ch.s.len() == ch.s.deep_view().len());
        let gh = generator_terms(ch, a, b, n, m, batch_factor, Ghost(rp), Ghost(pd));
        let g_new = gh.0;
        let h_new = gh.1;
        let mut new_scalars = own_scalars(ch, m, batch_factor, Ghost(rp));
        let mut new_points = own_points(proof, value_commitments);
        let delta_term = delta(n, m, &ch.y, &ch.z);
        let t_x = proof.scalar_t_x();
        let basepoint = ch.w.mul(&t_x.sub(&a.mul(&b))).add(&ch.c.mul(&delta_term.sub(&t_x)));
        let blinding = proof.scalar_e_blinding().neg().sub(
            &ch.c.mul(&proof.scalar_t_x_blinding()),
        );
        assert(basepoint@ == basepoint_scalar(rp, pd, n as nat, m as nat));
        assert(blinding@ == blinding_scalar(rp, pd));
        let rows = if self.party_capacity >= m {
            self.party_capacity
        } else {
            m
        };
        let cols = if self.gens_capacity >= n {
            self.gens_capacity
        } else {
            n
        };
        let new_g = grow_matrix(
            &self.g_scalars,
            self.party_capacity,
            self.gens_capacity,
            rows,
            cols,
            &g_new,
            n,
            m,
        );
        let new_h = grow_matrix(
            &self.h_scalars,
            self.party_capacity,
            self.gens_capacity,
            rows,
            cols,
            &h_new,
            n,
            m,
        );
        let ghost ds_old = self.dynamic_scalars.deep_view();
        let ghost dp_old = self.dynamic_points.deep_view();
        let ghost ds_new = new_scalars.deep_view();
        let ghost dp_new = new_points.deep_view();
        let l_points = proof.inner_proof().points_l();
        assert(l_points.len() == l_points.deep_view().len());
        assert(pd.ipp.l_vec.len() == pd.ipp.r_vec.len());
        assert(new_scalars.len() == ds_new.len());
        assert(new_points.len() == dp_new.len());
        assert(proof_scalars(rp, m as nat).len() == 4 + rp.u_sq.len() + rp.u_inv_sq.len() + m);
        assert(proof_points(pd, points_of(value_commitments@)).len() == 4 + pd.ipp.l_vec.len()
            + pd.ipp.r_vec.len() + m);
        assert(ds_new.len() == dp_new.len());
        self.dynamic_scalars.append(&mut new_scalars);
        self.dynamic_points.append(&mut new_points);
        self.pedersen_B_blinding_scalar = self.pedersen_B_blinding_scalar.add(
            &blinding.mul(batch_factor),
        );
        self.pedersen_B_scalar = self.pedersen_B_scalar.add(&basepoint.mul(batch_factor));
        self.party_capacity = rows;
        self.gens_capacity = cols;
        self.g_scalars = new_g;
        self.h_scalars = new_h;
        proof {
            assert(self.dynamic_scalars.deep_view() =~= ds_old + ds_new);
            assert(self.dynamic_points.deep_view() =~= dp_old + dp_new);
        }
    }

    /// Replays the proof's transcript and adds the terms of its
    /// verification equation, scaled by a batch factor from the generator:
    /// the result is that of `add_proof_with_factor` for some factor.
    pub fn add_proof<V: ValueCommitment>(
        &mut self,
        view: RangeProofView<V>,
        rng: &mut ThreadRng,
    ) -> (r: Result<(), ProofError>)
        requires
            old(self).wf(),
        ensures
            final(self).wf(),
            final(self).bp_gens() == old(self).bp_gens(),
            final(self).pc_gens() == old(self).pc_gens(),
            match replay(
                transcript_log(*old(view.transcript)),
                view.proof@,
                encodings(view.value_commitments@),
                view.n as nat,
                old(self).bp_gens().gens_capacity() as nat,
                old(self).bp_gens().party_capacity() as nat,
            ) {
                Ok(rp) => r is Ok && transcript_log(*final(view.transcript)) == rp.log && exists|
                    factor: nat,
                |
                    final(self)@ == #[trigger] batch_add(
                        old(self)@,
                        rp,
                        view.proof@,
                        points_of(view.value_commitments@),
                        view.n as nat,
                        factor,
                    ),
                Err(e) => r == Err::<(), ProofError>(e) && final(self)@ == old(self)@,
            },
    {
        let batch_factor = Scalar::random(rng);
        self.add_proof_with_factor(view, batch_factor)
    }

    /// Decides the proofs that were added: none is refused if and only if
    /// every point is there and the one multiscalar product is the neutral
    /// element.
    pub fn verify(self) -> (r: Result<(), ProofError>)
        requires
            self.wf(),
        ensures
            r is Ok <==> batch_holds(self@, self.pc_gens().B@, self.pc_gens().B_blinding@),
            r is Err ==> r == Err::<(), ProofError>(ProofError::VerificationError),
    {
        proof {
            reveal(batch_holds);
        }
        let gc = self.gens_capacity;
        let pc = self.party_capacity;
        let bp_gc = self.bp_gens.gens_capacity();
        let bp_pc = self.bp_gens.party_capacity();
        assert(gc * pc <= usize::MAX) by (nonlinear_arith)
            requires
                gc <= bp_gc,
                pc <= bp_pc,
                bp_gc * bp_pc <= usize::MAX,
        ;
        let g = self.bp_gens.G(gc, pc);
        let h = self.bp_gens.H(gc, pc);
        assert(g.len() == g.deep_view().len());
        assert(h.len() == h.deep_view().len());
        let ghost b = self@;
        let ghost want_s = batch_scalars(b);
        let ghost want_p = batch_points(b, self.pc_gens.B@, self.pc_gens.B_blinding@);
        let mut scalars: Vec<Scalar> = Vec::new();
        let mut points: Vec<Option<RistrettoElement>> = Vec::new();
        let d = self.dynamic_scalars.len();
        let size = gc * pc;
        assert(pc * gc == gc * pc) by (nonlinear_arith);
        proof {
            assert(self.dynamic_scalars.deep_view().len() == d);
            assert(self.dynamic_points.deep_view().len() == d);
            assert(self.g_scalars.deep_view().len() == pc);
            assert(self.h_scalars.deep_view().len() == pc);
            assert(want_s.len() == d + size + size + 2);
            assert(want_p.len() == d + size + size + 2);
        }
        let mut t: usize = 0;
        while t < d
            invariant
                t <= d,
                d == self.dynamic_scalars.len(),
                d == self.dynamic_points.len(),
                b == self@,
                want_s == batch_scalars(b),
                want_p == batch_points(b, self.pc_gens.B@, self.pc_gens.B_blinding@),
                want_s.len() >= d,
                want_p.len() >= d,
                scalars.len() == t,
                points.len() == t,
                forall|q: int| 0 <= q < t ==> (#[trigger] scalars[q])@ == want_s[q],
                forall|q: int| 0 <= q < t ==> (#[trigger] points[q]).deep_view() == want_p[q],
            decreases d - t,
        {
            proof {
                assert(self.dynamic_scalars.deep_view()[t as int] == self.dynamic_scalars[t as int]@);
                assert(self.dynamic_points.deep_view()[t as int]
                    == self.dynamic_points[t as int].deep_view());
            }
            scalars.push(self.dynamic_scalars[t]);
            points.push(self.dynamic_points[t]);
            t += 1;
        }
        let mut k: usize = 0;
        let mut kj: usize = 0;
        let mut ki: usize = 0;
        while k < size
            invariant
                k <= size,
                size == gc * pc,
                size == pc * gc,
                gc > 0 || size == 0,
                k == kj * gc + ki,
                ki < gc || size == 0,
                kj <= pc,
                g.len() == size,
                d == self.dynamic_scalars.len(),
                gc == self.gens_capacity,
                pc == self.party_capacity,
                has_shape(self.g_scalars@, pc as nat, gc as nat),
                g.deep_view() == flat_generators(kind_g(), gc as nat, pc as nat),
                b == self@,
                want_s == batch_scalars(b),
                want_p == batch_points(b, self.pc_gens.B@, self.pc_gens.B_blinding@),
                want_s.len() == d + size + size + 2,
                want_p.len() == d + size + size + 2,
                b.dynamic_scalars.len() == d,
                b.dynamic_points.len() == d,
                scalars.len() == d + k,
                points.len() == d + k,
                forall|q: int| 0 <= q < d + k ==> (#[trigger] scalars[q])@ == want_s[q],
                forall|q: int| 0 <= q < d + k ==> (#[trigger] points[q]).deep_view() == want_p[q],
            decreases size - k,
        {
            proof {
                lemma_fundamental_div_mod_converse(k as int, gc as int, kj as int, ki as int);
                assert(kj < pc) by (nonlinear_arith)
                    requires
                        kj * gc + ki < gc * pc,
                        ki >= 0,
                        gc > 0,
                ;
                assert(self.g_scalars.deep_view()[kj as int][ki as int]
                    == self.g_scalars[kj as int][ki as int]@);
                assert(g.deep_view()[k as int] == g[k as int]@);
                assert(want_p[d + k] == Some(g[k as int]@));
                assert(Some(g[k as int]).deep_view() == Some(g[k as int]@));
                assert(want_s[d + k] == self.g_scalars[kj as int][ki as int]@);
            }
            scalars.push(self.g_scalars[kj][ki]);
            points.push(Some(g[k]));
            k += 1;
            ki += 1;
            if ki == gc {
                ki = 0;
                kj += 1;
                assert((kj - 1) * gc + gc == kj * gc) by (nonlinear_arith);
            }
        }
        let mut k: usize = 0;
        let mut kj: usize = 0;
        let mut ki: usize = 0;
        while k < size
            invariant
                k <= size,
                size == gc * pc,
                size == pc * gc,
                gc > 0 || size == 0,
                k == kj * gc + ki,
                ki < gc || size == 0,
                kj <= pc,
                h.len() == size,
                d == self.dynamic_scalars.len(),
                gc == self.gens_capacity,
                pc == self.party_capacity,
                has_shape(self.g_scalars@, pc as nat, gc as nat),
                has_shape(self.h_scalars@, pc as nat, gc as nat),
                h.deep_view() == flat_generators(kind_h(), gc as nat, pc as nat),
                b == self@,
                want_s == batch_scalars(b),
                want_p == batch_points(b, self.pc_gens.B@, self.pc_gens.B_blinding@),
                want_s.len() == d + size + size + 2,
                want_p.len() == d + size + size + 2,
                b.dynamic_scalars.len() == d,
                b.dynamic_points.len() == d,
                scalars.len() == d + size + k,
                points.len() == d + size + k,
                forall|q: int| 0 <= q < d + size + k ==> (#[trigger] scalars[q])@ == want_s[q],
                forall|q: int|
                    0 <= q < d + size + k ==> (#[trigger] points[q]).deep_view() == want_p[q],
            decreases size - k,
        {
            proof {
                lemma_fundamental_div_mod_converse(k as int, gc as int, kj as int, ki as int);
                assert(kj < pc) by (nonlinear_arith)
                    requires
                        kj * gc + ki < gc * pc,
                        ki >= 0,
                        gc > 0,
                ;
                assert(self.h_scalars.deep_view()[kj as int][ki as int]
                    == self.h_scalars[kj as int][ki as int]@);
                assert(h.deep_view()[k as int] == h[k as int]@);
                assert(want_p[d + size + k] == Some(h[k as int]@));
                assert(Some(h[k as int]).deep_view() == Some(h[k as int]@));
                assert(want_s[d + size + k] == self.h_scalars[kj as int][ki as int]@);
            }
            scalars.push(self.h_scalars[kj][ki]);
            points.push(Some(h[k]));
            k += 1;
            ki += 1;
            if ki == gc {
                ki = 0;
                kj += 1;
                assert((kj - 1) * gc + gc == kj * gc) by (nonlinear_arith);
            }
        }
        scalars.push(self.pedersen_B_blinding_scalar);
        scalars.push(self.pedersen_B_scalar);
        points.push(Some(self.pc_gens.B_blinding));
        points.push(Some(self.pc_gens.B));
        proof {
            assert(scalars.deep_view() =~= want_s);
            assert(points.deep_view() =~= want_p);
        }
        match point_optional_msm(scalars.as_slice(), points.as_slice()) {
            Some(check) => {
                if check.is_identity() {
                    Ok(())
                } else {
                    Err(ProofError::VerificationError)
                }
            },
            None => Err(ProofError::VerificationError),
        }
    }
}

/// What verifying one proof of a batch takes: the history of its
/// transcript, the proof, the encodings and the points of the commitments,
/// and the bitsize.
pub struct BatchItem {
    pub log: Seq<TranscriptEvent>,
    pub proof: RangeProofData,
    pub encodings: Seq<Seq<u8>>,
    pub points: Seq<Option<Seq<u8>>>,
    pub n: nat,
}

/// What verifying the proof of a view takes.
pub open spec fn item_of<V: ValueCommitment>(view: RangeProofView<V>) -> BatchItem {
    BatchItem {
        log: transcript_log(*view.transcript),
        proof: view.proof@,
        encodings: encodings(view.value_commitments@),
        points: points_of(view.value_commitments@),
        n: view.n as nat,
    }
}

/// What verifying the proofs of a sequence of views takes.
pub open spec fn items_of<V: ValueCommitment>(views: Seq<RangeProofView<V>>) -> Seq<BatchItem> {
    Seq::new(views.len(), |i: int| item_of(views[i]))
}

/// The terms collected from a batch of proofs, each with its own batch
/// factor, or the error of the first proof whose replay fails.
pub open spec fn batch_fold(
    items: Seq<BatchItem>,
    factors: Seq<nat>,
    gens_capacity: nat,
    party_capacity: nat,
) -> Result<BatchData, ProofError>
    decreases items.len(),
{
    if items.len() == 0 {
        Ok(batch_empty())
    } else {
        let last = items.last();
        match batch_fold(items.drop_last(), factors.drop_last(), gens_capacity, party_capacity) {
            Err(e) => Err(e),
            Ok(b) => match replay(
                last.log,
                last.proof,
                last.encodings,
                last.n,
                gens_capacity,
                party_capacity,
            ) {
                Err(e) => Err(e),
                Ok(rp) => Ok(batch_add(b, rp, last.proof, last.points, last.n, factors.last())),
            },
        }
    }
}

/// The verdict on a batch of proofs for given batch factors: the error of
/// the first proof whose replay fails; else `VerificationError` unless the
/// collected equation holds.
pub open spec fn batch_verdict(
    items: Seq<BatchItem>,
    factors: Seq<nat>,
    gens_capacity: nat,
    party_capacity: nat,
    pc_b: Seq<u8>,
    pc_b_blinding: Seq<u8>,
) -> Result<(), ProofError> {
    match batch_fold(items, factors, gens_capacity, party_capacity) {
        Err(e) => Err(e),
        Ok(b) => if batch_holds(b, pc_b, pc_b_blinding) {
            Ok(())
        } else {
            Err(ProofError::VerificationError)
        },
    }
}

/// The terms collected from the first `i + 1` proofs, by those collected
/// from the first `i`.
pub proof fn lemma_batch_fold_step(
    items: Seq<BatchItem>,
    factors: Seq<nat>,
    gens_capacity: nat,
    party_capacity: nat,
    i: int,
)
    requires
        0 <= i < items.len(),
        items.len() == factors.len(),
    ensures
        batch_fold(items.take(i + 1), factors.take(i + 1), gens_capacity, party_capacity) == (
        match batch_fold(items.take(i), factors.take(i), gens_capacity, party_capacity) {
            Err(e) => Err(e),
            Ok(b) => match replay(
                items[i].log,
                items[i].proof,
                items[i].encodings,
                items[i].n,
                gens_capacity,
                party_capacity,
            ) {
                Err(e) => Err(e),
                Ok(rp) => Ok(
                    batch_add(b, rp, items[i].proof, items[i].points, items[i].n, factors[i]),
                ),
            },
        }),
{
    assert(items.take(i + 1).drop_last() =~= items.take(i));
    assert(factors.take(i + 1).drop_last() =~= factors.take(i));
}

/// A batch of one proof is decided as the proof alone: by the replay of
/// its transcript and by its own verification equation, scaled by the
/// batch factor.
pub proof fn lemma_batch_of_one(
    item: BatchItem,
    factor: nat,
    gens_capacity: nat,
    party_capacity: nat,
    pc_b: Seq<u8>,
    pc_b_blinding: Seq<u8>,
)
    ensures
        batch_verdict(seq![item], seq![factor], gens_capacity, party_capacity, pc_b, pc_b_blinding)
            == (match replay(
            item.log,
            item.proof,
            item.encodings,
            item.n,
            gens_capacity,
            party_capacity,
        ) {
            Err(e) => Err(e),
            Ok(rp) => if batch_holds(
                batch_add(batch_empty(), rp, item.proof, item.points, item.n, factor),
                pc_b,
                pc_b_blinding,
            ) {
                Ok(())
            } else {
                Err(ProofError::VerificationError)
            },
        }),
{
    let items = seq![item];
    let factors = seq![factor];
    assert(items.drop_last() =~= Seq::<BatchItem>::empty());
    assert(factors.drop_last() =~= Seq::<nat>::empty());
    assert(items.last() == item);
    assert(factors.last() == factor);
    reveal_with_fuel(batch_fold, 2);
}

/// Once a part of a batch has failed, the batch fails in the same way.
pub proof fn lemma_batch_fold_fails(
    items: Seq<BatchItem>,
    factors: Seq<nat>,
    gens_capacity: nat,
    party_capacity: nat,
    i: int,
)
    requires
        0 <= i <= items.len(),
        items.len() == factors.len(),
        batch_fold(items.take(i), factors.take(i), gens_capacity, party_capacity) is Err,
    ensures
        batch_fold(items, factors, gens_capacity, party_capacity) == batch_fold(
            items.take(i),
            factors.take(i),
            gens_capacity,
            party_capacity,
        ),
    decreases items.len() - i,
{
    if i < items.len() {
        assert(items.take(i + 1).drop_last() =~= items.take(i));
        assert(factors.take(i + 1).drop_last() =~= factors.take(i));
        lemma_batch_fold_fails(items, factors, gens_capacity, party_capacity, i + 1);
    } else {
        assert(items.take(i) =~= items);
        assert(factors.take(i) =~= factors);
    }
}

impl RangeProof {
    /// Verifies an aggregated proof for the commitments given, with the
    /// batch factor given.
    pub fn verify_multiple_with_factor<V: ValueCommitment>(
        &self,
        bp_gens: &BulletproofGens,
        pc_gens: &PedersenGens,
        transcript: &mut Transcript,
        value_commitments: &[V],
        n: usize,
        batch_factor: Scalar,
    ) -> (r: Result<(), ProofError>)
        ensures
            match replay(
                transcript_log(*old(transcript)),
                self@,
                encodings(value_commitments@),
                n as nat,
                bp_gens.gens_capacity() as nat,
                bp_gens.party_capacity() as nat,
            ) {
                Ok(rp) => transcript_log(*final(transcript)) == rp.log && (r is Ok <==> batch_holds(
                    batch_add(
                        batch_empty(),
                        rp,
                        self@,
                        points_of(value_commitments@),
                        n as nat,
                        batch_factor@,
                    ),
                    pc_gens.B@,
                    pc_gens.B_blinding@,
                )) && (r is Err ==> r == Err::<(), ProofError>(ProofError::VerificationError)),
                Err(e) => r == Err::<(), ProofError>(e),
            },
    {
        let mut collector = BatchCollector::new(bp_gens, pc_gens);
        let view = self.verification_view(transcript, value_commitments, n);
        match collector.add_proof_with_factor(view, batch_factor) {
            Ok(_) => {},
            Err(e) => {
                return Err(e);
            },
        }
        collector.verify()
    }

    /// Verifies an aggregated proof for the commitments given, with a batch
    /// factor from the generator: the result is that of
    /// `verify_multiple_with_factor` for some factor.
    pub fn verify_multiple_with_rng<V: ValueCommitment>(
        &self,
        bp_gens: &BulletproofGens,
        pc_gens: &PedersenGens,
        transcript: &mut Transcript,
        value_commitments: &[V],
        n: usize,
        rng: &mut ThreadRng,
    ) -> (r: Result<(), ProofError>)
        ensures
            match replay(
                transcript_log(*old(transcript)),
                self@,
                encodings(value_commitments@),
                n as nat,
                bp_gens.gens_capacity() as nat,
                bp_gens.party_capacity() as nat,
            ) {
                Ok(rp) => transcript_log(*final(transcript)) == rp.log && (r is Err ==> r == Err::<
                    (),
                    ProofError,
                >(ProofError::VerificationError)) && exists|factor: nat|
                    (r is Ok <==> batch_holds(
                        #[trigger] batch_add(
                            batch_empty(),
                            rp,
                            self@,
                            points_of(value_commitments@),
                            n as nat,
                            factor,
                        ),
                        pc_gens.B@,
                        pc_gens.B_blinding@,
                    )),
                Err(e) => r == Err::<(), ProofError>(e),
            },
    {
        let batch_factor = Scalar::random(rng);
        self.verify_multiple_with_factor(
            bp_gens,
            pc_gens,
            transcript,
            value_commitments,
            n,
            batch_factor,
        )
    }

    /// Verifies an aggregated proof for the commitments given, with a batch
    /// factor from the thread's generator.
    pub fn verify_multiple<V: ValueCommitment>(
        &self,
        bp_gens: &BulletproofGens,
        pc_gens: &PedersenGens,
        transcript: &mut Transcript,
        value_commitments: &[V],
        n: usize,
    ) -> (r: Result<(), ProofError>)
        ensures
            match replay(
                transcript_log(*old(transcript)),
                self@,
                encodings(value_commitments@),
                n as nat,
                bp_gens.gens_capacity() as nat,
                bp_gens.party_capacity() as nat,
            ) {
                Ok(rp) => transcript_log(*final(transcript)) == rp.log && (r is Err ==> r == Err::<
                    (),
                    ProofError,
                >(ProofError::VerificationError)) && exists|factor: nat|
                    (r is Ok <==> batch_holds(
                        #[trigger] batch_add(
                            batch_empty(),
                            rp,
                            self@,
                            points_of(value_commitments@),
                            n as nat,
                            factor,
                        ),
                        pc_gens.B@,
                        pc_gens.B_blinding@,
                    )),
                Err(e) => r == Err::<(), ProofError>(e),
            },
    {
        let mut rng = thread_rng();
        self.verify_multiple_with_rng(bp_gens, pc_gens, transcript, value_commitments, n, &mut rng)
    }

    /// Verifies a proof for one commitment, with a batch factor from the
    /// generator: `verify_multiple_with_rng` for the commitment alone.
    pub fn verify_single_with_rng<V: ValueCommitment + Copy>(
        &self,
        bp_gens: &BulletproofGens,
        pc_gens: &PedersenGens,
        transcript: &mut Transcript,
        V: &V,
        n: usize,
        rng: &mut ThreadRng,
    ) -> (r: Result<(), ProofError>)
        ensures
            match replay(
                transcript_log(*old(transcript)),
                self@,
                encodings(seq![*V]),
                n as nat,
                bp_gens.gens_capacity() as nat,
                bp_gens.party_capacity() as nat,
            ) {
                Ok(rp) => transcript_log(*final(transcript)) == rp.log && (r is Err ==> r == Err::<
                    (),
                    ProofError,
                >(ProofError::VerificationError)) && exists|factor: nat|
                    (r is Ok <==> batch_holds(
                        #[trigger] batch_add(
                            batch_empty(),
                            rp,
                            self@,
                            points_of(seq![*V]),
                            n as nat,
                            factor,
                        ),
                        pc_gens.B@,
                        pc_gens.B_blinding@,
                    )),
                Err(e) => r == Err::<(), ProofError>(e),
            },
    {
        let commitments = [*V];
        let slice = commitments.as_slice();
        assert(slice@ =~= seq![*V]);
        self.verify_multiple_with_rng(bp_gens, pc_gens, transcript, slice, n, rng)
    }

    /// Verifies a proof for one commitment, with a batch factor from the
    /// thread's generator.
    pub fn verify_single<V: ValueCommitment + Copy>(
        &self,
        bp_gens: &BulletproofGens,
        pc_gens: &PedersenGens,
        transcript: &mut Transcript,
        V: &V,
        n: usize,
    ) -> (r: Result<(), ProofError>)
        ensures
            match replay(
                transcript_log(*old(transcript)),
                self@,
                encodings(seq![*V]),
                n as nat,
                bp_gens.gens_capacity() as nat,
                bp_gens.party_capacity() as nat,
            ) {
                Ok(rp) => transcript_log(*final(transcript)) == rp.log && (r is Err ==> r == Err::<
                    (),
                    ProofError,
                >(ProofError::VerificationError)) && exists|factor: nat|
                    (r is Ok <==> batch_holds(
                        #[trigger] batch_add(
                            batch_empty(),
                            rp,
                            self@,
                            points_of(seq![*V]),
                            n as nat,
                            factor,
                        ),
                        pc_gens.B@,
                        pc_gens.B_blinding@,
                    )),
                Err(e) => r == Err::<(), ProofError>(e),
            },
    {
        let mut rng = thread_rng();
        self.verify_single_with_rng(bp_gens, pc_gens, transcript, V, n, &mut rng)
    }

    /// Verifies a batch of proofs with one multiscalar product, proof `i`
    /// scaled by batch factor `i`.
    #[verifier::rlimit(50)]
    pub fn verify_batch_with_factors<'a, V: ValueCommitment>(
        batch: Vec<RangeProofView<'a, V>>,
        bp_gens: &BulletproofGens,
        pc_gens: &PedersenGens,
        factors: &[Scalar],
    ) -> (r: Result<(), ProofError>)
        requires
            factors.len() == batch.len(),
        ensures
            r == batch_verdict(
                items_of(batch@),
                factors.deep_view(),
                bp_gens.gens_capacity() as nat,
                bp_gens.party_capacity() as nat,
                pc_gens.B@,
                pc_gens.B_blinding@,
            ),
    {
        let mut collector = BatchCollector::new(bp_gens, pc_gens);
        let mut rest = batch;
        let ghost items = items_of(batch@);
        let ghost fs = factors.deep_view();
        let ghost gc = bp_gens.gens_capacity() as nat;
        let ghost pc = bp_gens.party_capacity() as nat;
        let total = factors.len();
        let mut i: usize = 0;
        assert(items.take(0) =~= Seq::<BatchItem>::empty());
        while i < total
            invariant
                i <= total,
                total == factors.len(),
                total == batch.len(),
                items == items_of(batch@),
                fs == factors.deep_view(),
                gc == bp_gens.gens_capacity() as nat,
                pc == bp_gens.party_capacity() as nat,
                rest@ == batch@.subrange(i as int, total as int),
                collector.wf(),
                collector.bp_gens() == bp_gens,
                collector.pc_gens() == pc_gens,
                batch_fold(items.take(i as int), fs.take(i as int), gc, pc) == Ok::<
                    BatchData,
                    ProofError,
                >(collector@),
            decreases total - i,
        {
            let view = rest.remove(0);
            proof {
                assert(view == batch@[i as int]);
                assert(items[i as int] == item_of(view));
                assert(fs[i as int] == factors[i as int]@);
                assert(rest@ =~= batch@.subrange(i + 1, total as int));
                lemma_batch_fold_step(items, fs, gc, pc, i as int);
            }
            match collector.add_proof_with_factor(view, factors[i]) {
                Ok(_) => {},
                Err(e) => {
                    proof {
                        lemma_batch_fold_fails(items, fs, gc, pc, i + 1);
                    }
                    return Err(e);
                },
            }
            i += 1;
        }
        proof {
            assert(items.take(total as int) =~= items);
            assert(fs.take(total as int) =~= fs);
        }
        let ghost collected = collector@;
        let r = collector.verify();
        proof {
            assert(batch_fold(items, fs, gc, pc) == Ok::<BatchData, ProofError>(collected));
            if r is Ok {
                assert(r->Ok_0 == ());
            }
            reveal(batch_holds);
        }
        r
    }

    /// Verifies a batch of proofs with one multiscalar product, with batch
    /// factors from the generator: the result is that of
    /// `verify_batch_with_factors` for some factors.
    pub fn verify_batch_with_rng<'a, V: ValueCommitment>(
        batch: Vec<RangeProofView<'a, V>>,
        bp_gens: &BulletproofGens,
        pc_gens: &PedersenGens,
        rng: &mut ThreadRng,
    ) -> (r: Result<(), ProofError>)
        ensures
            exists|factors: Seq<nat>|
                factors.len() == batch.len() && r == #[trigger] batch_verdict(
                    items_of(batch@),
                    factors,
                    bp_gens.gens_capacity() as nat,
                    bp_gens.party_capacity() as nat,
                    pc_gens.B@,
                    pc_gens.B_blinding@,
                ),
    {
        let factors = Scalar::random_vec(rng, batch.len());
        assert(factors.len() == factors.deep_view().len());
        Self::verify_batch_with_factors(batch, bp_gens, pc_gens, factors.as_slice())
    }

    /// Verifies a batch of proofs with one multiscalar product, with batch
    /// factors from the thread's generator.
    pub fn verify_batch<'a, V: ValueCommitment>(
        batch: Vec<RangeProofView<'a, V>>,
        bp_gens: &BulletproofGens,
        pc_gens: &PedersenGens,
    ) -> (r: Result<(), ProofError>)
        ensures
            exists|factors: Seq<nat>|
                factors.len() == batch.len() && r == #[trigger] batch_verdict(
                    items_of(batch@),
                    factors,
                    bp_gens.gens_capacity() as nat,
                    bp_gens.party_capacity() as nat,
                    pc_gens.B@,
                    pc_gens.B_blinding@,
                ),
    {
        let mut rng = thread_rng();
        Self::verify_batch_with_rng(batch, bp_gens, pc_gens, &mut rng)
    }
}

} // verus!
