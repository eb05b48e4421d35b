//! A party of the multi-party protocol: it holds one secret value and
//! walks through the rounds, each step consuming the state before it.

#![allow(non_snake_case)]

use crate::errors::MPCError;
use crate::generators::commitment;
use crate::generators::kind_g;
use crate::generators::kind_h;
use crate::generators::share_generators;
use crate::generators::BulletproofGens;
use crate::generators::PedersenGens;
use crate::range_proof::messages::BitChallenge;
use crate::range_proof::messages::BitCommitment;
use crate::range_proof::messages::BitCommitmentData;
use crate::range_proof::messages::PolyChallenge;
use crate::range_proof::messages::PolyCommitment;
use crate::range_proof::messages::PolyCommitmentData;
use crate::range_proof::messages::ProofShare;
use crate::range_proof::messages::ProofShareData;
use crate::generators::generator;
use crate::ristretto::msm;
use crate::ristretto::ristretto_negation;
use crate::ristretto::ristretto_product;
use crate::ristretto::sum_from;
use crate::ristretto::point_msm;
use crate::ristretto::RistrettoElement;
use crate::scalar::fadd;
use crate::scalar::fmul;
use crate::scalar::fsub;
use crate::scalar::group_order;
use crate::scalar::thread_rng;
use crate::scalar::wipe_scalars;
use crate::scalar::Scalar;
use crate::util::fpow;
use crate::util::inner_product_value;
use crate::util::lemma_fpow_step;
use crate::util::lemma_fpow_zero;
use crate::util::scalar_exp_product;
use crate::util::scalar_exp_vartime;
use crate::util::two_pow;
use crate::util::Poly2;
use crate::util::VecPoly1;
use rand::rngs::ThreadRng;
use vstd::arithmetic::div_mod::lemma_div_denominator;
use vstd::arithmetic::div_mod::lemma_mod_twice;
use vstd::arithmetic::power::pow;
use vstd::prelude::*;

verus! {

/// Whether a range of `n` bits can be proved.
pub open spec fn valid_bitsize(n: nat) -> bool {
    n == 8 || n == 16 || n == 32 || n == 64
}

/// Bit `i` of `v`.
pub open spec fn bit_of(v: nat, i: nat) -> nat {
    (v / two_pow(i)) % 2
}

/// For each of the low `n` bits of `v`, the point that the bit adds to the
/// commitment of party `j`: the party's generator `G` of the bit if the bit
/// is set, else the inverse of its generator `H`.
pub open spec fn bit_points(v: nat, n: nat, j: nat) -> Seq<Seq<u8>> {
    Seq::new(
        n,
        |i: int|
            if bit_of(v, i as nat) == 1 {
                generator(kind_g(), j, i as nat)
            } else {
                ristretto_negation(generator(kind_h(), j, i as nat))
            },
    )
}

/// What a party knows before it has a position.
pub struct PartySetup {
    pub b: Seq<u8>,
    pub b_blinding: Seq<u8>,
    pub party_capacity: nat,
    pub n: nat,
    pub v: nat,
    pub v_blinding: nat,
}

/// What a party knows once it has committed to its bits.
pub struct PartyBits {
    pub b: Seq<u8>,
    pub b_blinding: Seq<u8>,
    pub n: nat,
    pub v: nat,
    pub v_blinding: nat,
    pub j: nat,
    pub a_blinding: nat,
    pub s_blinding: nat,
    pub s_l: Seq<nat>,
    pub s_r: Seq<nat>,
}

/// What a party knows once it has committed to its polynomial.
pub struct PartyPolys {
    pub offset_zz: nat,
    pub l0: Seq<nat>,
    pub l1: Seq<nat>,
    pub r0: Seq<nat>,
    pub r1: Seq<nat>,
    pub t0: nat,
    pub t1: nat,
    pub t2: nat,
    pub v_blinding: nat,
    pub a_blinding: nat,
    pub s_blinding: nat,
    pub t_1_blinding: nat,
    pub t_2_blinding: nat,
}

/// A new party, or the reason why there is none: the bitsize is checked
/// first, then the number of generators.
pub open spec fn party_new(
    b: Seq<u8>,
    b_blinding: Seq<u8>,
    gens_capacity: nat,
    party_capacity: nat,
    v: nat,
    v_blinding: nat,
    n: nat,
) -> Result<PartySetup, MPCError> {
    if !valid_bitsize(n) {
        Err(MPCError::InvalidBitsize)
    } else if gens_capacity < n {
        Err(MPCError::InvalidGeneratorsLength)
    } else {
        Ok(PartySetup { b, b_blinding, party_capacity, n, v, v_blinding })
    }
}

/// The points that a party's bit commitments are taken over: the blinding
/// generator, then the party's `G` and its `H`.
pub open spec fn share_points(b_blinding: Seq<u8>, j: nat, n: nat) -> Seq<Seq<u8>> {
    seq![b_blinding] + share_generators(kind_g(), j, n) + share_generators(kind_h(), j, n)
}

/// The party at position `j` and its bit commitment, for the blinding
/// scalars given:
/// `V = v B + v_blinding B_blinding`,
/// `A = a_blinding B_blinding + <a_L, G_j> + <a_R, H_j>` with `a_L` the bits
/// of `v` and `a_R = a_L - 1`, which adds `G_j` of a bit that is set and
/// takes `H_j` of a bit that is not,
/// `S = s_blinding B_blinding + <s_L, G_j> + <s_R, H_j>`.
/// No party if the generators do not cover position `j`.
pub open spec fn party_assign_position(
    p: PartySetup,
    j: nat,
    a_blinding: nat,
    s_blinding: nat,
    s_l: Seq<nat>,
    s_r: Seq<nat>,
) -> Result<(PartyBits, BitCommitmentData), MPCError> {
    if p.party_capacity <= j {
        Err(MPCError::InvalidGeneratorsLength)
    } else {
        Ok(
            (
                PartyBits {
                    b: p.b,
                    b_blinding: p.b_blinding,
                    n: p.n,
                    v: p.v,
                    v_blinding: p.v_blinding,
                    j,
                    a_blinding,
                    s_blinding,
                    s_l,
                    s_r,
                },
                BitCommitmentData {
                    v_j: commitment(p.b, p.b_blinding, p.v, p.v_blinding),
                    a_j: sum_from(
                        ristretto_product(a_blinding, p.b_blinding),
                        bit_points(p.v, p.n, j),
                    ),
                    s_j: msm(seq![s_blinding] + s_l + s_r, share_points(p.b_blinding, j, p.n)),
                },
            ),
        )
    }
}

/// The party after the challenges `y`, `z` and its polynomial commitment,
/// for the blinding scalars given. With `a_L` the bits of the value and
/// `a_R = a_L - 1`, the polynomials are
/// `l(X) = (a_L - z) + s_L X` and
/// `r(X) = y^(jn+i) (a_R + z + s_R X) + z^2 z^j 2^i`, entry by entry;
/// `t(X) = <l(X), r(X)>` has the coefficients `t0`, `t1`, `t2`, and
/// `T_1 = t1 B + t_1_blinding B_blinding`, `T_2` likewise.
#[verifier::opaque]
pub open spec fn party_apply_bit_challenge(
    p: PartyBits,
    y: nat,
    z: nat,
    t_1_blinding: nat,
    t_2_blinding: nat,
) -> (PartyPolys, PolyCommitmentData) {
    let offset_zz = fmul(fmul(z, z), fpow(z, p.j));
    let l0 = Seq::new(p.n, |i: int| fsub(bit_of(p.v, i as nat), z));
    let l1 = p.s_l;
    let r0 = Seq::new(
        p.n,
        |i: int|
            fadd(
                fmul(fpow(y, p.j * p.n + i as nat), fadd(fsub(bit_of(p.v, i as nat), 1), z)),
                fmul(offset_zz, fpow(2, i as nat)),
            ),
    );
    let r1 = Seq::new(p.n, |i: int| fmul(fpow(y, p.j * p.n + i as nat), p.s_r[i]));
    let t0 = inner_product_value(l0, r0);
    let t1 = fadd(inner_product_value(l0, r1), inner_product_value(l1, r0));
    let t2 = inner_product_value(l1, r1);
    (
        PartyPolys {
            offset_zz,
            l0,
            l1,
            r0,
            r1,
            t0,
            t1,
            t2,
            v_blinding: p.v_blinding,
            a_blinding: p.a_blinding,
            s_blinding: p.s_blinding,
            t_1_blinding,
            t_2_blinding,
        },
        PolyCommitmentData {
            t_1_j: commitment(p.b, p.b_blinding, t1, t_1_blinding),
            t_2_j: commitment(p.b, p.b_blinding, t2, t_2_blinding),
        },
    )
}

/// The party's share for the challenge `x`: the polynomials and their
/// blindings, evaluated at `x`. A party refuses the challenge zero, which
/// would lay its secrets open.
pub open spec fn party_apply_poly_challenge(p: PartyPolys, x: nat) -> Result<
    ProofShareData,
    MPCError,
> {
    if x == 0 {
        Err(MPCError::MaliciousDealer)
    } else {
        Ok(
            ProofShareData {
                t_x: Poly2::eval_value(p.t0, p.t1, p.t2, x),
                t_x_blinding: Poly2::eval_value(
                    fmul(p.offset_zz, p.v_blinding),
                    p.t_1_blinding,
                    p.t_2_blinding,
                    x,
                ),
                e_blinding: fadd(p.a_blinding, fmul(p.s_blinding, x)),
                l_vec: VecPoly1::eval_value(p.l0, p.l1, x),
                r_vec: VecPoly1::eval_value(p.r0, p.r1, x),
            },
        )
    }
}

/// Whatever a party holds, it refuses the challenge zero.
pub proof fn lemma_zero_challenge_is_refused(p: PartyPolys)
    ensures
        party_apply_poly_challenge(p, 0) == Err::<ProofShareData, MPCError>(
            MPCError::MaliciousDealer,
        ),
{
}

/// The entry point of the party's side of the protocol.
pub struct Party {}

/// A party that waits for its position.
pub struct PartyAwaitingPosition<'a> {
    bp_gens: &'a BulletproofGens,
    pc_gens: &'a PedersenGens,
    n: usize,
    v: u64,
    v_blinding: Scalar,
}

/// A party that waits for the challenges on its bit commitment.
pub struct PartyAwaitingBitChallenge<'a> {
    n: usize,
    v: u64,
    v_blinding: Scalar,
    j: usize,
    pc_gens: &'a PedersenGens,
    a_blinding: Scalar,
    s_blinding: Scalar,
    s_L: Vec<Scalar>,
    s_R: Vec<Scalar>,
}

/// A party that waits for the challenge on its polynomial commitment.
pub struct PartyAwaitingPolyChallenge {
    offset_zz: Scalar,
    l_poly: VecPoly1,
    r_poly: VecPoly1,
    t_poly: Poly2,
    v_blinding: Scalar,
    a_blinding: Scalar,
    s_blinding: Scalar,
    t_1_blinding: Scalar,
    t_2_blinding: Scalar,
}

impl<'a> View for PartyAwaitingPosition<'a> {
    type V = PartySetup;

    closed spec fn view(&self) -> PartySetup {
        PartySetup {
            b: self.pc_gens.B@,
            b_blinding: self.pc_gens.B_blinding@,
            party_capacity: self.bp_gens.party_capacity() as nat,
            n: self.n as nat,
            v: self.v as nat,
            v_blinding: self.v_blinding@,
        }
    }
}

impl<'a> View for PartyAwaitingBitChallenge<'a> {
    type V = PartyBits;

    closed spec fn view(&self) -> PartyBits {
        PartyBits {
            b: self.pc_gens.B@,
            b_blinding: self.pc_gens.B_blinding@,
            n: self.n as nat,
            v: self.v as nat,
            v_blinding: self.v_blinding@,
            j: self.j as nat,
            a_blinding: self.a_blinding@,
            s_blinding: self.s_blinding@,
            s_l: self.s_L.deep_view(),
            s_r: self.s_R.deep_view(),
        }
    }
}

impl View for PartyAwaitingPolyChallenge {
    type V = PartyPolys;

    closed spec fn view(&self) -> PartyPolys {
        PartyPolys {
            offset_zz: self.offset_zz@,
            l0: self.l_poly.0.deep_view(),
            l1: self.l_poly.1.deep_view(),
            r0: self.r_poly.0.deep_view(),
            r1: self.r_poly.1.deep_view(),
            t0: self.t_poly.0@,
            t1: self.t_poly.1@,
            t2: self.t_poly.2@,
            v_blinding: self.v_blinding@,
            a_blinding: self.a_blinding@,
            s_blinding: self.s_blinding@,
            t_1_blinding: self.t_1_blinding@,
            t_2_blinding: self.t_2_blinding@,
        }
    }
}

/// The views of a state and a message that came out of a step, if the step
/// succeeded.
pub open spec fn position_outcome(
    r: Result<(PartyAwaitingBitChallenge<'_>, BitCommitment), MPCError>,
) -> Result<(PartyBits, BitCommitmentData), MPCError> {
    match r {
        Ok((state, message)) => Ok((state@, message@)),
        Err(e) => Err(e),
    }
}

/// The view of a share that came out of the last step, if the step
/// succeeded.
pub open spec fn share_outcome(r: Result<ProofShare, MPCError>) -> Result<
    ProofShareData,
    MPCError,
> {
    match r {
        Ok(share) => Ok(share@),
        Err(e) => Err(e),
    }
}

/// The view of a party that was made, if one was made.
pub open spec fn setup_outcome(r: Result<PartyAwaitingPosition<'_>, MPCError>) -> Result<
    PartySetup,
    MPCError,
> {
    match r {
        Ok(state) => Ok(state@),
        Err(e) => Err(e),
    }
}

impl Party {
    /// A party that is to prove that `v` is in the range of `n` bits, with
    /// `v_blinding` blinding the commitment to `v`.
    pub fn new<'a>(
        bp_gens: &'a BulletproofGens,
        pc_gens: &'a PedersenGens,
        v: u64,
        v_blinding: Scalar,
        n: usize,
    ) -> (r: Result<PartyAwaitingPosition<'a>, MPCError>)
        ensures
            setup_outcome(r) == party_new(
                pc_gens.B@,
                pc_gens.B_blinding@,
                bp_gens.gens_capacity() as nat,
                bp_gens.party_capacity() as nat,
                v as nat,
                v_blinding@,
                n as nat,
            ),
    {
        if !(n == 8 || n == 16 || n == 32 || n == 64) {
            return Err(MPCError::InvalidBitsize);
        }
        if bp_gens.gens_capacity() < n {
            return Err(MPCError::InvalidGeneratorsLength);
        }
        Ok(PartyAwaitingPosition { bp_gens, pc_gens, n, v, v_blinding })
    }
}

/// One scalar, then two vectors of scalars, in a row.
fn join_scalars(first: Scalar, x: &Vec<Scalar>, y: &Vec<Scalar>) -> (r: Vec<Scalar>)
    ensures
        r.deep_view() == seq![first@] + x.deep_view() + y.deep_view(),
{
    let mut out: Vec<Scalar> = Vec::new();
    out.push(first);
    let mut i: usize = 0;
    while i < x.len()
        invariant
            i <= x.len(),
            out.len() == 1 + i,
            out[0]@ == first@,
            forall|k: int| 0 <= k < i ==> (#[trigger] out[1 + k])@ == x[k]@,
        decreases x.len() - i,
    {
        out.push(x[i]);
        i += 1;
    }
    let mut j: usize = 0;
    while j < y.len()
        invariant
            j <= y.len(),
            out.len() == 1 + x.len() + j,
            out[0]@ == first@,
            forall|k: int| 0 <= k < x.len() ==> (#[trigger] out[1 + k])@ == x[k]@,
            forall|k: int| 0 <= k < j ==> (#[trigger] out[1 + x.len() + k])@ == y[k]@,
        decreases y.len() - j,
    {
        out.push(y[j]);
        j += 1;
    }
    proof {
        let want = seq![first@] + x.deep_view() + y.deep_view();
        assert(out.len() == want.len());
        assert forall|k: int| 0 <= k < out.len() implies out.deep_view()[k] == want[k] by {
            if k == 0 {
            } else if k < 1 + x.len() {
                assert(out[1 + (k - 1)]@ == x[k - 1]@);
            } else {
                assert(out[1 + x.len() + (k - 1 - x.len())]@ == y[k - 1 - x.len()]@);
            }
        }
        assert(out.deep_view() =~= want);
    }
    out
}

/// One point, then two vectors of points, in a row.
fn join_points(first: RistrettoElement, x: &Vec<RistrettoElement>, y: &Vec<RistrettoElement>) -> (r: Vec<
    RistrettoElement,
>)
    ensures
        r.deep_view() == seq![first@] + x.deep_view() + y.deep_view(),
{
    let mut out: Vec<RistrettoElement> = Vec::new();
    out.push(first);
    let mut i: usize = 0;
    while i < x.len()
        invariant
            i <= x.len(),
            out.len() == 1 + i,
            out[0]@ == first@,
            forall|k: int| 0 <= k < i ==> (#[trigger] out[1 + k])@ == x[k]@,
        decreases x.len() - i,
    {
        out.push(x[i]);
        i += 1;
    }
    let mut j: usize = 0;
    while j < y.len()
        invariant
            j <= y.len(),
            out.len() == 1 + x.len() + j,
            out[0]@ == first@,
            forall|k: int| 0 <= k < x.len() ==> (#[trigger] out[1 + k])@ == x[k]@,
            forall|k: int| 0 <= k < j ==> (#[trigger] out[1 + x.len() + k])@ == y[k]@,
        decreases y.len() - j,
    {
        out.push(y[j]);
        j += 1;
    }
    proof {
        let want = seq![first@] + x.deep_view() + y.deep_view();
        assert(out.len() == want.len());
        assert forall|k: int| 0 <= k < out.len() implies out.deep_view()[k] == want[k] by {
            if k == 0 {
            } else if k < 1 + x.len() {
                assert(out[1 + (k - 1)]@ == x[k - 1]@);
            } else {
                assert(out[1 + x.len() + (k - 1 - x.len())]@ == y[k - 1 - x.len()]@);
            }
        }
        assert(out.deep_view() =~= want);
    }
    out
}

impl<'a> PartyAwaitingPosition<'a> {
    #[verifier::type_invariant]
    spec fn wf(self) -> bool {
        &&& valid_bitsize(self.n as nat)
        &&& self.n <= self.bp_gens.gens_capacity()
    }

    /// Overwrites the value and its blinding with zero, for a party that is
    /// given up.
    pub fn wipe(&mut self)
        ensures
            final(self)@ == (PartySetup { v: 0, v_blinding: 0, ..old(self)@ }),
    {
        proof {
            use_type_invariant(&*self);
        }
        self.v = 0;
        self.v_blinding.wipe();
    }

    /// The bitsize that the party was made for.
    pub open spec fn bitsize(&self) -> nat {
        self@.n
    }

    /// Takes position `j` and commits to the bits of the value, with the
    /// blinding scalars given; `s_L` and `s_R` must have one entry per bit.
    pub fn assign_position_with_blindings(
        self,
        j: usize,
        a_blinding: Scalar,
        s_blinding: Scalar,
        s_L: Vec<Scalar>,
        s_R: Vec<Scalar>,
    ) -> (r: Result<(PartyAwaitingBitChallenge<'a>, BitCommitment), MPCError>)
        requires
            s_L.len() == self.bitsize(),
            s_R.len() == self.bitsize(),
        ensures
            position_outcome(r) == party_assign_position(
                self@,
                j as nat,
                a_blinding@,
                s_blinding@,
                s_L.deep_view(),
                s_R.deep_view(),
            ),
    {
        proof {
            use_type_invariant(&self);
        }
        let mut me = self;
        if me.bp_gens.party_capacity() <= j {
            me.wipe();
            return Err(MPCError::InvalidGeneratorsLength);
        }
        let share = me.bp_gens.share(j);
        let g = share.G(me.n);
        let h = share.H(me.n);
        let points = join_points(me.pc_gens.B_blinding, &g, &h);
        let s_scalars = join_scalars(s_blinding, &s_L, &s_R);
        assert(g.len() == g.deep_view().len());
        assert(h.len() == h.deep_view().len());
        assert(points.len() == points.deep_view().len());
        assert(s_scalars.len() == s_scalars.deep_view().len());
        let n = me.n;
        let v = me.v;
        let ghost terms = bit_points(v as nat, n as nat, j as nat);
        let mut A = me.pc_gens.B_blinding.mul(&a_blinding);
        let mut rest: u64 = v;
        let mut i: usize = 0;
        proof {
            assert(terms.take(0) =~= Seq::<Seq<u8>>::empty());
            assert(two_pow(0) == 1 && v as nat / 1 == v as nat);
        }
        while i < n
            invariant
                i <= n,
                g.len() == n,
                h.len() == n,
                g.deep_view() == share_generators(kind_g(), j as nat, n as nat),
                h.deep_view() == share_generators(kind_h(), j as nat, n as nat),
                terms == bit_points(v as nat, n as nat, j as nat),
                rest == v as nat / two_pow(i as nat),
                two_pow(i as nat) >= 1,
                A@ == sum_from(
                    ristretto_product(a_blinding@, me.pc_gens.B_blinding@),
                    terms.take(i as int),
                ),
            decreases n - i,
        {
            let bit = rest % 2 == 1;
            let minus_h = h[i].neg();
            let point = RistrettoElement::conditional_select(&minus_h, &g[i], bit);
            proof {
                assert(terms.take(i + 1).drop_last() =~= terms.take(i as int));
                assert(g.deep_view()[i as int] == g[i as int]@);
                assert(h.deep_view()[i as int] == h[i as int]@);
                assert(terms.take(i + 1).last() == point@);
                lemma_div_denominator(v as int, two_pow(i as nat) as int, 2);
                assert(two_pow((i + 1) as nat) == two_pow(i as nat) * 2);
            }
            A = A.add(&point);
            rest = rest / 2;
            i += 1;
        }
        proof {
            assert(terms.take(n as int) =~= terms);
        }
        let S = point_msm(s_scalars.as_slice(), points.as_slice());
        let V = me.pc_gens.commit(Scalar::from_u64(v), me.v_blinding).compress();
        let bit_commitment = BitCommitment { V_j: V, A_j: A, S_j: S };
        let next = PartyAwaitingBitChallenge {
            n: me.n,
            v: me.v,
            v_blinding: me.v_blinding,
            j,
            pc_gens: me.pc_gens,
            a_blinding,
            s_blinding,
            s_L,
            s_R,
        };
        me.wipe();
        Ok((next, bit_commitment))
    }

    /// Takes position `j` and commits to the bits of the value, with
    /// blinding scalars from the generator: the result is that of
    /// `assign_position_with_blindings` for some blinding scalars.
    pub fn assign_position_with_rng(self, j: usize, rng: &mut ThreadRng) -> (r: Result<
        (PartyAwaitingBitChallenge<'a>, BitCommitment),
        MPCError,
    >)
        ensures
            exists|a_blinding: nat, s_blinding: nat, s_l: Seq<nat>, s_r: Seq<nat>|
                s_l.len() == self.bitsize() && s_r.len() == self.bitsize() && position_outcome(r)
                    == #[trigger] party_assign_position(
                    self@,
                    j as nat,
                    a_blinding,
                    s_blinding,
                    s_l,
                    s_r,
                ),
    {
        let a_blinding = Scalar::random(rng);
        let s_blinding = Scalar::random(rng);
        let s_L = Scalar::random_vec(rng, self.n);
        let s_R = Scalar::random_vec(rng, self.n);
        let ghost sl = s_L.deep_view();
        let ghost sr = s_R.deep_view();
        let ghost me = self@;
        let r = self.assign_position_with_blindings(j, a_blinding, s_blinding, s_L, s_R);
        proof {
            assert(position_outcome(r) == party_assign_position(
                me,
                j as nat,
                a_blinding@,
                s_blinding@,
                sl,
                sr,
            ));
        }
        r
    }

    /// Takes position `j` and commits to the bits of the value, with
    /// blinding scalars from the thread's generator.
    pub fn assign_position(self, j: usize) -> (r: Result<
        (PartyAwaitingBitChallenge<'a>, BitCommitment),
        MPCError,
    >)
        ensures
            exists|a_blinding: nat, s_blinding: nat, s_l: Seq<nat>, s_r: Seq<nat>|
                s_l.len() == self.bitsize() && s_r.len() == self.bitsize() && position_outcome(r)
                    == #[trigger] party_assign_position(
                    self@,
                    j as nat,
                    a_blinding,
                    s_blinding,
                    s_l,
                    s_r,
                ),
    {
        let mut rng = thread_rng();
        self.assign_position_with_rng(j, &mut rng)
    }
}

impl<'a> PartyAwaitingBitChallenge<'a> {
    #[verifier::type_invariant]
    spec fn wf(self) -> bool {
        &&& valid_bitsize(self.n as nat)
        &&& self.s_L.len() == self.n
        &&& self.s_R.len() == self.n
    }

    /// Overwrites the value, the blindings and the blinding vectors with
    /// zero, for a party that is given up.
    pub fn wipe(&mut self)
        ensures
            final(self)@ == (PartyBits {
                v: 0,
                v_blinding: 0,
                a_blinding: 0,
                s_blinding: 0,
                s_l: Seq::new(old(self)@.s_l.len(), |i: int| 0nat),
                s_r: Seq::new(old(self)@.s_r.len(), |i: int| 0nat),
                ..old(self)@
            }),
    {
        proof {
            use_type_invariant(&*self);
        }
        self.v = 0;
        self.v_blinding.wipe();
        self.a_blinding.wipe();
        self.s_blinding.wipe();
        wipe_scalars(&mut self.s_L);
        wipe_scalars(&mut self.s_R);
        proof {
            assert(self.s_L.deep_view() =~= Seq::new(old(self)@.s_l.len(), |i: int| 0nat));
            assert(self.s_R.deep_view() =~= Seq::new(old(self)@.s_r.len(), |i: int| 0nat));
        }
    }

    /// Takes the challenges `y`, `z` and commits to the party's polynomial,
    /// with the blinding scalars given.
    pub fn apply_challenge_with_blindings(
        self,
        vc: &BitChallenge,
        t_1_blinding: Scalar,
        t_2_blinding: Scalar,
    ) -> (r: (PartyAwaitingPolyChallenge, PolyCommitment))
        ensures
            (r.0@, r.1@) == party_apply_bit_challenge(
                self@,
                vc.y@,
                vc.z@,
                t_1_blinding@,
                t_2_blinding@,
            ),
    {
        proof {
            use_type_invariant(&self);
            reveal(party_apply_bit_challenge);
        }
        let n = self.n;
        let y = vc.y;
        let z = vc.z;
        let offset_y = scalar_exp_product(&y, self.j as u64, n as u64);
        let offset_z = scalar_exp_vartime(&z, self.j as u64);
        let offset_zz = z.mul(&z).mul(&offset_z);
        let one = Scalar::one();
        let mut l0: Vec<Scalar> = Vec::new();
        let mut r0: Vec<Scalar> = Vec::new();
        let mut r1: Vec<Scalar> = Vec::new();
        let mut exp_y = offset_y;
        let mut exp_2 = Scalar::one();
        let mut rest: u64 = self.v;
        let ghost me = self@;
        let ghost want = party_apply_bit_challenge(me, y@, z@, t_1_blinding@, t_2_blinding@).0;
        let mut i: usize = 0;
        proof {
            lemma_fpow_zero(2);
            assert(two_pow(0) == 1 && self.v as nat / 1 == self.v as nat);
        }
        while i < n
            invariant
                i <= n,
                n == self.n,
                me == self@,
                self.s_R.len() == n,
                want == party_apply_bit_challenge(me, y@, z@, t_1_blinding@, t_2_blinding@).0,
                l0.len() == i,
                r0.len() == i,
                r1.len() == i,
                one@ == 1,
                offset_zz@ == want.offset_zz,
                exp_y@ == fpow(y@, me.j * me.n + i as nat),
                exp_2@ == fpow(2, i as nat),
                rest == self.v as nat / two_pow(i as nat),
                two_pow(i as nat) >= 1,
                forall|k: int| 0 <= k < i ==> (#[trigger] l0[k])@ == want.l0[k],
                forall|k: int| 0 <= k < i ==> (#[trigger] r0[k])@ == want.r0[k],
                forall|k: int| 0 <= k < i ==> (#[trigger] r1[k])@ == want.r1[k],
            decreases n - i,
        {
            let a_l_i = Scalar::from_u64(rest % 2);
            let a_r_i = a_l_i.sub(&one);
            proof {
                reveal(party_apply_bit_challenge);
                assert(me.s_r[i as int] == self.s_R[i as int]@);
            }
            l0.push(a_l_i.sub(&z));
            r0.push(exp_y.mul(&a_r_i.add(&z)).add(&offset_zz.mul(&exp_2)));
            r1.push(exp_y.mul(&self.s_R[i]));
            proof {
                let l = group_order() as int;
                lemma_div_denominator(self.v as int, two_pow(i as nat) as int, 2);
                assert(two_pow((i + 1) as nat) == two_pow(i as nat) * 2);
                lemma_mod_twice(pow(y@ as int, me.j * me.n + i as nat), l);
                lemma_fpow_step(y@, me.j * me.n + i as nat, exp_y@);
                // doubling a power of two
                lemma_mod_twice(pow(2, i as nat), l);
                lemma_fpow_step(2, i as nat, exp_2@);
                assert(exp_2@ + exp_2@ == exp_2@ * 2);
            }
            exp_y = exp_y.mul(&y);
            exp_2 = exp_2.add(&exp_2);
            rest = rest / 2;
            i += 1;
        }
        let pc_gens = self.pc_gens;
        let PartyAwaitingBitChallenge { v_blinding, a_blinding, s_blinding, s_L, s_R, .. } = self;
        let mut spent = s_R;
        wipe_scalars(&mut spent);
        let l_poly = VecPoly1(l0, s_L);
        let r_poly = VecPoly1(r0, r1);
        proof {
            assert(l_poly.0.deep_view() =~= want.l0);
            assert(r_poly.0.deep_view() =~= want.r0);
            assert(r_poly.1.deep_view() =~= want.r1);
        }
        let t_poly = l_poly.inner_product(&r_poly);
        let T_1 = pc_gens.commit(t_poly.1, t_1_blinding);
        let T_2 = pc_gens.commit(t_poly.2, t_2_blinding);
        let poly_commitment = PolyCommitment { T_1_j: T_1, T_2_j: T_2 };
        let next = PartyAwaitingPolyChallenge {
            offset_zz,
            l_poly,
            r_poly,
            t_poly,
            v_blinding,
            a_blinding,
            s_blinding,
            t_1_blinding,
            t_2_blinding,
        };
        (next, poly_commitment)
    }

    /// Takes the challenges `y`, `z` and commits to the party's polynomial,
    /// with blinding scalars from the generator: the result is that of
    /// `apply_challenge_with_blindings` for some blinding scalars.
    pub fn apply_challenge_with_rng(self, vc: &BitChallenge, rng: &mut ThreadRng) -> (r: (
        PartyAwaitingPolyChallenge,
        PolyCommitment,
    ))
        ensures
            exists|t_1_blinding: nat, t_2_blinding: nat|
                (r.0@, r.1@) == #[trigger] party_apply_bit_challenge(
                    self@,
                    vc.y@,
                    vc.z@,
                    t_1_blinding,
                    t_2_blinding,
                ),
    {
        let t_1_blinding = Scalar::random(rng);
        let t_2_blinding = Scalar::random(rng);
        let ghost me = self@;
        let r = self.apply_challenge_with_blindings(vc, t_1_blinding, t_2_blinding);
        proof {
            assert((r.0@, r.1@) == party_apply_bit_challenge(
                me,
                vc.y@,
                vc.z@,
                t_1_blinding@,
                t_2_blinding@,
            ));
        }
        r
    }

    /// Takes the challenges `y`, `z` and commits to the party's polynomial,
    /// with blinding scalars from the thread's generator.
    pub fn apply_challenge(self, vc: &BitChallenge) -> (r: (
        PartyAwaitingPolyChallenge,
        PolyCommitment,
    ))
        ensures
            exists|t_1_blinding: nat, t_2_blinding: nat|
                (r.0@, r.1@) == #[trigger] party_apply_bit_challenge(
                    self@,
                    vc.y@,
                    vc.z@,
                    t_1_blinding,
                    t_2_blinding,
                ),
    {
        let mut rng = thread_rng();
        self.apply_challenge_with_rng(vc, &mut rng)
    }
}

impl PartyAwaitingPolyChallenge {
    #[verifier::type_invariant]
    spec fn wf(self) -> bool {
        &&& self.l_poly.1.len() == self.l_poly.0.len()
        &&& self.r_poly.0.len() == self.l_poly.0.len()
        &&& self.r_poly.1.len() == self.l_poly.0.len()
    }

    /// Overwrites the polynomials and the blindings with zero, for a party
    /// that is given up.
    pub fn wipe(&mut self)
        ensures
            final(self)@ == (PartyPolys {
                offset_zz: 0,
                l0: Seq::new(old(self)@.l0.len(), |i: int| 0nat),
                l1: Seq::new(old(self)@.l0.len(), |i: int| 0nat),
                r0: Seq::new(old(self)@.l0.len(), |i: int| 0nat),
                r1: Seq::new(old(self)@.l0.len(), |i: int| 0nat),
                t0: 0,
                t1: 0,
                t2: 0,
                v_blinding: 0,
                a_blinding: 0,
                s_blinding: 0,
                t_1_blinding: 0,
                t_2_blinding: 0,
            }),
    {
        proof {
            use_type_invariant(&*self);
        }
        self.offset_zz.wipe();
        wipe_scalars(&mut self.l_poly.0);
        wipe_scalars(&mut self.l_poly.1);
        wipe_scalars(&mut self.r_poly.0);
        wipe_scalars(&mut self.r_poly.1);
        self.t_poly.0.wipe();
        self.t_poly.1.wipe();
        self.t_poly.2.wipe();
        self.v_blinding.wipe();
        self.a_blinding.wipe();
        self.s_blinding.wipe();
        self.t_1_blinding.wipe();
        self.t_2_blinding.wipe();
        proof {
            let n = old(self)@.l0.len();
            assert(self.l_poly.0.deep_view() =~= Seq::new(n, |i: int| 0nat));
            assert(self.l_poly.1.deep_view() =~= Seq::new(n, |i: int| 0nat));
            assert(self.r_poly.0.deep_view() =~= Seq::new(n, |i: int| 0nat));
            assert(self.r_poly.1.deep_view() =~= Seq::new(n, |i: int| 0nat));
        }
    }

    /// Takes the challenge `x` and gives the party's share of the proof. A
    /// challenge of zero is refused with `MaliciousDealer`.
    pub fn apply_challenge(self, pc: &PolyChallenge) -> (r: Result<ProofShare, MPCError>)
        ensures
            share_outcome(r) == party_apply_poly_challenge(self@, pc.x@),
    {
        proof {
            use_type_invariant(&self);
        }
        let mut me = self;
        if pc.x.is_zero() {
            me.wipe();
            return Err(MPCError::MaliciousDealer);
        }
        let x = pc.x;
        let t_blinding_poly = Poly2(
            me.offset_zz.mul(&me.v_blinding),
            me.t_1_blinding,
            me.t_2_blinding,
        );
        let t_x = me.t_poly.eval(&x);
        let t_x_blinding = t_blinding_poly.eval(&x);
        let e_blinding = me.a_blinding.add(&me.s_blinding.mul(&x));
        let l_vec = me.l_poly.eval(&x);
        let r_vec = me.r_poly.eval(&x);
        me.wipe();
        Ok(ProofShare { t_x, t_x_blinding, e_blinding, l_vec, r_vec })
    }
}

} // verus!
