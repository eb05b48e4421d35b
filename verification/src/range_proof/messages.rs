//! The messages that the parties and the dealer of the multi-party protocol
//! exchange.

#![allow(non_snake_case)]

use crate::generators::kind_g;
use crate::generators::kind_h;
use crate::generators::share_generators;
use crate::generators::BulletproofGens;
use crate::generators::PedersenGens;
use crate::ristretto::identity_encoding;
use crate::ristretto::msm;
use crate::ristretto::point_vartime_msm;
use crate::ristretto::ristretto_decodes;
use crate::ristretto::CompressedRistretto;
use crate::ristretto::RistrettoElement;
use crate::scalar::fadd;
use crate::scalar::finv;
use crate::scalar::fmul;
use crate::scalar::fneg;
use crate::scalar::fsub;
use crate::scalar::Scalar;
use crate::util::fpow;
use crate::util::inner_product;
use crate::util::inner_product_value;
use crate::util::powers;
use crate::util::scalar_exp_product;
use crate::util::scalar_exp_vartime;
use crate::util::sum_of_powers;
use crate::util::sum_pow;
use vstd::prelude::*;

verus! {

/// A party's commitment to its value and to the bits of the value.
#[derive(Clone, Copy, Debug)]
pub struct BitCommitment {
    pub V_j: CompressedRistretto,
    pub A_j: RistrettoElement,
    pub S_j: RistrettoElement,
}

/// What a bit commitment holds.
pub struct BitCommitmentData {
    pub v_j: Seq<u8>,
    pub a_j: Seq<u8>,
    pub s_j: Seq<u8>,
}

impl View for BitCommitment {
    type V = BitCommitmentData;

    open spec fn view(&self) -> BitCommitmentData {
        BitCommitmentData { v_j: self.V_j@, a_j: self.A_j@, s_j: self.S_j@ }
    }
}

/// The dealer's challenges after the bit commitments.
#[derive(Clone, Copy, Debug)]
pub struct BitChallenge {
    pub y: Scalar,
    pub z: Scalar,
}

/// A party's commitment to the coefficients of its polynomial.
#[derive(Clone, Copy, Debug)]
pub struct PolyCommitment {
    pub T_1_j: RistrettoElement,
    pub T_2_j: RistrettoElement,
}

/// What a polynomial commitment holds.
pub struct PolyCommitmentData {
    pub t_1_j: Seq<u8>,
    pub t_2_j: Seq<u8>,
}

impl View for PolyCommitment {
    type V = PolyCommitmentData;

    open spec fn view(&self) -> PolyCommitmentData {
        PolyCommitmentData { t_1_j: self.T_1_j@, t_2_j: self.T_2_j@ }
    }
}

/// The dealer's challenge after the polynomial commitments.
#[derive(Clone, Copy, Debug)]
pub struct PolyChallenge {
    pub x: Scalar,
}

/// A party's share of the aggregated proof.
#[derive(Clone, Debug)]
pub struct ProofShare {
    pub t_x: Scalar,
    pub t_x_blinding: Scalar,
    pub e_blinding: Scalar,
    pub l_vec: Vec<Scalar>,
    pub r_vec: Vec<Scalar>,
}

/// What a proof share holds.
pub struct ProofShareData {
    pub t_x: nat,
    pub t_x_blinding: nat,
    pub e_blinding: nat,
    pub l_vec: Seq<nat>,
    pub r_vec: Seq<nat>,
}

impl View for ProofShare {
    type V = ProofShareData;

    open spec fn view(&self) -> ProofShareData {
        ProofShareData {
            t_x: self.t_x@,
            t_x_blinding: self.t_x_blinding@,
            e_blinding: self.e_blinding@,
            l_vec: self.l_vec.deep_view(),
            r_vec: self.r_vec.deep_view(),
        }
    }
}

/// The public terms of the equation on one party's polynomial:
/// `(z - z^2) <1, y^n> y^(jn) - z^3 <1, 2^n> z^j`.
pub open spec fn share_delta(n: nat, j: nat, y: nat, z: nat) -> nat {
    let zz = fmul(z, z);
    fsub(
        fmul(fmul(fsub(z, zz), sum_pow(y, n)), fpow(y, j * n)),
        fmul(fmul(fmul(z, zz), sum_pow(2, n)), fpow(z, j)),
    )
}

/// The scalars of the check of a share's vectors against the party's bit
/// commitment: for the points `A_j`, `S_j`, `B_blinding`, the party's `G`
/// and its `H`.
pub open spec fn share_p_scalars(s: ProofShareData, j: nat, y: nat, z: nat, x: nat) -> Seq<nat> {
    let n = s.l_vec.len();
    let zz = fmul(z, z);
    let z_j = fpow(z, j);
    let y_jn_inv = finv(fpow(y, j * n));
    let y_inv = finv(y);
    seq![1nat, x, fneg(s.e_blinding)] + Seq::new(n, |i: int| fsub(fneg(z), s.l_vec[i])) + Seq::new(
        n,
        |i: int|
            fadd(
                fadd(z, fmul(fmul(fpow(y_inv, i as nat), y_jn_inv), fneg(s.r_vec[i]))),
                fmul(
                    fmul(fpow(y_inv, i as nat), y_jn_inv),
                    fmul(fmul(zz, z_j), fpow(2, i as nat)),
                ),
            ),
    )
}

/// The scalars of the check of a share's `t_x` against the party's value
/// and polynomial commitments: for the points `V_j`, `T_1_j`, `T_2_j`, `B`
/// and `B_blinding`.
pub open spec fn share_t_scalars(s: ProofShareData, j: nat, y: nat, z: nat, x: nat) -> Seq<nat> {
    let n = s.l_vec.len();
    seq![
        fmul(fmul(z, z), fpow(z, j)),
        x,
        fmul(x, x),
        fsub(share_delta(n, j, y, z), s.t_x),
        fneg(s.t_x_blinding),
    ]
}

/// Whether the share of party `j` holds: its vectors have one length, which
/// the generators cover; `t_x` is the inner product of the vectors; the
/// vectors open the party's bit commitment; the value commitment decodes;
/// and `t_x` opens the value and polynomial commitments.
pub open spec fn share_holds(
    s: ProofShareData,
    gens_capacity: nat,
    party_capacity: nat,
    b: Seq<u8>,
    b_blinding: Seq<u8>,
    j: nat,
    bc: BitCommitmentData,
    y: nat,
    z: nat,
    pc: PolyCommitmentData,
    x: nat,
) -> bool {
    let n = s.l_vec.len();
    &&& s.r_vec.len() == n
    &&& n <= gens_capacity
    &&& j < party_capacity
    &&& s.t_x == inner_product_value(s.l_vec, s.r_vec)
    &&& msm(
        share_p_scalars(s, j, y, z, x),
        seq![bc.a_j, bc.s_j, b_blinding] + share_generators(kind_g(), j, n) + share_generators(
            kind_h(),
            j,
            n,
        ),
    ) == identity_encoding()
    &&& ristretto_decodes(bc.v_j)
    &&& msm(share_t_scalars(s, j, y, z, x), seq![bc.v_j, pc.t_1_j, pc.t_2_j, b, b_blinding])
        == identity_encoding()
}

impl ProofShare {
    /// Checks the share of party `j` against the party's commitments and the
    /// dealer's challenges.
    pub fn audit_share(
        &self,
        bp_gens: &BulletproofGens,
        pc_gens: &PedersenGens,
        j: usize,
        bit_commitment: &BitCommitment,
        bit_challenge: &BitChallenge,
        poly_commitment: &PolyCommitment,
        poly_challenge: &PolyChallenge,
    ) -> (r: Result<(), ()>)
        ensures
            r is Ok <==> share_holds(
                self@,
                bp_gens.gens_capacity() as nat,
                bp_gens.party_capacity() as nat,
                pc_gens.B@,
                pc_gens.B_blinding@,
                j as nat,
                bit_commitment@,
                bit_challenge.y@,
                bit_challenge.z@,
                poly_commitment@,
                poly_challenge.x@,
            ),
    {
        let n = self.l_vec.len();
        if self.r_vec.len() != n {
            return Err(());
        }
        if n > bp_gens.gens_capacity() {
            return Err(());
        }
        if j >= bp_gens.party_capacity() {
            return Err(());
        }
        let y = bit_challenge.y;
        let z = bit_challenge.z;
        let x = poly_challenge.x;
        let zz = z.mul(&z);
        let minus_z = z.neg();
        let z_j = scalar_exp_vartime(&z, j as u64);
        let y_jn = scalar_exp_product(&y, j as u64, n as u64);
        let y_jn_inv = y_jn.invert();
        let y_inv = y.invert();

        let t = inner_product(self.l_vec.as_slice(), self.r_vec.as_slice());
        if !self.t_x.eq(&t) {
            return Err(());
        }
        let two = Scalar::from_u64(2);
        let exp_2 = powers(&two, n);
        let exp_y_inv = powers(&y_inv, n);
        assert(exp_2.len() == exp_2.deep_view().len());
        assert(exp_y_inv.len() == exp_y_inv.deep_view().len());
        let one = Scalar::one();
        let mut scalars: Vec<Scalar> = Vec::new();
        scalars.push(one);
        scalars.push(x);
        scalars.push(self.e_blinding.neg());
        let ghost want = share_p_scalars(self@, j as nat, y@, z@, x@);
        let mut i: usize = 0;
        while i < n
            invariant
                i <= n,
                n == self.l_vec.len(),
                scalars.len() == 3 + i,
                minus_z@ == fneg(z@),
                want == share_p_scalars(self@, j as nat, y@, z@, x@),
                forall|k: int| 0 <= k < 3 + i ==> (#[trigger] scalars[k])@ == want[k],
            decreases n - i,
        {
            let g_i = minus_z.sub(&self.l_vec[i]);
            proof {
                assert(self@.l_vec[i as int] == self.l_vec[i as int]@);
            }
            scalars.push(g_i);
            i += 1;
        }
        let mut i: usize = 0;
        while i < n
            invariant
                i <= n,
                n == self.l_vec.len(),
                n == self.r_vec.len(),
                scalars.len() == 3 + n + i,
                zz@ == fmul(z@, z@),
                z_j@ == fpow(z@, j as nat),
                y_jn_inv@ == finv(fpow(y@, (j * n) as nat)),
                y_inv@ == finv(y@),
                exp_2.len() == n,
                exp_y_inv.len() == n,
                exp_2.deep_view() == crate::util::powers_of(2, n as nat),
                exp_y_inv.deep_view() == crate::util::powers_of(y_inv@, n as nat),
                want == share_p_scalars(self@, j as nat, y@, z@, x@),
                forall|k: int| 0 <= k < 3 + n + i ==> (#[trigger] scalars[k])@ == want[k],
            decreases n - i,
        {
            let f = exp_y_inv[i].mul(&y_jn_inv);
            let h_i = z.add(&f.mul(&self.r_vec[i].neg())).add(
                &f.mul(&zz.mul(&z_j).mul(&exp_2[i])),
            );
            proof {
                assert(self@.r_vec[i as int] == self.r_vec[i as int]@);
                assert(exp_2.deep_view()[i as int] == exp_2[i as int]@);
                assert(exp_y_inv.deep_view()[i as int] == exp_y_inv[i as int]@);
            }
            scalars.push(h_i);
            i += 1;
        }
        let share = bp_gens.share(j);
        let g = share.G(n);
        let h = share.H(n);
        let mut points: Vec<RistrettoElement> = Vec::new();
        points.push(bit_commitment.A_j);
        points.push(bit_commitment.S_j);
        points.push(pc_gens.B_blinding);
        let ghost want_points = seq![bit_commitment.A_j@, bit_commitment.S_j@, pc_gens.B_blinding@]
            + share_generators(kind_g(), j as nat, n as nat) + share_generators(
            kind_h(),
            j as nat,
            n as nat,
        );
        let mut i: usize = 0;
        while i < n
            invariant
                i <= n,
                g.len() == n,
                points.len() == 3 + i,
                g.deep_view() == share_generators(kind_g(), j as nat, n as nat),
                want_points == seq![
                    bit_commitment.A_j@,
                    bit_commitment.S_j@,
                    pc_gens.B_blinding@,
                ] + share_generators(kind_g(), j as nat, n as nat) + share_generators(
                    kind_h(),
                    j as nat,
                    n as nat,
                ),
                forall|k: int| 0 <= k < 3 + i ==> (#[trigger] points[k])@ == want_points[k],
            decreases n - i,
        {
            proof {
                assert(g.deep_view()[i as int] == g[i as int]@);
            }
            points.push(g[i]);
            i += 1;
        }
        let mut i: usize = 0;
        while i < n
            invariant
                i <= n,
                h.len() == n,
                points.len() == 3 + n + i,
                h.deep_view() == share_generators(kind_h(), j as nat, n as nat),
                want_points == seq![
                    bit_commitment.A_j@,
                    bit_commitment.S_j@,
                    pc_gens.B_blinding@,
                ] + share_generators(kind_g(), j as nat, n as nat) + share_generators(
                    kind_h(),
                    j as nat,
                    n as nat,
                ),
                forall|k: int| 0 <= k < 3 + n + i ==> (#[trigger] points[k])@ == want_points[k],
            decreases n - i,
        {
            proof {
                assert(h.deep_view()[i as int] == h[i as int]@);
            }
            points.push(h[i]);
            i += 1;
        }
        assert(scalars.deep_view() =~= want);
        assert(points.deep_view() =~= want_points);
        let p_check = point_vartime_msm(scalars.as_slice(), points.as_slice());
        if !p_check.is_identity() {
            return Err(());
        }
        let v_j = match bit_commitment.V_j.decompress() {
            Some(p) => p,
            None => {
                return Err(());
            },
        };
        let sum_y = sum_of_powers(&y, n);
        let sum_2 = sum_of_powers(&two, n);
        let delta = z.sub(&zz).mul(&sum_y).mul(&y_jn).sub(&z.mul(&zz).mul(&sum_2).mul(&z_j));
        let t_scalars = [
            zz.mul(&z_j),
            x,
            x.mul(&x),
            delta.sub(&self.t_x),
            self.t_x_blinding.neg(),
        ];
        let t_points = [v_j, poly_commitment.T_1_j, poly_commitment.T_2_j, pc_gens.B, pc_gens.B_blinding];
        let ts = t_scalars.as_slice();
        let tp = t_points.as_slice();
        assert(ts.deep_view() =~= share_t_scalars(self@, j as nat, y@, z@, x@));
        assert(tp.deep_view() =~= seq![
            bit_commitment.V_j@,
            poly_commitment.T_1_j@,
            poly_commitment.T_2_j@,
            pc_gens.B@,
            pc_gens.B_blinding@,
        ]);
        let t_check = point_vartime_msm(ts, tp);
        if t_check.is_identity() {
            Ok(())
        } else {
            Err(())
        }
    }
}

} // verus!
