//! The inner product argument: a proof of knowledge of two vectors with a
//! committed inner product, of logarithmic size.

#![allow(non_snake_case)]

use crate::errors::ProofError;
use crate::ristretto::identity_encoding;
use crate::ristretto::msm;
use crate::ristretto::ristretto_decodes;
use crate::ristretto::point_vartime_msm;
use crate::ristretto::CompressedRistretto;
use crate::ristretto::RistrettoElement;
use crate::scalar::fadd;
use crate::scalar::finv;
use crate::scalar::is_inverse;
use crate::scalar::lemma_field_cancel;
use crate::scalar::lemma_fmul_pairs;
use crate::scalar::lemma_fmul_swap;
use crate::scalar::fmul;
use crate::scalar::fneg;
use crate::scalar::group_order;
use crate::scalar::le_bytes;
use crate::scalar::le_nat;
use crate::scalar::lemma_le_bytes_len;
use crate::scalar::lemma_le_nat_of_le_bytes;
use crate::scalar::lemma_radix_32;
use crate::scalar::Scalar;
use crate::transcript::append_point;
use crate::transcript::challenge_scalar;
use crate::transcript::challenge_value;
use crate::transcript::innerproduct_domain_sep;
use crate::transcript::log_append;
use crate::transcript::log_challenge;
use crate::transcript::log_innerproduct_domain_sep;
use crate::transcript::transcript_log;
use crate::transcript::validate_and_append_point;
use crate::transcript::TranscriptEvent;
use crate::util::extend32;
use crate::util::inner_product;
use crate::util::inner_product_value;
use crate::util::is_pow2;
use crate::util::lemma_log2_between;
use crate::util::lemma_pow2_log2;
use crate::util::lemma_two_pow_64;
use crate::util::lemma_two_pow_is_pow2;
use crate::util::lemma_two_pow_monotone;
use crate::util::log2;
use crate::util::read32;
use crate::util::two_pow;
use merlin::Transcript;
use vstd::arithmetic::div_mod::lemma_div_denominator;
use vstd::arithmetic::div_mod::lemma_fundamental_div_mod_converse;
use vstd::prelude::*;
use vstd::slice::slice_subrange;
use vstd::string::StringSliceAdditionalSpecFns;

verus! {

/// What an inner product proof holds: for each round of halving a pair of
/// encoded points, and the two scalars that are left at the end.
pub struct InnerProductProofData {
    pub l_vec: Seq<Seq<u8>>,
    pub r_vec: Seq<Seq<u8>>,
    pub a: nat,
    pub b: nat,
}

impl InnerProductProofData {
    /// Every proof that executable code holds is of this shape.
    pub open spec fn wf(self) -> bool {
        &&& self.l_vec.len() == self.r_vec.len()
        &&& forall|i: int| 0 <= i < self.l_vec.len() ==> (#[trigger] self.l_vec[i]).len() == 32
        &&& forall|i: int| 0 <= i < self.r_vec.len() ==> (#[trigger] self.r_vec[i]).len() == 32
        &&& self.a < group_order()
        &&& self.b < group_order()
    }
}

/// The elementwise product of two vectors of scalars.
pub open spec fn hadamard(x: Seq<nat>, y: Seq<nat>) -> Seq<nat> {
    Seq::new(x.len(), |i: int| fmul(x[i], y[i]))
}

/// The state of the prover before a round: the transcript's history, the
/// point that the inner product multiplies, the factors that the
/// generators are to be scaled by, the generators and the two vectors.
pub struct IppProver {
    pub log: Seq<TranscriptEvent>,
    pub q: Seq<u8>,
    pub gf: Seq<nat>,
    pub hf: Seq<nat>,
    pub g: Seq<Seq<u8>>,
    pub h: Seq<Seq<u8>>,
    pub a: Seq<nat>,
    pub b: Seq<nat>,
}

impl IppProver {
    /// All six vectors have length `n`.
    pub open spec fn has_len(self, n: nat) -> bool {
        &&& self.gf.len() == n
        &&& self.hf.len() == n
        &&& self.g.len() == n
        &&& self.h.len() == n
        &&& self.a.len() == n
        &&& self.b.len() == n
    }

    pub open spec fn half(self) -> int {
        self.a.len() as int / 2
    }

    /// The round's left point: `<a_L, G_R> + <b_R, H_L> + <a_L, b_R> Q`,
    /// the generators scaled by their factors.
    pub open spec fn l_point(self) -> Seq<u8> {
        let k = self.half();
        let n = self.a.len() as int;
        let c = inner_product_value(self.a.subrange(0, k), self.b.subrange(k, n));
        msm(
            hadamard(self.a.subrange(0, k), self.gf.subrange(k, n)) + hadamard(
                self.b.subrange(k, n),
                self.hf.subrange(0, k),
            ) + seq![c],
            self.g.subrange(k, n) + self.h.subrange(0, k) + seq![self.q],
        )
    }

    /// The round's right point: `<a_R, G_L> + <b_L, H_R> + <a_R, b_L> Q`,
    /// the generators scaled by their factors.
    pub open spec fn r_point(self) -> Seq<u8> {
        let k = self.half();
        let n = self.a.len() as int;
        let c = inner_product_value(self.a.subrange(k, n), self.b.subrange(0, k));
        msm(
            hadamard(self.a.subrange(k, n), self.gf.subrange(0, k)) + hadamard(
                self.b.subrange(0, k),
                self.hf.subrange(k, n),
            ) + seq![c],
            self.g.subrange(0, k) + self.h.subrange(k, n) + seq![self.q],
        )
    }

    /// The history once both points are absorbed.
    pub open spec fn log_with_points(self) -> Seq<TranscriptEvent> {
        log_append(
            log_append(self.log, "L".spec_bytes(), self.l_point()),
            "R".spec_bytes(),
            self.r_point(),
        )
    }

    /// The round's challenge.
    pub open spec fn challenge(self) -> nat {
        challenge_value(self.log_with_points(), "u".spec_bytes())
    }

    /// The state after the round: the vectors and generators folded to half
    /// their length with the challenge `u`,
    /// `a <- a_L u + a_R / u`, `b <- b_L / u + b_R u`,
    /// `G <- G_L / u + G_R u`, `H <- H_L u + H_R / u`;
    /// the factors, now applied, become one.
    pub open spec fn next(self) -> IppProver {
        let k = self.half();
        let u = self.challenge();
        let u_inv = finv(u);
        IppProver {
            log: log_challenge(self.log_with_points(), "u".spec_bytes()),
            q: self.q,
            gf: Seq::new(k as nat, |i: int| 1nat),
            hf: Seq::new(k as nat, |i: int| 1nat),
            g: Seq::new(
                k as nat,
                |i: int|
                    msm(
                        seq![fmul(u_inv, self.gf[i]), fmul(u, self.gf[k + i])],
                        seq![self.g[i], self.g[k + i]],
                    ),
            ),
            h: Seq::new(
                k as nat,
                |i: int|
                    msm(
                        seq![fmul(u, self.hf[i]), fmul(u_inv, self.hf[k + i])],
                        seq![self.h[i], self.h[k + i]],
                    ),
            ),
            a: Seq::new(
                k as nat,
                |i: int| fadd(fmul(self.a[i], u), fmul(u_inv, self.a[k + i])),
            ),
            b: Seq::new(
                k as nat,
                |i: int| fadd(fmul(self.b[i], u_inv), fmul(u, self.b[k + i])),
            ),
        }
    }
}

/// The proof that the rounds from a state on produce, and the history that
/// they leave.
pub open spec fn ipp_fold(st: IppProver) -> (InnerProductProofData, Seq<TranscriptEvent>)
    decreases st.a.len(),
{
    if st.a.len() <= 1 {
        (
            InnerProductProofData {
                l_vec: Seq::empty(),
                r_vec: Seq::empty(),
                a: st.a[0],
                b: st.b[0],
            },
            st.log,
        )
    } else {
        let rest = ipp_fold(st.next());
        (
            InnerProductProofData {
                l_vec: seq![st.l_point()] + rest.0.l_vec,
                r_vec: seq![st.r_point()] + rest.0.r_vec,
                a: rest.0.a,
                b: rest.0.b,
            },
            rest.1,
        )
    }
}

/// The proof for vectors `a`, `b` over generators `g`, `h` scaled by `gf`,
/// `hf`, and the history that making it leaves: the domain separator is
/// absorbed, then the rounds are run.
pub open spec fn ipp_create(
    log: Seq<TranscriptEvent>,
    q: Seq<u8>,
    gf: Seq<nat>,
    hf: Seq<nat>,
    g: Seq<Seq<u8>>,
    h: Seq<Seq<u8>>,
    a: Seq<nat>,
    b: Seq<nat>,
) -> (InnerProductProofData, Seq<TranscriptEvent>) {
    ipp_fold(IppProver { log: log_innerproduct_domain_sep(log, a.len()), q, gf, hf, g, h, a, b })
}

/// The verifier's replay of the rounds: each pair of points is absorbed and
/// a challenge is drawn. The challenges in the order of the rounds and the
/// history that is left; nothing if a point is the encoding of the neutral
/// element.
pub open spec fn ipp_challenges(log: Seq<TranscriptEvent>, l: Seq<Seq<u8>>, r: Seq<Seq<u8>>)
    -> Option<(Seq<nat>, Seq<TranscriptEvent>)>
    decreases l.len(),
{
    if l.len() == 0 {
        Some((Seq::empty(), log))
    } else {
        match ipp_challenges(log, l.drop_last(), r.drop_last()) {
            None => None,
            Some((us, lg)) => {
                if l.last() == identity_encoding() || r.last() == identity_encoding() {
                    None
                } else {
                    let lg2 = log_append(
                        log_append(lg, "L".spec_bytes(), l.last()),
                        "R".spec_bytes(),
                        r.last(),
                    );
                    Some(
                        (
                            us.push(challenge_value(lg2, "u".spec_bytes())),
                            log_challenge(lg2, "u".spec_bytes()),
                        ),
                    )
                }
            },
        }
    }
}

/// The product of the inverses of the challenges.
pub open spec fn inv_product(u: Seq<nat>) -> nat
    decreases u.len(),
{
    if u.len() == 0 {
        1
    } else {
        fmul(inv_product(u.drop_last()), finv(u.last()))
    }
}

/// The coefficient of generator `i` in the folded generator: the product
/// over the rounds of the round's challenge where the bit of `i` that the
/// round halves on is set, and of the inverse of the challenge where it is
/// not. The first round halves on the highest bit, the last on the lowest.
pub open spec fn s_product(u: Seq<nat>, i: nat) -> nat
    decreases u.len(),
{
    if u.len() == 0 {
        1
    } else {
        fmul(
            s_product(u.drop_last(), i / 2),
            if i % 2 == 1 {
                u.last()
            } else {
                finv(u.last())
            },
        )
    }
}

/// Whether every challenge is reduced, and is zero or has an inverse; as
/// every challenge is that the verifier derives.
pub open spec fn invertible(u: Seq<nat>) -> bool {
    forall|j: int|
        0 <= j < u.len() ==> (#[trigger] u[j]) < group_order() && (u[j] == 0 || is_inverse(
            u[j],
            finv(u[j]),
        ))
}

/// The same coefficient as the verifier computes it, from the coefficient
/// of the index with the highest set bit cleared: there the round of that
/// bit contributes the inverse, and the square of its challenge turns that
/// into the challenge.
pub open spec fn s_value(u: Seq<nat>, i: nat) -> nat
    decreases i,
{
    if i == 0 {
        inv_product(u)
    } else {
        let lg = log2(i);
        let c = u[u.len() - 1 - lg];
        if two_pow(lg) <= i && two_pow(lg) >= 1 {
            fmul(s_value(u, (i - two_pow(lg)) as nat), fmul(c, c))
        } else {
            0
        }
    }
}

/// What the verifier derives from a proof: the squares of the challenges,
/// the squares of their inverses, and the coefficients of the generators.
pub struct VerificationScalars {
    pub u_sq: Seq<nat>,
    pub u_inv_sq: Seq<nat>,
    pub s: Seq<nat>,
}

/// The verification scalars for challenges `u` and `n` generators.
pub open spec fn scalars_of(u: Seq<nat>, n: nat) -> VerificationScalars {
    VerificationScalars {
        u_sq: Seq::new(u.len(), |i: int| fmul(u[i], u[i])),
        u_inv_sq: Seq::new(u.len(), |i: int| fmul(finv(u[i]), finv(u[i]))),
        s: Seq::new(n, |i: int| s_product(u, i as nat)),
    }
}

proof fn lemma_inv_product_is_product(u: Seq<nat>)
    ensures
        inv_product(u) == s_product(u, 0),
    decreases u.len(),
{
    if u.len() > 0 {
        lemma_inv_product_is_product(u.drop_last());
    }
}

proof fn lemma_log2_bounds(i: nat)
    requires
        i >= 1,
    ensures
        two_pow(log2(i)) <= i < two_pow(log2(i) + 1),
    decreases i,
{
    reveal_with_fuel(two_pow, 2);
    if i >= 2 {
        lemma_log2_bounds(i / 2);
    }
}

/// Setting a bit of the index that was not set multiplies the coefficient
/// by the square of the challenge of the bit's round.
proof fn lemma_set_bit(u: Seq<nat>, i: nat, lg: nat)
    requires
        lg < u.len(),
        (i / two_pow(lg)) % 2 == 1,
        invertible(u),
    ensures
        two_pow(lg) <= i,
        s_product(u, i) == fmul(
            s_product(u, (i - two_pow(lg)) as nat),
            fmul(u[u.len() - 1 - lg], u[u.len() - 1 - lg]),
        ),
    decreases lg,
{
    let front = u.drop_last();
    let last = u.last();
    if lg == 0 {
        assert(two_pow(0) == 1);
        assert(i / 1 == i);
        lemma_field_cancel(s_product(front, i / 2), last);
    } else {
        let m = two_pow((lg - 1) as nat);
        assert(two_pow(lg) == 2 * m);
        lemma_two_pow_is_pow2((lg - 1) as nat);
        lemma_div_denominator(i as int, 2, m as int);
        assert(invertible(front)) by {
            assert forall|j: int| 0 <= j < front.len() implies (#[trigger] front[j])
                < group_order() && (front[j] == 0 || is_inverse(front[j], finv(front[j]))) by {
                assert(front[j] == u[j]);
            }
        }
        lemma_set_bit(front, i / 2, (lg - 1) as nat);
        let c = u[u.len() - 1 - lg];
        assert(front[front.len() - 1 - (lg - 1)] == c);
        let f = if i % 2 == 1 {
            last
        } else {
            finv(last)
        };
        let lower = (i - 2 * m) as nat;
        assert(lower / 2 == i / 2 - m);
        assert(lower % 2 == i % 2);
        lemma_fmul_swap(s_product(front, lower / 2), fmul(c, c), f);
    }
}

/// The coefficient of the generator that mirrors generator `i` is the
/// inverse of the coefficient of generator `i`, where no challenge is zero.
pub proof fn lemma_mirror_is_inverse(u: Seq<nat>, i: nat)
    requires
        i < two_pow(u.len()),
        invertible(u),
        forall|j: int| 0 <= j < u.len() ==> #[trigger] u[j] != 0,
    ensures
        fmul(s_product(u, i), s_product(u, (two_pow(u.len()) - 1 - i) as nat)) == 1,
    decreases u.len(),
{
    let l = group_order() as int;
    if u.len() == 0 {
        assert(two_pow(0) == 1);
        assert(1 * 1 == 1) by (nonlinear_arith);
    } else {
        let front = u.drop_last();
        let last = u.last();
        let half = two_pow(front.len());
        assert(two_pow(u.len()) == 2 * half) by {
            reveal_with_fuel(two_pow, 2);
        }
        let mirror = (2 * half - 1 - i) as nat;
        assert(mirror / 2 == half - 1 - i / 2);
        assert(mirror % 2 == 1 - i % 2);
        assert(invertible(front)) by {
            assert forall|j: int| 0 <= j < front.len() implies (#[trigger] front[j])
                < group_order() && (front[j] == 0 || is_inverse(front[j], finv(front[j]))) by {
                assert(front[j] == u[j]);
            }
        }
        assert forall|j: int| 0 <= j < front.len() implies #[trigger] front[j] != 0 by {
            assert(front[j] == u[j]);
        }
        lemma_mirror_is_inverse(front, i / 2);
        let x = s_product(front, i / 2);
        let y = s_product(front, mirror / 2);
        let f = finv(last);
        assert(is_inverse(last, f));
        assert(fmul(last, f) == 1);
        assert(fmul(f, last) == 1) by {
            assert(last * f == f * last) by (nonlinear_arith);
        }
        if i % 2 == 1 {
            lemma_fmul_pairs(x, last, y, f);
        } else {
            lemma_fmul_pairs(x, f, y, last);
        }
        assert(fmul(1, 1) == 1) by {
            assert(1 * 1 == 1) by (nonlinear_arith);
        }
    }
}

/// The coefficient as the verifier computes it is the product over the
/// rounds, for challenges as the verifier derives them.
pub proof fn lemma_s_value_is_product(u: Seq<nat>, i: nat)
    requires
        i < two_pow(u.len()),
        invertible(u),
    ensures
        s_value(u, i) == s_product(u, i),
    decreases i,
{
    if i == 0 {
        lemma_inv_product_is_product(u);
    } else {
        let lg = log2(i);
        let t = two_pow(lg);
        lemma_log2_bounds(i);
        if lg >= u.len() {
            lemma_two_pow_monotone(u.len(), lg);
        }
        assert(two_pow(lg + 1) == 2 * t) by {
            reveal_with_fuel(two_pow, 2);
        }
        lemma_fundamental_div_mod_converse(i as int, t as int, 1, (i - t) as int);
        lemma_s_value_is_product(u, (i - t) as nat);
        lemma_set_bit(u, i, lg);
    }
}

/// The verification scalars of a proof over `n` generators and the history
/// that deriving them leaves. Nothing if the proof has 32 rounds or more,
/// if `n` is not two to the number of rounds, or if a point is the
/// encoding of the neutral element.
pub open spec fn ipp_verification(log: Seq<TranscriptEvent>, p: InnerProductProofData, n: nat)
    -> Option<(VerificationScalars, Seq<TranscriptEvent>)> {
    if p.l_vec.len() >= 32 || n != two_pow(p.l_vec.len()) {
        None
    } else {
        match ipp_challenges(log_innerproduct_domain_sep(log, n), p.l_vec, p.r_vec) {
            None => None,
            Some((us, lg)) => Some((scalars_of(us, n), lg)),
        }
    }
}

/// A replay draws one challenge per round.
pub proof fn lemma_challenges_len(log: Seq<TranscriptEvent>, l: Seq<Seq<u8>>, r: Seq<Seq<u8>>)
    ensures
        ipp_challenges(log, l, r) matches Some((us, lg)) ==> us.len() == l.len(),
    decreases l.len(),
{
    if l.len() > 0 {
        lemma_challenges_len(log, l.drop_last(), r.drop_last());
    }
}

/// The replay of rounds, the first apart: the first pair of points is
/// absorbed and a challenge is drawn, then the other rounds are replayed.
pub proof fn lemma_challenges_first(
    log: Seq<TranscriptEvent>,
    l0: Seq<u8>,
    r0: Seq<u8>,
    ls: Seq<Seq<u8>>,
    rs: Seq<Seq<u8>>,
)
    requires
        ls.len() == rs.len(),
    ensures
        ipp_challenges(log, seq![l0] + ls, seq![r0] + rs) == ({
            let absorbed = log_append(
                log_append(log, "L".spec_bytes(), l0),
                "R".spec_bytes(),
                r0,
            );
            if l0 == identity_encoding() || r0 == identity_encoding() {
                None
            } else {
                match ipp_challenges(log_challenge(absorbed, "u".spec_bytes()), ls, rs) {
                    None => None,
                    Some((us, lg)) => Some(
                        (seq![challenge_value(absorbed, "u".spec_bytes())] + us, lg),
                    ),
                }
            }
        }),
    decreases ls.len(),
{
    let all_l = seq![l0] + ls;
    let all_r = seq![r0] + rs;
    let absorbed = log_append(log_append(log, "L".spec_bytes(), l0), "R".spec_bytes(), r0);
    let u0 = challenge_value(absorbed, "u".spec_bytes());
    let next = log_challenge(absorbed, "u".spec_bytes());
    if ls.len() == 0 {
        assert(all_l.drop_last() =~= Seq::<Seq<u8>>::empty());
        assert(all_r.drop_last() =~= Seq::<Seq<u8>>::empty());
        assert(all_l.last() == l0);
        assert(all_r.last() == r0);
        assert(ipp_challenges(log, all_l.drop_last(), all_r.drop_last()) == Some(
            (Seq::<nat>::empty(), log),
        ));
        assert(Seq::<nat>::empty().push(u0) =~= seq![u0] + Seq::<nat>::empty());
    } else {
        lemma_challenges_first(log, l0, r0, ls.drop_last(), rs.drop_last());
        assert(all_l.drop_last() =~= seq![l0] + ls.drop_last());
        assert(all_r.drop_last() =~= seq![r0] + rs.drop_last());
        assert(all_l.last() == ls.last());
        assert(all_r.last() == rs.last());
        match ipp_challenges(next, ls.drop_last(), rs.drop_last()) {
            None => {},
            Some((us, lg)) => {
                let lg2 = log_append(
                    log_append(lg, "L".spec_bytes(), ls.last()),
                    "R".spec_bytes(),
                    rs.last(),
                );
                let u = challenge_value(lg2, "u".spec_bytes());
                assert((seq![u0] + us).push(u) =~= seq![u0] + us.push(u));
            },
        }
    }
}

/// The verifier's replay of the rounds of a proof that the prover made
/// leaves the history that the prover left, if it succeeds.
pub proof fn lemma_replay_follows_fold(st: IppProver)
    ensures
        ipp_fold(st).0.l_vec.len() == ipp_fold(st).0.r_vec.len(),
        ipp_challenges(st.log, ipp_fold(st).0.l_vec, ipp_fold(st).0.r_vec) matches Some((_, lg))
            ==> lg == ipp_fold(st).1,
    decreases st.a.len(),
{
    if st.a.len() > 1 {
        let rest = ipp_fold(st.next());
        lemma_replay_follows_fold(st.next());
        lemma_challenges_first(st.log, st.l_point(), st.r_point(), rest.0.l_vec, rest.0.r_vec);
    }
}

/// Once the replay of some rounds has failed, that of more rounds fails.
pub proof fn lemma_challenges_fail(
    log: Seq<TranscriptEvent>,
    l: Seq<Seq<u8>>,
    r: Seq<Seq<u8>>,
    i: int,
)
    requires
        0 <= i <= l.len(),
        l.len() == r.len(),
        ipp_challenges(log, l.take(i), r.take(i)) is None,
    ensures
        ipp_challenges(log, l, r) is None,
    decreases l.len() - i,
{
    if i < l.len() {
        assert(l.take(i + 1).drop_last() =~= l.take(i));
        assert(r.take(i + 1).drop_last() =~= r.take(i));
        lemma_challenges_fail(log, l, r, i + 1);
    } else {
        assert(l.take(i) =~= l);
        assert(r.take(i) =~= r);
    }
}

/// The scalars of the verification equation of a proof over `n`
/// generators: `a b` for `Q`, `a s_i` times its factor for `G_i`, `b / s_i`
/// times its factor for `H_i`, and the negated squares of the challenges
/// and of their inverses for the left and the right points.
pub open spec fn verify_scalars(
    p: InnerProductProofData,
    v: VerificationScalars,
    gf: Seq<nat>,
    hf: Seq<nat>,
) -> Seq<nat> {
    let n = v.s.len() as int;
    seq![fmul(p.a, p.b)] + Seq::new(n as nat, |i: int| fmul(fmul(p.a, v.s[i]), gf[i])) + Seq::new(
        n as nat,
        |i: int| fmul(fmul(p.b, v.s[n - 1 - i]), hf[i]),
    ) + Seq::new(v.u_sq.len(), |i: int| fneg(v.u_sq[i])) + Seq::new(
        v.u_inv_sq.len(),
        |i: int| fneg(v.u_inv_sq[i]),
    )
}

/// Whether the proof shows that `P` is `<a, G'> + <b, H'> + <a, b> Q` for
/// vectors `a`, `b` that the prover knows, `G'` and `H'` being the
/// generators scaled by their factors: the replay of the rounds succeeds,
/// every point of the proof decodes, and
/// `a b Q + <a s, G'> + <b / s, H'> - sum of u_j^2 L_j - sum of u_j^(-2) R_j`
/// is `P`.
pub open spec fn ipp_verifies(
    log: Seq<TranscriptEvent>,
    p: InnerProductProofData,
    n: nat,
    gf: Seq<nat>,
    hf: Seq<nat>,
    big_p: Seq<u8>,
    q: Seq<u8>,
    g: Seq<Seq<u8>>,
    h: Seq<Seq<u8>>,
) -> bool {
    match ipp_verification(log, p, n) {
        None => false,
        Some((v, _)) => {
            &&& forall|i: int| 0 <= i < p.l_vec.len() ==> ristretto_decodes(#[trigger] p.l_vec[i])
            &&& forall|i: int| 0 <= i < p.r_vec.len() ==> ristretto_decodes(#[trigger] p.r_vec[i])
            &&& msm(verify_scalars(p, v, gf, hf), seq![q] + g + h + p.l_vec + p.r_vec) == big_p
        },
    }
}

/// The bytes of the pairs of points, pair by pair.
pub open spec fn lr_bytes(l: Seq<Seq<u8>>, r: Seq<Seq<u8>>) -> Seq<u8>
    decreases l.len(),
{
    if l.len() == 0 {
        Seq::empty()
    } else {
        lr_bytes(l.drop_last(), r.drop_last()) + l.last() + r.last()
    }
}

/// The encoding of a proof: the pairs of points, then the two scalars.
pub open spec fn ipp_serialize(p: InnerProductProofData) -> Seq<u8> {
    lr_bytes(p.l_vec, p.r_vec) + le_bytes(p.a, 32) + le_bytes(p.b, 32)
}

/// The proof that bytes encode, if they encode one: their length is an
/// even number, at least two and less than 66, of blocks of 32 bytes, and
/// the last two blocks are canonical scalars.
pub open spec fn ipp_parse(bytes: Seq<u8>) -> Option<InnerProductProofData> {
    let blocks = bytes.len() as int / 32;
    let k = (blocks - 2) / 2;
    if bytes.len() % 32 != 0 || blocks < 2 || (blocks - 2) % 2 != 0 || k >= 32 {
        None
    } else {
        let a = le_nat(bytes.subrange(64 * k, 64 * k + 32));
        let b = le_nat(bytes.subrange(64 * k + 32, 64 * k + 64));
        if a >= group_order() || b >= group_order() {
            None
        } else {
            Some(
                InnerProductProofData {
                    l_vec: Seq::new(k as nat, |i: int| bytes.subrange(64 * i, 64 * i + 32)),
                    r_vec: Seq::new(k as nat, |i: int| bytes.subrange(64 * i + 32, 64 * i + 64)),
                    a,
                    b,
                },
            )
        }
    }
}

pub proof fn lemma_lr_bytes(l: Seq<Seq<u8>>, r: Seq<Seq<u8>>)
    requires
        l.len() == r.len(),
        forall|i: int| 0 <= i < l.len() ==> (#[trigger] l[i]).len() == 32,
        forall|i: int| 0 <= i < r.len() ==> (#[trigger] r[i]).len() == 32,
    ensures
        lr_bytes(l, r).len() == 64 * l.len(),
        forall|i: int|
            0 <= i < l.len() ==> #[trigger] lr_bytes(l, r).subrange(64 * i, 64 * i + 32) == l[i],
        forall|i: int|
            0 <= i < l.len() ==> #[trigger] lr_bytes(l, r).subrange(64 * i + 32, 64 * i + 64)
                == r[i],
    decreases l.len(),
{
    if l.len() > 0 {
        let l0 = l.drop_last();
        let r0 = r.drop_last();
        lemma_lr_bytes(l0, r0);
        let all = lr_bytes(l, r);
        let front = lr_bytes(l0, r0);
        assert forall|i: int| 0 <= i < l.len() implies #[trigger] all.subrange(64 * i, 64 * i + 32)
            == l[i] by {
            if i < l0.len() {
                assert(all.subrange(64 * i, 64 * i + 32) =~= front.subrange(64 * i, 64 * i + 32));
                assert(l0[i] == l[i]);
            } else {
                assert(all.subrange(64 * i, 64 * i + 32) =~= l.last());
            }
        }
        assert forall|i: int| 0 <= i < l.len() implies #[trigger] all.subrange(
            64 * i + 32,
            64 * i + 64,
        ) == r[i] by {
            if i < l0.len() {
                assert(all.subrange(64 * i + 32, 64 * i + 64) =~= front.subrange(
                    64 * i + 32,
                    64 * i + 64,
                ));
                assert(r0[i] == r[i]);
            } else {
                assert(all.subrange(64 * i + 32, 64 * i + 64) =~= r.last());
            }
        }
    }
}

/// Decoding the encoding of a proof of fewer than 32 rounds gives the proof
/// back.
pub proof fn lemma_ipp_parse_serialize(p: InnerProductProofData)
    requires
        p.wf(),
        p.l_vec.len() < 32,
    ensures
        ipp_parse(ipp_serialize(p)) == Some(p),
        ipp_serialize(p).len() == 32 * (2 * p.l_vec.len() + 2),
{
    let k = p.l_vec.len() as int;
    let bytes = ipp_serialize(p);
    let front = lr_bytes(p.l_vec, p.r_vec);
    lemma_lr_bytes(p.l_vec, p.r_vec);
    lemma_le_bytes_len(p.a, 32);
    lemma_le_bytes_len(p.b, 32);
    lemma_radix_32();
    lemma_le_nat_of_le_bytes(p.a, 32);
    lemma_le_nat_of_le_bytes(p.b, 32);
    assert(bytes.len() == 64 * k + 64);
    assert(bytes.subrange(64 * k, 64 * k + 32) =~= le_bytes(p.a, 32));
    assert(bytes.subrange(64 * k + 32, 64 * k + 64) =~= le_bytes(p.b, 32));
    let q = ipp_parse(bytes).unwrap();
    assert forall|i: int| 0 <= i < k implies #[trigger] q.l_vec[i] == p.l_vec[i] by {
        assert(bytes.subrange(64 * i, 64 * i + 32) =~= front.subrange(64 * i, 64 * i + 32));
    }
    assert forall|i: int| 0 <= i < k implies #[trigger] q.r_vec[i] == p.r_vec[i] by {
        assert(bytes.subrange(64 * i + 32, 64 * i + 64) =~= front.subrange(
            64 * i + 32,
            64 * i + 64,
        ));
    }
    assert(q.l_vec =~= p.l_vec);
    assert(q.r_vec =~= p.r_vec);
}

/// An inner product proof.
#[derive(Debug)]
pub struct InnerProductProof {
    pub(crate) L_vec: Vec<CompressedRistretto>,
    pub(crate) R_vec: Vec<CompressedRistretto>,
    pub(crate) a: Scalar,
    pub(crate) b: Scalar,
}

impl View for InnerProductProof {
    type V = InnerProductProofData;

    closed spec fn view(&self) -> InnerProductProofData {
        InnerProductProofData {
            l_vec: self.L_vec.deep_view(),
            r_vec: self.R_vec.deep_view(),
            a: self.a@,
            b: self.b@,
        }
    }
}

impl Clone for InnerProductProof {
    fn clone(&self) -> (r: InnerProductProof)
        ensures
            r@ == self@,
    {
        proof {
            use_type_invariant(self);
        }
        let l = copy_points(&self.L_vec);
        let r = copy_points(&self.R_vec);
        InnerProductProof { L_vec: l, R_vec: r, a: self.a, b: self.b }
    }
}

/// A copy of a vector of encodings.
fn copy_points(v: &Vec<CompressedRistretto>) -> (r: Vec<CompressedRistretto>)
    ensures
        r@ == v@,
{
    let mut out: Vec<CompressedRistretto> = Vec::new();
    let mut i: usize = 0;
    while i < v.len()
        invariant
            i <= v.len(),
            out@ == v@.take(i as int),
        decreases v.len() - i,
    {
        out.push(v[i]);
        assert(v@.take(i + 1) =~= v@.take(i as int).push(v@[i as int]));
        i += 1;
    }
    assert(v@.take(v.len() as int) =~= v@);
    out
}

/// The elementwise product of two slices of one length.
fn mul_slices(x: &[Scalar], y: &[Scalar]) -> (r: Vec<Scalar>)
    requires
        x.len() == y.len(),
    ensures
        r.deep_view() == hadamard(x.deep_view(), y.deep_view()),
{
    let mut out: Vec<Scalar> = Vec::new();
    let mut i: usize = 0;
    while i < x.len()
        invariant
            i <= x.len(),
            x.len() == y.len(),
            out.len() == i,
            forall|k: int| 0 <= k < i ==> (#[trigger] out[k])@ == fmul(x[k]@, y[k]@),
        decreases x.len() - i,
    {
        out.push(x[i].mul(&y[i]));
        i += 1;
    }
    assert(out.deep_view() =~= hadamard(x.deep_view(), y.deep_view()));
    out
}

/// Two slices and one more item, in a row.
fn concat<T: Copy>(x: &[T], y: &[T], z: T) -> (r: Vec<T>)
    ensures
        r@ == x@ + y@ + seq![z],
{
    let mut out: Vec<T> = Vec::new();
    let mut i: usize = 0;
    while i < x.len()
        invariant
            i <= x.len(),
            out@ == x@.take(i as int),
        decreases x.len() - i,
    {
        out.push(x[i]);
        assert(x@.take(i + 1) =~= x@.take(i as int).push(x@[i as int]));
        i += 1;
    }
    assert(x@.take(x.len() as int) =~= x@);
    let mut j: usize = 0;
    while j < y.len()
        invariant
            j <= y.len(),
            out@ == x@ + y@.take(j as int),
        decreases y.len() - j,
    {
        out.push(y[j]);
        assert(y@.take(j + 1) =~= y@.take(j as int).push(y@[j as int]));
        assert(out@ =~= x@ + y@.take(j + 1));
        j += 1;
    }
    assert(y@.take(y.len() as int) =~= y@);
    out.push(z);
    assert(out@ =~= x@ + y@ + seq![z]);
    out
}

/// `sa * pa + sb * pb`.
fn msm2(sa: Scalar, sb: Scalar, pa: RistrettoElement, pb: RistrettoElement) -> (r: RistrettoElement)
    ensures
        r@ == msm(seq![sa@, sb@], seq![pa@, pb@]),
{
    let scalars = [sa, sb];
    let points = [pa, pb];
    let s = scalars.as_slice();
    let p = points.as_slice();
    assert(s.deep_view() =~= seq![sa@, sb@]);
    assert(p.deep_view() =~= seq![pa@, pb@]);
    RistrettoElement::vartime_sum_of_products(s, p)
}

/// One of the two points of a round:
/// `<x, G'> + <y, H'> + <x, y> Q`, the generators scaled by their factors.
fn round_point(
    x: &[Scalar],
    gf: &[Scalar],
    g: &[RistrettoElement],
    y: &[Scalar],
    hf: &[Scalar],
    h: &[RistrettoElement],
    q: &RistrettoElement,
) -> (r: RistrettoElement)
    requires
        x.len() == gf.len(),
        x.len() == g.len(),
        x.len() == y.len(),
        x.len() == hf.len(),
        x.len() == h.len(),
        2 * x.len() + 1 <= usize::MAX,
    ensures
        r@ == msm(
            hadamard(x.deep_view(), gf.deep_view()) + hadamard(y.deep_view(), hf.deep_view())
                + seq![inner_product_value(x.deep_view(), y.deep_view())],
            g.deep_view() + h.deep_view() + seq![q@],
        ),
{
    let c = inner_product(x, y);
    let xs = mul_slices(x, gf);
    let ys = mul_slices(y, hf);
    let scalars = concat(xs.as_slice(), ys.as_slice(), c);
    let points = concat(g, h, *q);
    assert(scalars.deep_view() =~= hadamard(x.deep_view(), gf.deep_view()) + hadamard(
        y.deep_view(),
        hf.deep_view(),
    ) + seq![c@]);
    assert(points.deep_view() =~= g.deep_view() + h.deep_view() + seq![q@]);
    point_vartime_msm(scalars.as_slice(), points.as_slice())
}

impl InnerProductProof {
    #[verifier::type_invariant]
    spec fn wf(self) -> bool {
        self.L_vec.len() == self.R_vec.len() && self.L_vec.len() <= 64
    }

    /// The proof for vectors `a_vec`, `b_vec` of a length that is a power
    /// of two, over the generators `G_vec`, `H_vec` scaled by `G_factors`,
    /// `H_factors`, with `Q` multiplying the inner product.
    pub fn create(
        transcript: &mut Transcript,
        Q: &RistrettoElement,
        G_factors: &[Scalar],
        H_factors: &[Scalar],
        G_vec: Vec<RistrettoElement>,
        H_vec: Vec<RistrettoElement>,
        a_vec: Vec<Scalar>,
        b_vec: Vec<Scalar>,
    ) -> (r: InnerProductProof)
        requires
            is_pow2(a_vec.len() as nat),
            b_vec.len() == a_vec.len(),
            G_vec.len() == a_vec.len(),
            H_vec.len() == a_vec.len(),
            G_factors.len() == a_vec.len(),
            H_factors.len() == a_vec.len(),
        ensures
            (r@, transcript_log(*final(transcript))) == ipp_create(
                transcript_log(*old(transcript)),
                Q@,
                G_factors.deep_view(),
                H_factors.deep_view(),
                G_vec.deep_view(),
                H_vec.deep_view(),
                a_vec.deep_view(),
                b_vec.deep_view(),
            ),
            r@.l_vec.len() == log2(a_vec.len() as nat),
    {
        let mut n: usize = a_vec.len();
        let mut g = G_vec;
        let mut h = H_vec;
        let mut a = a_vec;
        let mut b = b_vec;
        let mut gf: Vec<Scalar> = crate::util::powers(&Scalar::one(), 0);
        let mut hf: Vec<Scalar> = crate::util::powers(&Scalar::one(), 0);
        let mut first = true;
        innerproduct_domain_sep(transcript, n as u64);
        let ghost st0 = IppProver {
            log: transcript_log(*transcript),
            q: Q@,
            gf: G_factors.deep_view(),
            hf: H_factors.deep_view(),
            g: g.deep_view(),
            h: h.deep_view(),
            a: a.deep_view(),
            b: b.deep_view(),
        };
        let ghost mut st = st0;
        let mut lv: Vec<CompressedRistretto> = Vec::new();
        let mut rv: Vec<CompressedRistretto> = Vec::new();
        let one = Scalar::one();
        proof {
            lemma_pow2_log2(n as nat);
            lemma_two_pow_64();
            if log2(n as nat) >= 64 {
                lemma_two_pow_monotone(64, log2(n as nat));
            }
            assert(lv.deep_view() =~= Seq::<Seq<u8>>::empty());
            assert(rv.deep_view() =~= Seq::<Seq<u8>>::empty());
            assert(ipp_fold(st0).0.l_vec =~= lv.deep_view() + ipp_fold(st).0.l_vec);
            assert(ipp_fold(st0).0.r_vec =~= rv.deep_view() + ipp_fold(st).0.r_vec);
        }
        while n > 1
            invariant
                n >= 1,
                is_pow2(n as nat),
                st.has_len(n as nat),
                st.q == Q@,
                st.log == transcript_log(*transcript),
                st.g == g.deep_view(),
                st.h == h.deep_view(),
                st.a == a.deep_view(),
                st.b == b.deep_view(),
                first ==> st.gf == G_factors.deep_view() && st.hf == H_factors.deep_view(),
                !first ==> st.gf == gf.deep_view() && st.hf == hf.deep_view(),
                one@ == 1,
                lv.len() == rv.len(),
                lv.len() + log2(n as nat) == log2(st0.a.len()),
                log2(st0.a.len()) < 64,
                ipp_fold(st0).0.l_vec == lv.deep_view() + ipp_fold(st).0.l_vec,
                ipp_fold(st0).0.r_vec == rv.deep_view() + ipp_fold(st).0.r_vec,
                ipp_fold(st0).0.a == ipp_fold(st).0.a,
                ipp_fold(st0).0.b == ipp_fold(st).0.b,
                ipp_fold(st0).1 == ipp_fold(st).1,
            decreases n,
        {
            let k = n / 2;
            let gfs: &[Scalar] = if first {
                G_factors
            } else {
                gf.as_slice()
            };
            let hfs: &[Scalar] = if first {
                H_factors
            } else {
                hf.as_slice()
            };
            let a_l = slice_subrange(a.as_slice(), 0, k);
            let a_r = slice_subrange(a.as_slice(), k, n);
            let b_l = slice_subrange(b.as_slice(), 0, k);
            let b_r = slice_subrange(b.as_slice(), k, n);
            let g_l = slice_subrange(g.as_slice(), 0, k);
            let g_r = slice_subrange(g.as_slice(), k, n);
            let h_l = slice_subrange(h.as_slice(), 0, k);
            let h_r = slice_subrange(h.as_slice(), k, n);
            let gf_l = slice_subrange(gfs, 0, k);
            let gf_r = slice_subrange(gfs, k, n);
            let hf_l = slice_subrange(hfs, 0, k);
            let hf_r = slice_subrange(hfs, k, n);
            proof {
                let ki = k as int;
                let ni = n as int;
                assert(st.half() == ki);
                assert(a_l.deep_view() =~= st.a.subrange(0, ki));
                assert(a_r.deep_view() =~= st.a.subrange(ki, ni));
                assert(b_l.deep_view() =~= st.b.subrange(0, ki));
                assert(b_r.deep_view() =~= st.b.subrange(ki, ni));
                assert(g_l.deep_view() =~= st.g.subrange(0, ki));
                assert(g_r.deep_view() =~= st.g.subrange(ki, ni));
                assert(h_l.deep_view() =~= st.h.subrange(0, ki));
                assert(h_r.deep_view() =~= st.h.subrange(ki, ni));
                assert(gf_l.deep_view() =~= st.gf.subrange(0, ki));
                assert(gf_r.deep_view() =~= st.gf.subrange(ki, ni));
                assert(hf_l.deep_view() =~= st.hf.subrange(0, ki));
                assert(hf_r.deep_view() =~= st.hf.subrange(ki, ni));
            }
            let l_point = round_point(a_l, gf_r, g_r, b_r, hf_l, h_l, Q).compress();
            let r_point = round_point(a_r, gf_l, g_l, b_l, hf_r, h_r, Q).compress();
            assert(l_point@ == st.l_point());
            assert(r_point@ == st.r_point());
            append_point(transcript, "L", &l_point);
            append_point(transcript, "R", &r_point);
            let u = challenge_scalar(transcript, "u");
            let u_inv = u.invert();
            assert(u@ == st.challenge());

            let mut a2: Vec<Scalar> = Vec::new();
            let mut b2: Vec<Scalar> = Vec::new();
            let mut g2: Vec<RistrettoElement> = Vec::new();
            let mut h2: Vec<RistrettoElement> = Vec::new();
            let mut ones: Vec<Scalar> = Vec::new();
            let ghost nx = st.next();
            let mut i: usize = 0;
            while i < k
                invariant
                    i <= k,
                    k == n / 2,
                    n >= 2,
                    n % 2 == 0,
                    st.has_len(n as nat),
                    st.g == g.deep_view(),
                    st.h == h.deep_view(),
                    st.a == a.deep_view(),
                    st.b == b.deep_view(),
                    st.gf == gfs.deep_view(),
                    st.hf == hfs.deep_view(),
                    nx == st.next(),
                    u@ == st.challenge(),
                    u_inv@ == finv(u@),
                    one@ == 1,
                    a2.len() == i,
                    b2.len() == i,
                    g2.len() == i,
                    h2.len() == i,
                    ones.len() == i,
                    forall|j: int| 0 <= j < i ==> (#[trigger] a2[j])@ == nx.a[j],
                    forall|j: int| 0 <= j < i ==> (#[trigger] b2[j])@ == nx.b[j],
                    forall|j: int| 0 <= j < i ==> (#[trigger] g2[j])@ == nx.g[j],
                    forall|j: int| 0 <= j < i ==> (#[trigger] h2[j])@ == nx.h[j],
                    forall|j: int| 0 <= j < i ==> (#[trigger] ones[j])@ == 1,
                decreases k - i,
            {
                let ai = a[i].mul(&u).add(&u_inv.mul(&a[k + i]));
                let bi = b[i].mul(&u_inv).add(&u.mul(&b[k + i]));
                let gi = msm2(u_inv.mul(&gfs[i]), u.mul(&gfs[k + i]), g[i], g[k + i]);
                let hi = msm2(u.mul(&hfs[i]), u_inv.mul(&hfs[k + i]), h[i], h[k + i]);
                proof {
                    assert(st.a[i as int] == a[i as int]@);
                    assert(st.a[k + i] == a[k + i]@);
                    assert(st.b[i as int] == b[i as int]@);
                    assert(st.b[k + i] == b[k + i]@);
                    assert(st.g[i as int] == g[i as int]@);
                    assert(st.g[k + i] == g[k + i]@);
                    assert(st.h[i as int] == h[i as int]@);
                    assert(st.h[k + i] == h[k + i]@);
                    assert(st.gf[i as int] == gfs[i as int]@);
                    assert(st.gf[k + i] == gfs[k + i]@);
                    assert(st.hf[i as int] == hfs[i as int]@);
                    assert(st.hf[k + i] == hfs[k + i]@);
                }
                a2.push(ai);
                b2.push(bi);
                g2.push(gi);
                h2.push(hi);
                ones.push(one);
                i += 1;
            }
            proof {
                assert(a2.deep_view() =~= nx.a);
                assert(b2.deep_view() =~= nx.b);
                assert(g2.deep_view() =~= nx.g);
                assert(h2.deep_view() =~= nx.h);
                assert(ones.deep_view() =~= nx.gf);
                assert(ones.deep_view() =~= nx.hf);
                let before = ipp_fold(st);
                let after = ipp_fold(nx);
                assert(before.0.l_vec == seq![st.l_point()] + after.0.l_vec);
                assert(lv.deep_view().push(l_point@) + after.0.l_vec =~= lv.deep_view()
                    + before.0.l_vec);
                assert(rv.deep_view().push(r_point@) + after.0.r_vec =~= rv.deep_view()
                    + before.0.r_vec);
            }
            let ghost lv_old = lv.deep_view();
            let ghost rv_old = rv.deep_view();
            lv.push(l_point);
            rv.push(r_point);
            proof {
                assert(lv.deep_view() =~= lv_old.push(l_point@));
                assert(rv.deep_view() =~= rv_old.push(r_point@));
                st = nx;
            }
            hf = ones.clone();
            assert(hf.deep_view() =~= ones.deep_view());
            gf = ones;
            a = a2;
            b = b2;
            g = g2;
            h = h2;
            first = false;
            n = k;
        }
        proof {
            assert(ipp_fold(st).0.l_vec =~= Seq::<Seq<u8>>::empty());
            assert(ipp_fold(st).0.r_vec =~= Seq::<Seq<u8>>::empty());
            assert(ipp_fold(st0).0.l_vec =~= lv.deep_view());
            assert(ipp_fold(st0).0.r_vec =~= rv.deep_view());
            assert(st.a[0] == a[0]@);
            assert(st.b[0] == b[0]@);
        }
        InnerProductProof { L_vec: lv, R_vec: rv, a: a[0], b: b[0] }
    }

    /// The squares of the challenges, the squares of their inverses and the
    /// coefficients of the `n` generators, from a replay of the rounds on the
    /// transcript. `VerificationError` if the proof has 32 rounds or more, if
    /// `n` is not two to the number of rounds, or if a point is the encoding
    /// of the neutral element.
    pub fn verification_scalars(&self, n: usize, transcript: &mut Transcript) -> (r: Result<
        (Vec<Scalar>, Vec<Scalar>, Vec<Scalar>),
        ProofError,
    >)
        ensures
            match ipp_verification(transcript_log(*old(transcript)), self@, n as nat) {
                Some((v, log)) => r is Ok && r.unwrap().0.deep_view() == v.u_sq
                    && r.unwrap().1.deep_view() == v.u_inv_sq && r.unwrap().2.deep_view() == v.s
                    && transcript_log(*final(transcript)) == log,
                None => r == Err::<(Vec<Scalar>, Vec<Scalar>, Vec<Scalar>), ProofError>(
                    ProofError::VerificationError,
                ),
            },
    {
        proof {
            use_type_invariant(self);
        }
        let lg_n = self.L_vec.len();
        if lg_n >= 32 {
            return Err(ProofError::VerificationError);
        }
        let mut size: u64 = 1;
        let mut j: usize = 0;
        proof {
            lemma_two_pow_64();
        }
        while j < lg_n
            invariant
                j <= lg_n,
                lg_n < 32,
                size == two_pow(j as nat),
                size <= 0x1_0000_0000,
                two_pow(32) == 0x1_0000_0000,
            decreases lg_n - j,
        {
            proof {
                lemma_two_pow_monotone((j + 1) as nat, 32);
            }
            size = size * 2;
            j += 1;
        }
        if n as u64 != size {
            return Err(ProofError::VerificationError);
        }
        innerproduct_domain_sep(transcript, n as u64);
        let ghost log0 = transcript_log(*transcript);
        let ghost l = self.L_vec.deep_view();
        let ghost r = self.R_vec.deep_view();
        let mut challenges: Vec<Scalar> = Vec::new();
        let mut i: usize = 0;
        assert(challenges.deep_view() =~= Seq::<nat>::empty());
        assert(l.take(0) =~= Seq::<Seq<u8>>::empty());
        while i < lg_n
            invariant
                i <= lg_n,
                lg_n == self.L_vec.len(),
                lg_n == self.R_vec.len(),
                l == self.L_vec.deep_view(),
                r == self.R_vec.deep_view(),
                challenges.len() == i,
                lg_n < 32,
                n == two_pow(lg_n as nat),
                self@.l_vec == l,
                self@.r_vec == r,
                log0 == log_innerproduct_domain_sep(transcript_log(*old(transcript)), n as nat),
                ipp_challenges(log0, l.take(i as int), r.take(i as int)) == Some(
                    (challenges.deep_view(), transcript_log(*transcript)),
                ),
            decreases lg_n - i,
        {
            proof {
                assert(l.take(i + 1).drop_last() =~= l.take(i as int));
                assert(r.take(i + 1).drop_last() =~= r.take(i as int));
            }
            proof {
                assert(l.take(i + 1).last() == self.L_vec[i as int]@);
                assert(r.take(i + 1).last() == self.R_vec[i as int]@);
            }
            let l_ok = validate_and_append_point(transcript, "L", &self.L_vec[i]);
            if l_ok.is_err() {
                proof {
                    assert(ipp_challenges(log0, l.take(i + 1), r.take(i + 1)) is None);
                    lemma_challenges_fail(log0, l, r, i + 1);
                }
                return Err(ProofError::VerificationError);
            }
            let r_ok = validate_and_append_point(transcript, "R", &self.R_vec[i]);
            if r_ok.is_err() {
                proof {
                    assert(ipp_challenges(log0, l.take(i + 1), r.take(i + 1)) is None);
                    lemma_challenges_fail(log0, l, r, i + 1);
                }
                return Err(ProofError::VerificationError);
            }
            let ghost before = challenges.deep_view();
            let u = challenge_scalar(transcript, "u");
            challenges.push(u);
            assert(challenges.deep_view() =~= before.push(u@));
            i += 1;
        }
        proof {
            assert(l.take(lg_n as int) =~= l);
            assert(r.take(lg_n as int) =~= r);
        }
        let ghost us = challenges.deep_view();
        let mut u_sq: Vec<Scalar> = Vec::new();
        let mut u_inv_sq: Vec<Scalar> = Vec::new();
        let mut allinv = Scalar::one();
        let mut t: usize = 0;
        assert(us.take(0) =~= Seq::<nat>::empty());
        while t < lg_n
            invariant
                t <= lg_n,
                lg_n == challenges.len(),
                us == challenges.deep_view(),
                u_sq.len() == t,
                u_inv_sq.len() == t,
                allinv@ == inv_product(us.take(t as int)),
                forall|k: int|
                    0 <= k < t ==> (#[trigger] us[k]) < group_order() && (us[k] == 0 || is_inverse(
                        us[k],
                        finv(us[k]),
                    )),
                forall|k: int| 0 <= k < t ==> (#[trigger] u_sq[k])@ == fmul(us[k], us[k]),
                forall|k: int|
                    0 <= k < t ==> (#[trigger] u_inv_sq[k])@ == fmul(finv(us[k]), finv(us[k])),
            decreases lg_n - t,
        {
            let u = challenges[t];
            let u_inv = u.invert();
            proof {
                assert(us.take(t + 1).drop_last() =~= us.take(t as int));
                assert(us[t as int] == u@);
            }
            allinv = allinv.mul(&u_inv);
            u_sq.push(u.mul(&u));
            u_inv_sq.push(u_inv.mul(&u_inv));
            t += 1;
        }
        proof {
            assert(us.take(lg_n as int) =~= us);
        }
        assert(invertible(us));
        let mut s: Vec<Scalar> = Vec::new();
        s.push(allinv);
        let mut lg: usize = 0;
        let mut k: usize = 1;
        let mut m: usize = 1;
        proof {
            lemma_two_pow_is_pow2(lg_n as nat);
        }
        while m < n
            invariant
                1 <= m <= n,
                n == two_pow(lg_n as nat),
                n <= 0x1_0000_0000,
                lg_n < 32,
                lg_n == u_sq.len(),
                us.len() == lg_n,
                k == two_pow(lg as nat),
                k <= m,
                m - k <= k,
                lg <= lg_n,
                s.len() == m,
                forall|c: int| 0 <= c < lg_n ==> (#[trigger] u_sq[c])@ == fmul(us[c], us[c]),
                forall|c: int| 0 <= c < m ==> (#[trigger] s[c])@ == s_value(us, c as nat),
            decreases n - m,
        {
            if m - k == k {
                k = m;
                lg = lg + 1;
            }
            proof {
                assert(two_pow((lg + 1) as nat) == 2 * two_pow(lg as nat));
                lemma_log2_between(m as nat, lg as nat);
                if lg >= lg_n {
                    lemma_two_pow_monotone(lg_n as nat, lg as nat);
                }
            }
            let v = s[m - k].mul(&u_sq[lg_n - 1 - lg]);
            s.push(v);
            m += 1;
        }
        proof {
            let want = scalars_of(us, n as nat);
            assert(u_sq.deep_view() =~= want.u_sq);
            assert(u_inv_sq.deep_view() =~= want.u_inv_sq);
            assert forall|c: int| 0 <= c < n implies s.deep_view()[c] == want.s[c] by {
                assert(s.deep_view()[c] == s[c]@);
                lemma_s_value_is_product(us, c as nat);
            }
            assert(s.deep_view() =~= want.s);
        }
        Ok((u_sq, u_inv_sq, s))
    }

    /// Verifies the proof for `n` generators `G`, `H` scaled by `G_factors`,
    /// `H_factors`, against the commitment `P`, with `Q` multiplying the
    /// inner product. Anything that does not hold is a `VerificationError`.
    pub fn verify(
        &self,
        n: usize,
        transcript: &mut Transcript,
        G_factors: &[Scalar],
        H_factors: &[Scalar],
        P: &RistrettoElement,
        Q: &RistrettoElement,
        G: &[RistrettoElement],
        H: &[RistrettoElement],
    ) -> (r: Result<(), ProofError>)
        requires
            G.len() == n,
            H.len() == n,
            G_factors.len() == n,
            H_factors.len() == n,
        ensures
            r is Ok <==> ipp_verifies(
                transcript_log(*old(transcript)),
                self@,
                n as nat,
                G_factors.deep_view(),
                H_factors.deep_view(),
                P@,
                Q@,
                G.deep_view(),
                H.deep_view(),
            ),
            r is Err ==> r == Err::<(), ProofError>(ProofError::VerificationError),
            r is Ok ==> transcript_log(*final(transcript)) == ipp_verification(
                transcript_log(*old(transcript)),
                self@,
                n as nat,
            ).unwrap().1,
    {
        proof {
            use_type_invariant(self);
        }
        let ghost log0 = transcript_log(*transcript);
        let (u_sq, u_inv_sq, s) = match self.verification_scalars(n, transcript) {
            Ok(v) => v,
            Err(e) => {
                return Err(e);
            },
        };
        let ghost v = ipp_verification(log0, self@, n as nat).unwrap().0;
        let ghost pd = self@;
        let lg = self.L_vec.len();
        proof {
            lemma_challenges_len(
                log_innerproduct_domain_sep(log0, n as nat),
                self@.l_vec,
                self@.r_vec,
            );
            assert(u_sq.len() == u_sq.deep_view().len());
            assert(u_inv_sq.len() == u_inv_sq.deep_view().len());
            assert(s.len() == s.deep_view().len());
        }
        let ghost want_s = verify_scalars(pd, v, G_factors.deep_view(), H_factors.deep_view());
        let ghost want_p = seq![Q@] + G.deep_view() + H.deep_view() + pd.l_vec + pd.r_vec;
        let mut scalars: Vec<Scalar> = Vec::new();
        let mut points: Vec<RistrettoElement> = Vec::new();
        scalars.push(self.a.mul(&self.b));
        points.push(*Q);
        let mut i: usize = 0;
        while i < n
            invariant
                i <= n,
                n == s.len(),
                n == G.len(),
                n == G_factors.len(),
                pd == self@,
                s.deep_view() == v.s,
                want_s == verify_scalars(pd, v, G_factors.deep_view(), H_factors.deep_view()),
                want_p == seq![Q@] + G.deep_view() + H.deep_view() + pd.l_vec + pd.r_vec,
                scalars.len() == 1 + i,
                points.len() == 1 + i,
                forall|k: int| 0 <= k < 1 + i ==> (#[trigger] scalars[k])@ == want_s[k],
                forall|k: int| 0 <= k < 1 + i ==> (#[trigger] points[k])@ == want_p[k],
            decreases n - i,
        {
            proof {
                assert(s.deep_view()[i as int] == s[i as int]@);
                assert(G.deep_view()[i as int] == G[i as int]@);
                assert(G_factors.deep_view()[i as int] == G_factors[i as int]@);
            }
            scalars.push(self.a.mul(&s[i]).mul(&G_factors[i]));
            points.push(G[i]);
            i += 1;
        }
        let mut i: usize = 0;
        while i < n
            invariant
                i <= n,
                n == s.len(),
                n == G.len(),
                n == H.len(),
                n == H_factors.len(),
                pd == self@,
                s.deep_view() == v.s,
                want_s == verify_scalars(pd, v, G_factors.deep_view(), H_factors.deep_view()),
                want_p == seq![Q@] + G.deep_view() + H.deep_view() + pd.l_vec + pd.r_vec,
                scalars.len() == 1 + n + i,
                points.len() == 1 + n + i,
                forall|k: int| 0 <= k < 1 + n + i ==> (#[trigger] scalars[k])@ == want_s[k],
                forall|k: int| 0 <= k < 1 + n + i ==> (#[trigger] points[k])@ == want_p[k],
            decreases n - i,
        {
            proof {
                assert(s.deep_view()[n - 1 - i] == s[n - 1 - i]@);
                assert(H.deep_view()[i as int] == H[i as int]@);
                assert(H_factors.deep_view()[i as int] == H_factors[i as int]@);
            }
            scalars.push(self.b.mul(&s[n - 1 - i]).mul(&H_factors[i]));
            points.push(H[i]);
            i += 1;
        }
        let mut i: usize = 0;
        while i < lg
            invariant
                i <= lg,
                lg == self.L_vec.len(),
                lg == u_sq.len(),
                n == s.len(),
                n == G.len(),
                n == H.len(),
                pd == self@,
                s.deep_view() == v.s,
                u_sq.deep_view() == v.u_sq,
                v.u_inv_sq.len() == lg,
                want_s == verify_scalars(pd, v, G_factors.deep_view(), H_factors.deep_view()),
                want_p == seq![Q@] + G.deep_view() + H.deep_view() + pd.l_vec + pd.r_vec,
                scalars.len() == 1 + n + n + i,
                points.len() == 1 + n + n + i,
                forall|k: int| 0 <= k < i ==> ristretto_decodes(#[trigger] pd.l_vec[k]),
                forall|k: int| 0 <= k < 1 + n + n + i ==> (#[trigger] scalars[k])@ == want_s[k],
                forall|k: int| 0 <= k < 1 + n + n + i ==> (#[trigger] points[k])@ == want_p[k],
            decreases lg - i,
        {
            proof {
                assert(u_sq.deep_view()[i as int] == u_sq[i as int]@);
                assert(pd.l_vec[i as int] == self.L_vec[i as int]@);
            }
            let point = match self.L_vec[i].decompress() {
                Some(p) => p,
                None => {
                    return Err(ProofError::VerificationError);
                },
            };
            scalars.push(u_sq[i].neg());
            points.push(point);
            i += 1;
        }
        let mut i: usize = 0;
        while i < lg
            invariant
                i <= lg,
                lg == self.L_vec.len(),
                lg == self.R_vec.len(),
                lg == u_sq.len(),
                lg == u_inv_sq.len(),
                n == s.len(),
                n == G.len(),
                n == H.len(),
                pd == self@,
                s.deep_view() == v.s,
                u_sq.deep_view() == v.u_sq,
                u_inv_sq.deep_view() == v.u_inv_sq,
                want_s == verify_scalars(pd, v, G_factors.deep_view(), H_factors.deep_view()),
                want_p == seq![Q@] + G.deep_view() + H.deep_view() + pd.l_vec + pd.r_vec,
                scalars.len() == 1 + n + n + lg + i,
                points.len() == 1 + n + n + lg + i,
                forall|k: int| 0 <= k < lg ==> ristretto_decodes(#[trigger] pd.l_vec[k]),
                forall|k: int| 0 <= k < i ==> ristretto_decodes(#[trigger] pd.r_vec[k]),
                forall|k: int|
                    0 <= k < 1 + n + n + lg + i ==> (#[trigger] scalars[k])@ == want_s[k],
                forall|k: int| 0 <= k < 1 + n + n + lg + i ==> (#[trigger] points[k])@ == want_p[k],
            decreases lg - i,
        {
            proof {
                assert(u_inv_sq.deep_view()[i as int] == u_inv_sq[i as int]@);
                assert(pd.r_vec[i as int] == self.R_vec[i as int]@);
            }
            let point = match self.R_vec[i].decompress() {
                Some(p) => p,
                None => {
                    return Err(ProofError::VerificationError);
                },
            };
            scalars.push(u_inv_sq[i].neg());
            points.push(point);
            i += 1;
        }
        proof {
            assert(scalars.deep_view() =~= want_s);
            assert(points.deep_view() =~= want_p);
        }
        let expect = point_vartime_msm(scalars.as_slice(), points.as_slice());
        if expect.eq(P) {
            Ok(())
        } else {
            Err(ProofError::VerificationError)
        }
    }

    /// The final scalar of the left vector.
    pub fn scalar_a(&self) -> (r: Scalar)
        ensures
            r@ == self@.a,
    {
        self.a
    }

    /// The final scalar of the right vector.
    pub fn scalar_b(&self) -> (r: Scalar)
        ensures
            r@ == self@.b,
    {
        self.b
    }

    /// The left points of the rounds.
    pub fn points_l(&self) -> (r: &Vec<CompressedRistretto>)
        ensures
            r.deep_view() == self@.l_vec,
            r.len() == self@.r_vec.len(),
    {
        proof {
            use_type_invariant(self);
        }
        &self.L_vec
    }

    /// The right points of the rounds.
    pub fn points_r(&self) -> (r: &Vec<CompressedRistretto>)
        ensures
            r.deep_view() == self@.r_vec,
            r.len() == self@.l_vec.len(),
    {
        proof {
            use_type_invariant(self);
        }
        &self.R_vec
    }

    /// The number of bytes of the proof's encoding.
    pub fn serialized_size(&self) -> (r: usize)
        ensures
            r == 32 * (2 * self@.l_vec.len() + 2),
    {
        proof {
            use_type_invariant(self);
        }
        (self.L_vec.len() * 2 + 2) * 32
    }

    /// The encoding of the proof: the pairs of points, then the two scalars.
    pub fn to_bytes(&self) -> (r: Vec<u8>)
        ensures
            r@ == ipp_serialize(self@),
            self@.wf(),
    {
        proof {
            use_type_invariant(self);
        }
        let mut buf: Vec<u8> = Vec::new();
        let mut i: usize = 0;
        let ghost l = self.L_vec.deep_view();
        let ghost r = self.R_vec.deep_view();
        while i < self.L_vec.len()
            invariant
                i <= self.L_vec.len(),
                self.L_vec.len() == self.R_vec.len(),
                l == self.L_vec.deep_view(),
                r == self.R_vec.deep_view(),
                buf@ == lr_bytes(l.take(i as int), r.take(i as int)),
            decreases self.L_vec.len() - i,
        {
            proof {
                assert(l.take(i + 1).drop_last() =~= l.take(i as int));
                assert(r.take(i + 1).drop_last() =~= r.take(i as int));
            }
            extend32(&mut buf, self.L_vec[i].as_bytes());
            extend32(&mut buf, self.R_vec[i].as_bytes());
            i += 1;
        }
        proof {
            assert(l.take(self.L_vec.len() as int) =~= l);
            assert(r.take(self.L_vec.len() as int) =~= r);
        }
        let a_bytes = self.a.to_bytes();
        let b_bytes = self.b.to_bytes();
        extend32(&mut buf, &a_bytes);
        extend32(&mut buf, &b_bytes);
        buf
    }

    /// The proof that the bytes encode, or `FormatError`.
    pub fn from_bytes(slice: &[u8]) -> (r: Result<InnerProductProof, ProofError>)
        ensures
            match ipp_parse(slice@) {
                Some(p) => r is Ok && r.unwrap()@ == p,
                None => r == Err::<InnerProductProof, ProofError>(ProofError::FormatError),
            },
    {
        let len = slice.len();
        if len % 32 != 0 {
            return Err(ProofError::FormatError);
        }
        let blocks = len / 32;
        if blocks < 2 {
            return Err(ProofError::FormatError);
        }
        if (blocks - 2) % 2 != 0 {
            return Err(ProofError::FormatError);
        }
        let k = (blocks - 2) / 2;
        if k >= 32 {
            return Err(ProofError::FormatError);
        }
        let mut lv: Vec<CompressedRistretto> = Vec::new();
        let mut rv: Vec<CompressedRistretto> = Vec::new();
        let mut i: usize = 0;
        while i < k
            invariant
                i <= k,
                k < 32,
                64 * k + 64 == slice.len(),
                lv.len() == i,
                rv.len() == i,
                forall|j: int|
                    0 <= j < i ==> (#[trigger] lv[j])@ == slice@.subrange(64 * j, 64 * j + 32),
                forall|j: int|
                    0 <= j < i ==> (#[trigger] rv[j])@ == slice@.subrange(
                        64 * j + 32,
                        64 * j + 64,
                    ),
            decreases k - i,
        {
            lv.push(CompressedRistretto(read32(slice, 64 * i)));
            rv.push(CompressedRistretto(read32(slice, 64 * i + 32)));
            i += 1;
        }
        let a = match Scalar::from_canonical_bytes(read32(slice, 64 * k)) {
            Some(s) => s,
            None => {
                return Err(ProofError::FormatError);
            },
        };
        let b = match Scalar::from_canonical_bytes(read32(slice, 64 * k + 32)) {
            Some(s) => s,
            None => {
                return Err(ProofError::FormatError);
            },
        };
        let proof = InnerProductProof { L_vec: lv, R_vec: rv, a, b };
        proof {
            let p = ipp_parse(slice@).unwrap();
            assert(proof@.l_vec =~= p.l_vec);
            assert(proof@.r_vec =~= p.r_vec);
        }
        Ok(proof)
    }
}

} // verus!
