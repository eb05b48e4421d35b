//! The generators of Pedersen commitments and of range proofs.
//!
//! Every generator is a fixed function of public labels: those of a range
//! proof come from a SHAKE256 stream per party and per kind, so that a table
//! of generators is determined by its two capacities alone, and a larger
//! table extends a smaller one.

#![allow(non_snake_case)]

use crate::ristretto::basepoint_encoding;
use crate::ristretto::msm;
use crate::ristretto::point_msm;
use crate::ristretto::ristretto_from_uniform;
use crate::ristretto::ristretto_hash_sha3_512;
use crate::ristretto::RistrettoElement;
use crate::scalar::le_bytes;
use crate::scalar::Scalar;
use sha3::digest::ExtendableOutput;
use vstd::prelude::*;
use vstd::string::StringSliceAdditionalSpecFns;

verus! {

/// Byte `i` of the SHAKE256 output stream for `input`.
pub uninterp spec fn shake256_byte(input: Seq<u8>, i: nat) -> u8;

/// `Shake256::digest_xof` of the `sha3` crate: the first `len` bytes of the
/// output stream for `input`.
#[verifier::external_body]
fn shake256(input: &[u8], len: usize) -> (r: Vec<u8>)
    ensures
        r.len() == len,
        forall|i: int| 0 <= i < len ==> #[trigger] r[i] == shake256_byte(input@, i as nat),
{
    let mut out = vec![0u8; len];
    sha3::Shake256::digest_xof(input, &mut out);
    out
}

/// The tag of the generators that multiply the left vector.
pub open spec fn kind_g() -> u8 {
    71
}

/// The tag of the generators that multiply the right vector.
pub open spec fn kind_h() -> u8 {
    72
}

/// What is hashed to start the stream of one party's generators of one
/// kind: a fixed label, the kind's tag, and the party's index in four
/// little-endian bytes.
pub open spec fn chain_input(kind: u8, party: nat) -> Seq<u8> {
    "GeneratorsChain".spec_bytes() + seq![kind] + le_bytes(party, 4)
}

/// Generator `i` of a party's chain: the image under the one-way map of
/// the `i`-th block of 64 bytes of the chain's stream.
pub open spec fn generator(kind: u8, party: nat, i: nat) -> Seq<u8> {
    ristretto_from_uniform(
        Seq::new(64, |k: int| shake256_byte(chain_input(kind, party), (64 * i + k) as nat)),
    )
}

/// The Pedersen commitment `value * b + blinding * b_blinding`.
pub open spec fn commitment(b: Seq<u8>, b_blinding: Seq<u8>, value: nat, blinding: nat) -> Seq<u8> {
    msm(seq![value, blinding], seq![b, b_blinding])
}

/// The second generator of Pedersen commitments: the basepoint's encoding,
/// hashed to the group.
pub open spec fn blinding_basepoint_encoding() -> Seq<u8> {
    ristretto_hash_sha3_512(basepoint_encoding())
}

/// The two generators of a Pedersen commitment.
#[derive(Clone, Copy, Debug)]
pub struct PedersenGens {
    /// The generator that the value multiplies.
    pub B: RistrettoElement,
    /// The generator that the blinding factor multiplies.
    pub B_blinding: RistrettoElement,
}

impl PedersenGens {
    /// Whether these are the standard generators.
    pub open spec fn is_standard(&self) -> bool {
        self.B@ == basepoint_encoding() && self.B_blinding@ == blinding_basepoint_encoding()
    }

    /// The commitment `value * B + blinding * B_blinding`.
    pub fn commit(&self, value: Scalar, blinding: Scalar) -> (r: RistrettoElement)
        ensures
            r@ == commitment(self.B@, self.B_blinding@, value@, blinding@),
    {
        let scalars = [value, blinding];
        let points = [self.B, self.B_blinding];
        let s = scalars.as_slice();
        let p = points.as_slice();
        assert(s.deep_view() =~= seq![value@, blinding@]);
        assert(p.deep_view() =~= seq![self.B@, self.B_blinding@]);
        point_msm(s, p)
    }
}

impl Default for PedersenGens {
    /// The standard generators: the Ristretto255 basepoint, and the image
    /// of its encoding under SHA3-512 and the one-way map.
    fn default() -> (r: PedersenGens)
        ensures
            r.is_standard(),
    {
        let b = RistrettoElement::basepoint();
        let enc = b.compress();
        let b_blinding = RistrettoElement::hash_from_bytes(enc.as_bytes().as_slice());
        PedersenGens { B: b, B_blinding: b_blinding }
    }
}

/// The bytes that start the stream of one chain.
fn chain_label(kind: u8, party: u32) -> (r: Vec<u8>)
    ensures
        r@ == chain_input(kind, party as nat),
{
    let tag = "GeneratorsChain".as_bytes();
    let mut out: Vec<u8> = Vec::new();
    let mut i: usize = 0;
    while i < tag.len()
        invariant
            i <= tag.len(),
            out@ == tag@.take(i as int),
        decreases tag.len() - i,
    {
        out.push(tag[i]);
        assert(tag@.take(i + 1) =~= tag@.take(i as int).push(tag@[i as int]));
        i += 1;
    }
    assert(tag@.take(tag.len() as int) =~= tag@);
    out.push(kind);
    let byte0 = (party % 256) as u8;
    let byte1 = ((party / 256) % 256) as u8;
    let byte2 = ((party / 65536) % 256) as u8;
    let byte3 = ((party / 16777216) % 256) as u8;
    out.push(byte0);
    out.push(byte1);
    out.push(byte2);
    out.push(byte3);
    proof {
        reveal_with_fuel(le_bytes, 5);
        let p = party as nat;
        assert(p / 256 / 256 == p / 65536);
        assert(p / 256 / 256 / 256 == p / 16777216);
        assert(le_bytes(p, 4) =~= seq![byte0, byte1, byte2, byte3]);
        assert(out@ =~= chain_input(kind, p));
    }
    out
}

/// Generators `from..to` of one chain.
fn chain(kind: u8, party: u32, from: usize, to: usize) -> (r: Vec<RistrettoElement>)
    requires
        from <= to,
        to * 64 <= usize::MAX,
    ensures
        r.len() == to - from,
        forall|k: int|
            0 <= k < to - from ==> (#[trigger] r[k])@ == generator(
                kind,
                party as nat,
                (from + k) as nat,
            ),
{
    let label = chain_label(kind, party);
    let stream = shake256(label.as_slice(), to * 64);
    let mut out: Vec<RistrettoElement> = Vec::new();
    let mut i: usize = from;
    while i < to
        invariant
            from <= i <= to,
            to * 64 <= usize::MAX,
            stream.len() == to * 64,
            label@ == chain_input(kind, party as nat),
            forall|b: int|
                0 <= b < stream.len() ==> #[trigger] stream[b] == shake256_byte(label@, b as nat),
            out.len() == i - from,
            forall|k: int|
                0 <= k < i - from ==> (#[trigger] out[k])@ == generator(
                    kind,
                    party as nat,
                    (from + k) as nat,
                ),
        decreases to - i,
    {
        let mut block = [0u8; 64];
        let mut k: usize = 0;
        while k < 64
            invariant
                k <= 64,
                i < to,
                to * 64 <= usize::MAX,
                stream.len() == to * 64,
                forall|b: int| 0 <= b < k ==> block@[b] == stream[64 * i + b],
            decreases 64 - k,
        {
            block[k] = stream[64 * i + k];
            k += 1;
        }
        let p = RistrettoElement::from_uniform_bytes(&block);
        proof {
            let want = Seq::new(
                64,
                |b: int| shake256_byte(chain_input(kind, party as nat), (64 * i + b) as nat),
            );
            assert(block@ =~= want);
        }
        out.push(p);
        i += 1;
    }
    out
}

/// The generators of range proofs: for each of `party_capacity` parties,
/// `gens_capacity` generators of each kind.
#[derive(Debug)]
pub struct BulletproofGens {
    gens_capacity: usize,
    party_capacity: usize,
    G_vec: Vec<Vec<RistrettoElement>>,
    H_vec: Vec<Vec<RistrettoElement>>,
}

/// Whether `rows` holds generators `0..gens` of the chains of kind `kind`
/// of parties `0..parties`.
pub open spec fn is_table(rows: Seq<Vec<RistrettoElement>>, kind: u8, parties: nat, gens: nat) -> bool {
    &&& rows.len() == parties
    &&& forall|j: int| 0 <= j < parties ==> (#[trigger] rows[j]).len() == gens
    &&& forall|j: int, i: int|
        0 <= j < parties && 0 <= i < gens ==> (#[trigger] rows[j][i])@ == generator(
            kind,
            j as nat,
            i as nat,
        )
}

/// The generators of kind `kind` for `m` parties and `n` bits, party by
/// party.
pub open spec fn flat_generators(kind: u8, n: nat, m: nat) -> Seq<Seq<u8>> {
    Seq::new(n * m, |k: int| generator(kind, (k / n as int) as nat, (k % n as int) as nat))
}

/// The first `n` generators of kind `kind` of party `j`.
pub open spec fn share_generators(kind: u8, j: nat, n: nat) -> Seq<Seq<u8>> {
    Seq::new(n, |i: int| generator(kind, j, i as nat))
}

impl BulletproofGens {
    #[verifier::type_invariant]
    spec fn wf(self) -> bool {
        &&& self.party_capacity <= u32::MAX
        &&& self.gens_capacity * 64 <= usize::MAX
        &&& self.gens_capacity * self.party_capacity <= usize::MAX
        &&& is_table(self.G_vec@, kind_g(), self.party_capacity as nat, self.gens_capacity as nat)
        &&& is_table(self.H_vec@, kind_h(), self.party_capacity as nat, self.gens_capacity as nat)
    }

    /// The number of generators of each kind that each party has.
    pub closed spec fn spec_gens_capacity(&self) -> usize {
        self.gens_capacity
    }

    /// The number of parties that have generators.
    pub closed spec fn spec_party_capacity(&self) -> usize {
        self.party_capacity
    }

    /// Generator `i` of kind `G` of party `j`, as the table holds it.
    pub closed spec fn g(&self, j: int, i: int) -> Seq<u8> {
        self.G_vec[j][i]@
    }

    /// Generator `i` of kind `H` of party `j`, as the table holds it.
    pub closed spec fn h(&self, j: int, i: int) -> Seq<u8> {
        self.H_vec[j][i]@
    }

    /// Whether the table holds, for every party and every index that its
    /// capacities cover, the generators of the party's two chains.
    pub open spec fn is_derived(&self) -> bool {
        forall|j: int, i: int|
            0 <= j < self.party_capacity() && 0 <= i < self.gens_capacity() ==> #[trigger] self.g(
                j,
                i,
            ) == generator(kind_g(), j as nat, i as nat) && #[trigger] self.h(j, i) == generator(
                kind_h(),
                j as nat,
                i as nat,
            )
    }

    /// The number of generators of each kind that each party has.
    #[verifier::when_used_as_spec(spec_gens_capacity)]
    pub fn gens_capacity(&self) -> (r: usize)
        ensures
            r == self.spec_gens_capacity(),
            r * self.spec_party_capacity() <= usize::MAX,
    {
        proof {
            use_type_invariant(self);
        }
        self.gens_capacity
    }

    /// The number of parties that have generators.
    #[verifier::when_used_as_spec(spec_party_capacity)]
    pub fn party_capacity(&self) -> (r: usize)
        ensures
            r == self.spec_party_capacity(),
            r <= u32::MAX,
    {
        proof {
            use_type_invariant(self);
        }
        self.party_capacity
    }

    /// The table of `gens_capacity` generators of each kind for each of
    /// `party_capacity` parties.
    pub fn new(gens_capacity: usize, party_capacity: usize) -> (r: BulletproofGens)
        requires
            gens_capacity * 64 <= usize::MAX,
            party_capacity <= u32::MAX,
            gens_capacity * party_capacity <= usize::MAX,
        ensures
            r.gens_capacity() == gens_capacity,
            r.party_capacity() == party_capacity,
            r.is_derived(),
    {
        let mut g_vec: Vec<Vec<RistrettoElement>> = Vec::new();
        let mut h_vec: Vec<Vec<RistrettoElement>> = Vec::new();
        let mut j: usize = 0;
        while j < party_capacity
            invariant
                j <= party_capacity,
                party_capacity <= u32::MAX,
                gens_capacity * 64 <= usize::MAX,
                is_table(g_vec@, kind_g(), j as nat, gens_capacity as nat),
                is_table(h_vec@, kind_h(), j as nat, gens_capacity as nat),
            decreases party_capacity - j,
        {
            let g_row = chain(71, j as u32, 0, gens_capacity);
            let h_row = chain(72, j as u32, 0, gens_capacity);
            g_vec.push(g_row);
            h_vec.push(h_row);
            j += 1;
        }
        BulletproofGens { gens_capacity, party_capacity, G_vec: g_vec, H_vec: h_vec }
    }

    /// Grows the table to `new_capacity` generators per party and kind, if
    /// it has fewer. The generators that it had stay as they were.
    pub fn increase_capacity(&mut self, new_capacity: usize)
        requires
            new_capacity * 64 <= usize::MAX,
            new_capacity * old(self).party_capacity() <= usize::MAX,
        ensures
            final(self).party_capacity() == old(self).party_capacity(),
            final(self).gens_capacity() == if old(self).gens_capacity() >= new_capacity {
                old(self).gens_capacity()
            } else {
                new_capacity
            },
            final(self).is_derived(),
    {
        proof {
            use_type_invariant(&*self);
        }
        if self.gens_capacity >= new_capacity {
            return ;
        }
        let old_capacity = self.gens_capacity;
        let party_capacity = self.party_capacity;
        let mut g_vec: Vec<Vec<RistrettoElement>> = Vec::new();
        let mut h_vec: Vec<Vec<RistrettoElement>> = Vec::new();
        let mut j: usize = 0;
        while j < party_capacity
            invariant
                j <= party_capacity,
                party_capacity <= u32::MAX,
                party_capacity == self.party_capacity,
                old_capacity == self.gens_capacity,
                old_capacity < new_capacity,
                new_capacity * 64 <= usize::MAX,
                is_table(self.G_vec@, kind_g(), party_capacity as nat, old_capacity as nat),
                is_table(self.H_vec@, kind_h(), party_capacity as nat, old_capacity as nat),
                is_table(g_vec@, kind_g(), j as nat, new_capacity as nat),
                is_table(h_vec@, kind_h(), j as nat, new_capacity as nat),
            decreases party_capacity - j,
        {
            let mut g_row = self.G_vec[j].clone();
            let mut h_row = self.H_vec[j].clone();
            let mut g_more = chain(71, j as u32, old_capacity, new_capacity);
            let mut h_more = chain(72, j as u32, old_capacity, new_capacity);
            assert(g_row@ =~= self.G_vec@[j as int]@);
            assert(h_row@ =~= self.H_vec@[j as int]@);
            let ghost g_old = g_row@;
            let ghost h_old = h_row@;
            let ghost g_new = g_more@;
            let ghost h_new = h_more@;
            g_row.append(&mut g_more);
            h_row.append(&mut h_more);
            assert(g_row@ =~= g_old + g_new);
            assert(h_row@ =~= h_old + h_new);
            g_vec.push(g_row);
            h_vec.push(h_row);
            j += 1;
        }
        *self = BulletproofGens {
            gens_capacity: new_capacity,
            party_capacity,
            G_vec: g_vec,
            H_vec: h_vec,
        };
    }

    /// The generators of party `j`.
    pub fn share(&self, j: usize) -> (r: BulletproofGensShare<'_>)
        requires
            j < self.party_capacity(),
        ensures
            r.spec_share() == j,
            r.spec_gens_capacity() == self.gens_capacity(),
    {
        BulletproofGensShare { gens: self, share: j }
    }

    /// The first `n` generators of kind `G` of each of the first `m`
    /// parties, party by party.
    pub fn G(&self, n: usize, m: usize) -> (r: Vec<RistrettoElement>)
        requires
            n <= self.gens_capacity(),
            m <= self.party_capacity(),
            n * m <= usize::MAX,
        ensures
            r.deep_view() == flat_generators(kind_g(), n as nat, m as nat),
    {
        proof {
            use_type_invariant(self);
        }
        flatten(&self.G_vec, Ghost(kind_g()), n, m)
    }

    /// The first `n` generators of kind `H` of each of the first `m`
    /// parties, party by party.
    pub fn H(&self, n: usize, m: usize) -> (r: Vec<RistrettoElement>)
        requires
            n <= self.gens_capacity(),
            m <= self.party_capacity(),
            n * m <= usize::MAX,
        ensures
            r.deep_view() == flat_generators(kind_h(), n as nat, m as nat),
    {
        proof {
            use_type_invariant(self);
        }
        flatten(&self.H_vec, Ghost(kind_h()), n, m)
    }
}

/// The first `n` entries of the first `m` rows of a table, row by row.
fn flatten(rows: &Vec<Vec<RistrettoElement>>, Ghost(kind): Ghost<u8>, n: usize, m: usize) -> (r: Vec<
    RistrettoElement,
>)
    requires
        exists|parties: nat, gens: nat|
            m <= parties && n <= gens && #[trigger] is_table(rows@, kind, parties, gens),
        n * m <= usize::MAX,
    ensures
        r.deep_view() == flat_generators(kind, n as nat, m as nat),
{
    let ghost (parties, gens) = choose|parties: nat, gens: nat|
        m <= parties && n <= gens && #[trigger] is_table(rows@, kind, parties, gens);
    let mut out: Vec<RistrettoElement> = Vec::new();
    let mut j: usize = 0;
    while j < m
        invariant
            j <= m,
            m <= parties,
            n <= gens,
            is_table(rows@, kind, parties, gens),
            out.len() == n * j,
            forall|k: int|
                0 <= k < n * j ==> (#[trigger] out[k])@ == generator(
                    kind,
                    (k / n as int) as nat,
                    (k % n as int) as nat,
                ),
        decreases m - j,
    {
        let mut i: usize = 0;
        assert(n * (j + 1) == n * j + n) by (nonlinear_arith);
        while i < n
            invariant
                i <= n,
                j < m,
                m <= parties,
                n <= gens,
                is_table(rows@, kind, parties, gens),
                out.len() == n * j + i,
                forall|k: int|
                    0 <= k < n * j + i ==> (#[trigger] out[k])@ == generator(
                        kind,
                        (k / n as int) as nat,
                        (k % n as int) as nat,
                    ),
            decreases n - i,
        {
            let p = rows[j][i];
            proof {
                let k = n * j + i;
                assert(n * j == j * n) by (nonlinear_arith);
                vstd::arithmetic::div_mod::lemma_fundamental_div_mod_converse(
                    k as int,
                    n as int,
                    j as int,
                    i as int,
                );
            }
            out.push(p);
            i += 1;
        }
        j += 1;
    }
    assert(out.deep_view() =~= flat_generators(kind, n as nat, m as nat));
    out
}

/// One party's generators.
#[derive(Clone, Copy, Debug)]
pub struct BulletproofGensShare<'a> {
    gens: &'a BulletproofGens,
    share: usize,
}

impl<'a> BulletproofGensShare<'a> {
    #[verifier::type_invariant]
    spec fn wf(self) -> bool {
        self.share < self.gens.party_capacity
    }

    /// The index of the party.
    pub closed spec fn spec_share(&self) -> usize {
        self.share
    }

    /// The number of generators of each kind that the party has.
    pub closed spec fn spec_gens_capacity(&self) -> usize {
        self.gens.gens_capacity
    }

    /// The party's first `n` generators of kind `G`.
    pub fn G(&self, n: usize) -> (r: Vec<RistrettoElement>)
        requires
            n <= self.spec_gens_capacity(),
        ensures
            r.deep_view() == share_generators(kind_g(), self.spec_share() as nat, n as nat),
    {
        proof {
            use_type_invariant(self);
            use_type_invariant(self.gens);
        }
        prefix(&self.gens.G_vec[self.share], Ghost(kind_g()), Ghost(self.share as nat), n)
    }

    /// The party's first `n` generators of kind `H`.
    pub fn H(&self, n: usize) -> (r: Vec<RistrettoElement>)
        requires
            n <= self.spec_gens_capacity(),
        ensures
            r.deep_view() == share_generators(kind_h(), self.spec_share() as nat, n as nat),
    {
        proof {
            use_type_invariant(self);
            use_type_invariant(self.gens);
        }
        prefix(&self.gens.H_vec[self.share], Ghost(kind_h()), Ghost(self.share as nat), n)
    }
}

/// The first `n` entries of a row.
fn prefix(row: &Vec<RistrettoElement>, Ghost(kind): Ghost<u8>, Ghost(j): Ghost<nat>, n: usize) -> (r:
    Vec<RistrettoElement>)
    requires
        n <= row.len(),
        forall|i: int| 0 <= i < row.len() ==> (#[trigger] row[i])@ == generator(kind, j, i as nat),
    ensures
        r.deep_view() == share_generators(kind, j, n as nat),
{
    let mut out: Vec<RistrettoElement> = Vec::new();
    let mut i: usize = 0;
    while i < n
        invariant
            i <= n,
            n <= row.len(),
            out.len() == i,
            forall|k: int| 0 <= k < row.len() ==> (#[trigger] row[k])@ == generator(kind, j, k as nat),
            forall|k: int| 0 <= k < i ==> (#[trigger] out[k])@ == generator(kind, j, k as nat),
        decreases n - i,
    {
        out.push(row[i]);
        i += 1;
    }
    assert(out.deep_view() =~= share_generators(kind, j, n as nat));
    out
}

} // verus!
