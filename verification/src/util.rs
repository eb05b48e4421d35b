//! Arithmetic on scalars and vectors of scalars that the protocol shares.

use crate::scalar::fadd;
use crate::scalar::fmul;
use crate::scalar::group_order;
use crate::scalar::Scalar;
use vstd::arithmetic::div_mod::*;
use vstd::arithmetic::power::*;
use vstd::prelude::*;

verus! {

/// `x^e` in the scalar field.
pub open spec fn fpow(x: nat, e: nat) -> nat {
    (pow(x as int, e) % (group_order() as int)) as nat
}

/// `x^0 + x^1 + ... + x^(n-1)` over the integers.
pub open spec fn geometric_sum(x: int, n: nat) -> int
    decreases n,
{
    if n == 0 {
        0
    } else {
        geometric_sum(x, (n - 1) as nat) + pow(x, (n - 1) as nat)
    }
}

/// `x^0 + x^1 + ... + x^(n-1)` in the scalar field.
pub open spec fn sum_pow(x: nat, n: nat) -> nat {
    (geometric_sum(x as int, n) % (group_order() as int)) as nat
}

/// `a[0] * b[0] + ... + a[k-1] * b[k-1]` over the integers, for two
/// sequences of one length.
pub open spec fn dot(a: Seq<nat>, b: Seq<nat>) -> int
    decreases a.len(),
{
    if a.len() == 0 {
        0
    } else {
        dot(a.drop_last(), b.drop_last()) + a.last() * b.last()
    }
}

/// The inner product of two vectors in the scalar field.
pub open spec fn inner_product_value(a: Seq<nat>, b: Seq<nat>) -> nat {
    (dot(a, b) % (group_order() as int)) as nat
}

/// The first `n` powers of `x`, starting with `x^0`.
pub open spec fn powers_of(x: nat, n: nat) -> Seq<nat> {
    Seq::new(n, |i: int| fpow(x, i as nat))
}

/// Whether `n` is a power of two.
pub open spec fn is_pow2(n: nat) -> bool
    decreases n,
{
    n == 1 || (n >= 2 && n % 2 == 0 && is_pow2(n / 2))
}

/// The number of halvings that bring `n` down to one.
pub open spec fn log2(n: nat) -> nat
    decreases n,
{
    if n <= 1 {
        0
    } else {
        1 + log2(n / 2)
    }
}

pub proof fn lemma_fpow_zero(x: nat)
    ensures
        fpow(x, 0) == 1,
{
    lemma_pow0(x as int);
}

/// Multiplying a power by the base gives the next power.
pub proof fn lemma_fpow_step(x: nat, e: nat, cur: nat)
    requires
        cur % group_order() == fpow(x, e),
    ensures
        fmul(cur, x) == fpow(x, e + 1),
{
    let l = group_order() as int;
    let p = pow(x as int, e);
    lemma_pow_adds(x as int, e, 1);
    lemma_pow1(x as int);
    lemma_mul_mod_noop_general(p, x as int, l);
    lemma_mul_mod_noop_general(cur as int, x as int, l);
}

/// The product of two powers of one base is the power of the sum.
pub proof fn lemma_fpow_add(x: nat, a: nat, b: nat, pa: nat, pb: nat)
    requires
        pa % group_order() == fpow(x, a),
        pb % group_order() == fpow(x, b),
    ensures
        fmul(pa, pb) == fpow(x, a + b),
{
    let l = group_order() as int;
    lemma_pow_adds(x as int, a, b);
    lemma_mul_mod_noop_general(pow(x as int, a), pow(x as int, b), l);
    lemma_mul_mod_noop_general(pa as int, pb as int, l);
}

/// A geometric sum of `c + d` terms is that of the first `c` terms plus
/// `x^c` times that of `d` terms.
pub proof fn lemma_geometric_split(x: int, c: nat, d: nat)
    ensures
        geometric_sum(x, c + d) == geometric_sum(x, c) + pow(x, c) * geometric_sum(x, d),
    decreases d,
{
    if d == 0 {
        assert(pow(x, c) * 0 == 0);
    } else {
        let d1 = (d - 1) as nat;
        lemma_geometric_split(x, c, d1);
        lemma_pow_adds(x, c, d1);
        let pc = pow(x, c);
        let gd = geometric_sum(x, d1);
        let pd = pow(x, d1);
        assert(pc * (gd + pd) == pc * gd + pc * pd) by (nonlinear_arith);
        assert(geometric_sum(x, c + d) == geometric_sum(x, (c + d1) as nat) + pow(x, c + d1));
    }
}

/// Adding the next power to a sum of powers.
pub proof fn lemma_sum_pow_step(x: nat, n: nat, acc: nat, cur: nat)
    requires
        acc % group_order() == sum_pow(x, n),
        cur % group_order() == fpow(x, n),
    ensures
        fadd(acc, cur) == sum_pow(x, n + 1),
{
    let l = group_order() as int;
    lemma_add_mod_noop(geometric_sum(x as int, n), pow(x as int, n), l);
    lemma_add_mod_noop(acc as int, cur as int, l);
}

/// Doubling the number of terms of a sum of powers.
pub proof fn lemma_sum_pow_double(x: nat, c: nat, acc: nat, factor: nat)
    requires
        acc % group_order() == sum_pow(x, c),
        factor % group_order() == fpow(x, c),
    ensures
        fadd(acc, fmul(factor, acc)) == sum_pow(x, 2 * c),
{
    let l = group_order() as int;
    let g = geometric_sum(x as int, c);
    let p = pow(x as int, c);
    lemma_geometric_split(x as int, c, c);
    lemma_mul_mod_noop_general(p, g, l);
    lemma_mul_mod_noop_general(factor as int, acc as int, l);
    lemma_add_mod_noop(g, p * g, l);
    lemma_add_mod_noop(acc as int, (factor * acc) as int, l);
    lemma_add_mod_noop_right(acc as int, (factor * acc) as int, l);
    lemma_add_mod_noop_right(g, p * g, l);
}

/// Whether `n` is a power of two.
pub fn is_power_of_two(n: usize) -> (r: bool)
    ensures
        r == is_pow2(n as nat),
{
    if n == 0 {
        return false;
    }
    let mut k: usize = n;
    while k % 2 == 0
        invariant
            k > 0,
            is_pow2(k as nat) == is_pow2(n as nat),
        decreases k,
    {
        k = k / 2;
    }
    k == 1
}

/// The first `n` powers of `x`.
pub fn powers(x: &Scalar, n: usize) -> (r: Vec<Scalar>)
    ensures
        r.deep_view() == powers_of(x@, n as nat),
{
    let mut out: Vec<Scalar> = Vec::new();
    let mut cur = Scalar::one();
    let mut i: usize = 0;
    proof {
        lemma_fpow_zero(x@);
    }
    while i < n
        invariant
            i <= n,
            out.len() == i,
            cur@ == fpow(x@, i as nat),
            forall|k: int| 0 <= k < i ==> (#[trigger] out[k])@ == fpow(x@, k as nat),
        decreases n - i,
    {
        out.push(cur);
        proof {
            lemma_mod_twice(pow(x@ as int, i as nat), group_order() as int);
            lemma_fpow_step(x@, i as nat, cur@);
        }
        cur = cur.mul(x);
        i += 1;
    }
    assert(out.deep_view() =~= powers_of(x@, n as nat));
    out
}

/// `x^0 + ... + x^(n-1)`, by adding the powers one by one.
fn sum_of_powers_slow(x: &Scalar, n: usize) -> (r: Scalar)
    ensures
        r@ == sum_pow(x@, n as nat),
{
    let mut acc = Scalar::zero();
    let mut cur = Scalar::one();
    let mut i: usize = 0;
    proof {
        lemma_fpow_zero(x@);
    }
    while i < n
        invariant
            i <= n,
            cur@ == fpow(x@, i as nat),
            acc@ == sum_pow(x@, i as nat),
        decreases n - i,
    {
        proof {
            let l = group_order() as int;
            lemma_mod_twice(pow(x@ as int, i as nat), l);
            lemma_mod_twice(geometric_sum(x@ as int, i as nat), l);
            lemma_sum_pow_step(x@, i as nat, acc@, cur@);
            lemma_fpow_step(x@, i as nat, cur@);
        }
        acc = acc.add(&cur);
        cur = cur.mul(x);
        i += 1;
    }
    acc
}

/// `x^0 + ... + x^(n-1)`. For `n` a power of two the sum is built by
/// doubling: `(1 + x)(1 + x^2)(1 + x^4)...`.
pub fn sum_of_powers(x: &Scalar, n: usize) -> (r: Scalar)
    ensures
        r@ == sum_pow(x@, n as nat),
{
    if !is_power_of_two(n) || n == 1 {
        return sum_of_powers_slow(x, n);
    }
    let mut m: usize = n;
    let one = Scalar::one();
    let mut result = one.add(x);
    let mut factor = *x;
    let ghost mut c: nat = 2;
    proof {
        let l = group_order() as int;
        let xi = x@ as int;
        lemma_pow0(xi);
        lemma_pow1(xi);
        assert(geometric_sum(xi, 2) == 1 + xi) by {
            reveal_with_fuel(geometric_sum, 3);
        }
    }
    while m > 2
        invariant
            m >= 2,
            is_pow2(m as nat),
            m * c == 2 * n,
            c >= 2,
            c % 2 == 0,
            result@ == sum_pow(x@, c),
            factor@ % group_order() == fpow(x@, c / 2),
        decreases m,
    {
        proof {
            let l = group_order() as int;
            let h = c / 2;
            lemma_fpow_add(x@, h, h, factor@, factor@);
            let f2 = fmul(factor@, factor@);
            lemma_mod_twice(pow(x@ as int, c), l);
            lemma_mod_twice(geometric_sum(x@ as int, c), l);
            lemma_sum_pow_double(x@, c, result@, f2);
            assert((m / 2) * (2 * c) == 2 * n) by (nonlinear_arith)
                requires
                    m * c == 2 * n,
                    m % 2 == 0,
            ;
        }
        factor = factor.mul(&factor);
        result = result.add(&factor.mul(&result));
        m = m / 2;
        proof {
            lemma_mod_twice(pow(x@ as int, c), group_order() as int);
            c = 2 * c;
        }
    }
    result
}

/// `x^n` by squaring and multiplying.
pub fn scalar_exp_vartime(x: &Scalar, n: u64) -> (r: Scalar)
    ensures
        r@ == fpow(x@, n as nat),
{
    let mut result = Scalar::one();
    let mut aux = *x;
    let mut k: u64 = n;
    let ghost mut done: nat = 0;
    let ghost mut p: nat = 1;
    proof {
        lemma_pow0(x@ as int);
        lemma_pow1(x@ as int);
    }
    while k > 0
        invariant
            k * p + done == n,
            p >= 1,
            result@ == fpow(x@, done),
            aux@ % group_order() == fpow(x@, p),
        decreases k,
    {
        let bit = k % 2;
        proof {
            let l = group_order() as int;
            lemma_mod_twice(pow(x@ as int, done), l);
            lemma_fpow_add(x@, done, p, result@, aux@);
            lemma_fpow_add(x@, p, p, aux@, aux@);
            lemma_mod_twice(pow(x@ as int, p + p), l);
            lemma_mod_twice(pow(x@ as int, done + p), l);
            assert((k / 2) * (2 * p) + (k % 2) * p == k * p) by (nonlinear_arith);
            assert((k % 2) * p == if bit == 1 { p } else { 0 }) by (nonlinear_arith)
                requires
                    bit == k % 2,
                    bit == 0 || bit == 1,
            ;
        }
        if bit == 1 {
            result = result.mul(&aux);
            proof {
                done = done + p;
            }
        }
        k = k / 2;
        aux = aux.mul(&aux);
        proof {
            p = 2 * p;
        }
    }
    result
}

/// A power of a power is the power of the product of the exponents.
pub proof fn lemma_fpow_fpow(x: nat, a: nat, b: nat)
    ensures
        fpow(fpow(x, a), b) == fpow(x, a * b),
{
    let l = group_order() as int;
    lemma_pow_mod_noop(pow(x as int, a), b, l);
    lemma_pow_multiplies(x as int, a, b);
}

/// `x^(a * b)`, as the `b`-th power of the `a`-th power.
pub fn scalar_exp_product(x: &Scalar, a: u64, b: u64) -> (r: Scalar)
    ensures
        r@ == fpow(x@, (a * b) as nat),
{
    let inner = scalar_exp_vartime(x, a);
    proof {
        lemma_fpow_fpow(x@, a as nat, b as nat);
    }
    scalar_exp_vartime(&inner, b)
}

/// The inner product of two vectors of one length.
pub fn inner_product(a: &[Scalar], b: &[Scalar]) -> (r: Scalar)
    requires
        a.len() == b.len(),
    ensures
        r@ == inner_product_value(a.deep_view(), b.deep_view()),
{
    let mut acc = Scalar::zero();
    let mut i: usize = 0;
    let ghost av = a.deep_view();
    let ghost bv = b.deep_view();
    while i < a.len()
        invariant
            i <= a.len(),
            a.len() == b.len(),
            av == a.deep_view(),
            bv == b.deep_view(),
            acc@ == inner_product_value(av.take(i as int), bv.take(i as int)),
        decreases a.len() - i,
    {
        proof {
            let l = group_order() as int;
            let a1 = av.take(i + 1);
            let b1 = bv.take(i + 1);
            assert(a1.drop_last() =~= av.take(i as int));
            assert(b1.drop_last() =~= bv.take(i as int));
            let d = dot(av.take(i as int), bv.take(i as int));
            lemma_add_mod_noop(d, (a[i as int]@ * b[i as int]@) as int, l);
        }
        let t = a[i].mul(&b[i]);
        acc = acc.add(&t);
        i += 1;
    }
    assert(av.take(a.len() as int) =~= av);
    assert(bv.take(a.len() as int) =~= bv);
    acc
}

/// The 32 bytes of `data` that start at `offset`.
pub fn read32(data: &[u8], offset: usize) -> (r: [u8; 32])
    requires
        offset + 32 <= data.len(),
    ensures
        r@ == data@.subrange(offset as int, offset + 32),
{
    let mut out = [0u8; 32];
    let mut i: usize = 0;
    while i < 32
        invariant
            i <= 32,
            offset + 32 <= data.len(),
            forall|k: int| 0 <= k < i ==> out@[k] == data@[offset + k],
        decreases 32 - i,
    {
        out[i] = data[offset + i];
        i += 1;
    }
    assert(out@ =~= data@.subrange(offset as int, offset + 32));
    out
}

/// A polynomial of degree two with scalar coefficients.
pub struct Poly2(pub Scalar, pub Scalar, pub Scalar);

impl Poly2 {
    /// The value at `x` of the polynomial with coefficients `t0`, `t1`, `t2`.
    pub open spec fn eval_value(t0: nat, t1: nat, t2: nat, x: nat) -> nat {
        fadd(t0, fmul(x, fadd(t1, fmul(x, t2))))
    }

    /// The value of the polynomial at `x`.
    pub fn eval(&self, x: &Scalar) -> (r: Scalar)
        ensures
            r@ == Poly2::eval_value(self.0@, self.1@, self.2@, x@),
    {
        let inner = self.1.add(&x.mul(&self.2));
        self.0.add(&x.mul(&inner))
    }
}

/// A polynomial of degree one whose coefficients are vectors of scalars.
pub struct VecPoly1(pub Vec<Scalar>, pub Vec<Scalar>);

impl VecPoly1 {
    /// The value at `x` of the polynomial with coefficients `c0` and `c1`.
    pub open spec fn eval_value(c0: Seq<nat>, c1: Seq<nat>, x: nat) -> Seq<nat> {
        Seq::new(c0.len(), |i: int| fadd(c0[i], fmul(c1[i], x)))
    }

    /// Both coefficients have length `n`.
    pub open spec fn has_len(&self, n: nat) -> bool {
        self.0.len() == n && self.1.len() == n
    }

    /// The zero polynomial over vectors of length `n`.
    pub fn zero(n: usize) -> (r: VecPoly1)
        ensures
            r.has_len(n as nat),
            forall|i: int| 0 <= i < n ==> (#[trigger] r.0[i])@ == 0,
            forall|i: int| 0 <= i < n ==> (#[trigger] r.1[i])@ == 0,
    {
        let mut c0: Vec<Scalar> = Vec::new();
        let mut c1: Vec<Scalar> = Vec::new();
        let z = Scalar::zero();
        let mut i: usize = 0;
        while i < n
            invariant
                i <= n,
                c0.len() == i,
                c1.len() == i,
                z@ == 0,
                forall|k: int| 0 <= k < i ==> (#[trigger] c0[k])@ == 0,
                forall|k: int| 0 <= k < i ==> (#[trigger] c1[k])@ == 0,
            decreases n - i,
        {
            c0.push(z);
            c1.push(z);
            i += 1;
        }
        VecPoly1(c0, c1)
    }

    /// The inner product of two such polynomials: a polynomial of degree
    /// two whose coefficients are `<l0, r0>`, `<l0, r1> + <l1, r0>` and
    /// `<l1, r1>`.
    pub fn inner_product(&self, rhs: &VecPoly1) -> (t: Poly2)
        requires
            self.has_len(self.0.len() as nat),
            rhs.has_len(self.0.len() as nat),
        ensures
            t.0@ == inner_product_value(self.0.deep_view(), rhs.0.deep_view()),
            t.1@ == fadd(
                inner_product_value(self.0.deep_view(), rhs.1.deep_view()),
                inner_product_value(self.1.deep_view(), rhs.0.deep_view()),
            ),
            t.2@ == inner_product_value(self.1.deep_view(), rhs.1.deep_view()),
    {
        let t0 = inner_product(self.0.as_slice(), rhs.0.as_slice());
        let t2 = inner_product(self.1.as_slice(), rhs.1.as_slice());
        let cross1 = inner_product(self.0.as_slice(), rhs.1.as_slice());
        let cross2 = inner_product(self.1.as_slice(), rhs.0.as_slice());
        Poly2(t0, cross1.add(&cross2), t2)
    }

    /// The value of the polynomial at `x`.
    pub fn eval(&self, x: &Scalar) -> (r: Vec<Scalar>)
        requires
            self.has_len(self.0.len() as nat),
        ensures
            r.deep_view() == VecPoly1::eval_value(self.0.deep_view(), self.1.deep_view(), x@),
    {
        let n = self.0.len();
        let mut out: Vec<Scalar> = Vec::new();
        let mut i: usize = 0;
        while i < n
            invariant
                i <= n,
                n == self.0.len(),
                n == self.1.len(),
                out.len() == i,
                forall|k: int|
                    0 <= k < i ==> (#[trigger] out[k])@ == fadd(self.0[k]@, fmul(self.1[k]@, x@)),
            decreases n - i,
        {
            let v = self.0[i].add(&self.1[i].mul(x));
            out.push(v);
            i += 1;
        }
        assert(out.deep_view() =~= VecPoly1::eval_value(
            self.0.deep_view(),
            self.1.deep_view(),
            x@,
        ));
        out
    }
}

/// Appends 32 bytes to a buffer.
pub fn extend32(buf: &mut Vec<u8>, bytes: &[u8; 32])
    ensures
        final(buf)@ == old(buf)@ + bytes@,
{
    let mut i: usize = 0;
    while i < 32
        invariant
            i <= 32,
            buf@ == old(buf)@ + bytes@.take(i as int),
        decreases 32 - i,
    {
        buf.push(bytes[i]);
        assert(bytes@.take(i + 1) =~= bytes@.take(i as int).push(bytes@[i as int]));
        assert(buf@ =~= old(buf)@ + bytes@.take(i + 1));
        i += 1;
    }
    assert(bytes@.take(32) =~= bytes@);
}

/// `2^k`.
pub open spec fn two_pow(k: nat) -> nat
    decreases k,
{
    if k == 0 {
        1
    } else {
        2 * two_pow((k - 1) as nat)
    }
}

/// A number between `2^k` and `2^(k+1)` takes `k` halvings.
pub proof fn lemma_log2_between(n: nat, k: nat)
    requires
        two_pow(k) <= n < two_pow(k + 1),
    ensures
        log2(n) == k,
    decreases k,
{
    reveal_with_fuel(two_pow, 2);
    if k > 0 {
        lemma_log2_between(n / 2, (k - 1) as nat);
    }
}

/// A power of two is two to the number of its halvings.
pub proof fn lemma_pow2_log2(n: nat)
    requires
        is_pow2(n),
    ensures
        n == two_pow(log2(n)),
    decreases n,
{
    if n >= 2 {
        lemma_pow2_log2(n / 2);
    }
}

pub proof fn lemma_two_pow_is_pow2(k: nat)
    ensures
        is_pow2(two_pow(k)),
        log2(two_pow(k)) == k,
        two_pow(k) >= 1,
    decreases k,
{
    if k > 0 {
        lemma_two_pow_is_pow2((k - 1) as nat);
        assert(two_pow(k) / 2 == two_pow((k - 1) as nat));
    }
}

/// The product of two powers of two is a power of two.
pub proof fn lemma_pow2_product(a: nat, b: nat)
    requires
        is_pow2(a),
        is_pow2(b),
    ensures
        is_pow2(a * b),
    decreases a,
{
    if a == 1 {
        assert(a * b == b);
    } else {
        let h = a / 2;
        lemma_pow2_product(h, b);
        assert(a * b == 2 * (h * b)) by (nonlinear_arith)
            requires
                a == 2 * h,
        ;
        assert(h * b >= 1) by (nonlinear_arith)
            requires
                h >= 1,
                b >= 1,
        ;
        assert(is_pow2(b) ==> b >= 1);
        assert((a * b) / 2 == h * b);
    }
}

pub proof fn lemma_two_pow_monotone(a: nat, b: nat)
    requires
        a <= b,
    ensures
        two_pow(a) <= two_pow(b),
    decreases b,
{
    if a < b {
        lemma_two_pow_monotone(a, (b - 1) as nat);
    }
}

pub proof fn lemma_two_pow_64()
    ensures
        two_pow(32) == 0x1_0000_0000,
        two_pow(64) == 0x1_0000_0000_0000_0000,
{
    reveal_with_fuel(two_pow, 65);
}

} // verus!
