use vstd::prelude::*;

use vstd::arithmetic::power2::pow2;

use crate::fermat::lemma_prime_product_nonzero_general;
use crate::fields::{
    field_add, field_inv, field_mul, field_sub, is_prime_spec, lemma_field_inv, Field,
    PrimeFieldElement,
};

verus! {

/// `c0 + c1 * u` in the extension of a prime field by `u^2 = nonresidue`.
#[derive(Debug, Clone, Copy, PartialEq, Eq, Structural)]
pub struct ExtFieldElement {
    pub c0: PrimeFieldElement,
    pub c1: PrimeFieldElement,
    pub nonresidue: PrimeFieldElement,
}

/// The norm `c0^2 - nonresidue * c1^2`, reduced.
pub open spec fn norm_value(c0: nat, c1: nat, beta: nat, m: nat) -> nat {
    field_sub(field_mul(c0, c0, m), field_mul(beta, field_mul(c1, c1, m), m), m)
}

/// Components of the product of `(a0, a1)` and `(b0, b1)`.
pub open spec fn ext_mul_values(a0: nat, a1: nat, b0: nat, b1: nat, beta: nat, m: nat) -> (
    nat,
    nat,
) {
    (
        field_add(field_mul(a0, b0, m), field_mul(beta, field_mul(a1, b1, m), m), m),
        field_add(field_mul(a0, b1, m), field_mul(a1, b0, m), m),
    )
}

/// Components of the inverse of `(a0, a1)`: its conjugate divided by its norm.
pub open spec fn ext_inv_values(a0: nat, a1: nat, beta: nat, m: nat) -> (nat, nat) {
    let ni = field_inv(norm_value(a0, a1, beta, m), m);
    (field_mul(a0, ni, m), field_mul(field_sub(0, a1, m), ni, m))
}

/// `(a0, a1)` raised to `e`, by squaring for each bit of `e` from the top and multiplying in
/// for each set bit.
pub open spec fn ext_pow_values(a0: nat, a1: nat, e: nat, beta: nat, m: nat) -> (nat, nat)
    decreases e,
{
    if e == 0 {
        (1nat % m, 0nat)
    } else {
        let h = ext_pow_values(a0, a1, e / 2, beta, m);
        let sq = ext_mul_values(h.0, h.1, h.0, h.1, beta, m);
        if e % 2 == 1 {
            ext_mul_values(sq.0, sq.1, a0, a1, beta, m)
        } else {
            sq
        }
    }
}

proof fn lemma_one_squared(beta: nat, m: nat)
    requires
        m > 1,
    ensures
        ext_mul_values(1nat % m, 0, 1nat % m, 0, beta, m) == (1nat % m, 0nat),
{
    vstd::arithmetic::div_mod::lemma_small_mod(1, m);
    vstd::arithmetic::div_mod::lemma_small_mod(0, m);
    assert(field_mul(0, 0, m) == 0);
    assert(beta * 0 == 0);
    assert(field_mul(beta, 0, m) == 0);
    assert(field_mul(1, 1, m) == 1);
}

/// One times one is one.
pub proof fn lemma_unit_product(beta: nat, m: nat)
    requires
        m > 1,
    ensures
        ext_mul_values(1, 0, 1, 0, beta, m) == (1nat, 0nat),
{
    lemma_one_squared(beta, m);
    vstd::arithmetic::div_mod::lemma_small_mod(1, m);
}

/// `beta` is not a square modulo `m`.
pub open spec fn is_nonresidue(beta: nat, m: nat) -> bool {
    forall|t: nat| t < m ==> #[trigger] field_mul(t, t, m) != beta
}

impl ExtFieldElement {
    pub open spec fn order(&self) -> nat {
        self.c0.order()
    }

    pub open spec fn beta(&self) -> nat {
        self.nonresidue.value()
    }

    pub open spec fn model(&self) -> (nat, nat) {
        (self.c0.value(), self.c1.value())
    }

    pub open spec fn well_formed(&self) -> bool {
        &&& self.c0.well_formed()
        &&& self.c1.well_formed()
        &&& self.nonresidue.well_formed()
        &&& self.c1.order() == self.c0.order()
        &&& self.nonresidue.order() == self.c0.order()
    }

    /// This element raised to `e`: one squaring and one multiplication for each of the 64
    /// bits of `e`, the product kept only where the bit is set.
    pub fn pow(&self, e: u64) -> (r: Self)
        requires
            self.well_formed(),
        ensures
            r.well_formed(),
            r.order() == self.order(),
            r.beta() == self.beta(),
            r.model() == ext_pow_values(self.c0.value(), self.c1.value(), e as nat, self.beta(), self.order()),
    {
        let mut acc = ExtFieldElement {
            c0: self.c0.one_like(),
            c1: self.c0.zero_like(),
            nonresidue: self.nonresidue,
        };
        let mut i: u32 = 64;
        let mut d: u64 = 0x8000_0000_0000_0000;
        proof {
            vstd::arithmetic::power2::lemma2_to64();
            vstd::arithmetic::power2::lemma2_to64_rest();
            vstd::arithmetic::power2::lemma_pow2_unfold(64);
            vstd::arithmetic::div_mod::lemma_basic_div(e as int, 0x1_0000_0000_0000_0000);
            vstd::arithmetic::div_mod::lemma_small_mod(1, self.order());
        }
        while i > 0
            invariant
                i <= 64,
                i > 0 ==> d as nat == pow2((i - 1) as nat),
                self.well_formed(),
                acc.well_formed(),
                acc.order() == self.order(),
                acc.beta() == self.beta(),
                acc.model() == ext_pow_values(
                    self.c0.value(),
                    self.c1.value(),
                    (e as nat) / pow2(i as nat),
                    self.beta(),
                    self.order(),
                ),
            decreases i,
        {
            proof {
                vstd::arithmetic::power2::lemma_pow2_pos((i - 1) as nat);
            }
            let cur = e / d;
            let bit = cur % 2;
            let sq = acc.mul(&acc);
            let prod = sq.mul(self);
            proof {
                vstd::arithmetic::power2::lemma_pow2_unfold(i as nat);
                vstd::arithmetic::div_mod::lemma_div_denominator(
                    e as int,
                    pow2((i - 1) as nat) as int,
                    2,
                );
                assert(pow2((i - 1) as nat) * 2 == pow2(i as nat));
                if cur == 0 {
                    lemma_one_squared(self.beta(), self.order());
                }
            }
            acc = if bit == 1 { prod } else { sq };
            if i > 1 {
                proof {
                    vstd::arithmetic::power2::lemma_pow2_unfold((i - 1) as nat);
                }
                d = d / 2;
            }
            i = i - 1;
        }
        proof {
            vstd::arithmetic::power2::lemma_pow2(0);
            vstd::arithmetic::power::lemma_pow0(2);
            vstd::arithmetic::div_mod::lemma_div_basics(e as int);
        }
        acc
    }

    /// The inverse, through one inversion in the prime field of the norm.
    pub fn inverse(&self) -> (r: Self)
        requires
            self.well_formed(),
        ensures
            r.well_formed(),
            r.order() == self.order(),
            r.beta() == self.beta(),
            r.model() == ext_inv_values(self.c0.value(), self.c1.value(), self.beta(), self.order()),
    {
        let sq0 = self.c0.mul(&self.c0);
        let sq1 = self.c1.mul(&self.c1);
        let norm = sq0.sub(&self.nonresidue.mul(&sq1));
        let ni = norm.power(self.c0.modulus() - 2);
        let zero = self.c0.zero_like();
        ExtFieldElement {
            c0: self.c0.mul(&ni),
            c1: zero.sub(&self.c1).mul(&ni),
            nonresidue: self.nonresidue,
        }
    }
}

impl Field for ExtFieldElement {
    open spec fn wf(&self) -> bool {
        self.well_formed()
    }

    open spec fn same_field(&self, other: &Self) -> bool {
        self.order() == other.order() && self.beta() == other.beta()
    }

    open spec fn is_zero(&self) -> bool {
        self.c0.value() == 0 && self.c1.value() == 0
    }

    fn add(&self, b: &Self) -> (r: Self)
        ensures
            r.model() == (
                field_add(self.c0.value(), b.c0.value(), self.order()),
                field_add(self.c1.value(), b.c1.value(), self.order()),
            ),
    {
        ExtFieldElement { c0: self.c0.add(&b.c0), c1: self.c1.add(&b.c1), nonresidue: self.nonresidue }
    }

    fn sub(&self, b: &Self) -> (r: Self)
        ensures
            r.model() == (
                field_sub(self.c0.value(), b.c0.value(), self.order()),
                field_sub(self.c1.value(), b.c1.value(), self.order()),
            ),
    {
        ExtFieldElement { c0: self.c0.sub(&b.c0), c1: self.c1.sub(&b.c1), nonresidue: self.nonresidue }
    }

    fn mul(&self, b: &Self) -> (r: Self)
        ensures
            r.model() == ext_mul_values(
                self.c0.value(),
                self.c1.value(),
                b.c0.value(),
                b.c1.value(),
                self.beta(),
                self.order(),
            ),
    {
        let c0 = self.c0.mul(&b.c0).add(&self.nonresidue.mul(&self.c1.mul(&b.c1)));
        let c1 = self.c0.mul(&b.c1).add(&self.c1.mul(&b.c0));
        ExtFieldElement { c0, c1, nonresidue: self.nonresidue }
    }

    fn div(&self, b: &Self) -> (r: Self)
        ensures
            r.model() == ({
                let inv = ext_inv_values(b.c0.value(), b.c1.value(), b.beta(), b.order());
                ext_mul_values(
                    self.c0.value(),
                    self.c1.value(),
                    inv.0,
                    inv.1,
                    self.beta(),
                    self.order(),
                )
            }),
    {
        let inv = b.inverse();
        self.mul(&inv)
    }
}

proof fn lemma_add_cong(a: int, b: int, x: int, y: int, m: int)
    requires
        m > 0,
        a % m == x % m,
        b % m == y % m,
    ensures
        (a + b) % m == (x + y) % m,
{
    vstd::arithmetic::div_mod::lemma_add_mod_noop(a, b, m);
    vstd::arithmetic::div_mod::lemma_add_mod_noop(x, y, m);
}

proof fn lemma_sub_cong(a: int, b: int, x: int, y: int, m: int)
    requires
        m > 0,
        a % m == x % m,
        b % m == y % m,
    ensures
        (a - b) % m == (x - y) % m,
{
    vstd::arithmetic::div_mod::lemma_sub_mod_noop(a, b, m);
    vstd::arithmetic::div_mod::lemma_sub_mod_noop(x, y, m);
}

proof fn lemma_mul_cong(a: int, b: int, x: int, y: int, m: int)
    requires
        m > 0,
        a % m == x % m,
        b % m == y % m,
    ensures
        (a * b) % m == (x * y) % m,
{
    vstd::arithmetic::div_mod::lemma_mul_mod_noop_general(a, b, m);
    vstd::arithmetic::div_mod::lemma_mul_mod_noop_general(x, y, m);
}

/// The norm of a nonzero element vanishes only where the nonresidue is a square.
proof fn lemma_norm_nonzero(a0: nat, a1: nat, beta: nat, m: nat)
    requires
        is_prime_spec(m),
        a0 < m,
        a1 < m,
        beta < m,
        a0 != 0 || a1 != 0,
        is_nonresidue(beta, m),
    ensures
        norm_value(a0, a1, beta, m) != 0,
{
    let mi = m as int;
    let x0 = a0 as int;
    let x1 = a1 as int;
    let bi = beta as int;
    let sq0: int = x0 * x0;
    let sq1: int = x1 * x1;
    vstd::arithmetic::div_mod::lemma_mod_twice(sq1, mi);
    vstd::arithmetic::div_mod::lemma_mod_twice(sq0, mi);
    lemma_mul_cong(bi, field_mul(a1, a1, m) as int, bi, sq1, mi);
    vstd::arithmetic::div_mod::lemma_mod_twice(bi * field_mul(a1, a1, m), mi);
    lemma_sub_cong(
        field_mul(a0, a0, m) as int,
        field_mul(beta, field_mul(a1, a1, m), m) as int,
        sq0,
        bi * sq1,
        mi,
    );
    if norm_value(a0, a1, beta, m) == 0 {
        vstd::arithmetic::div_mod::lemma_small_mod(0, m);
        assert((sq0 - bi * sq1) % mi == 0);
        // so a0^2 and beta * a1^2 are congruent
        vstd::arithmetic::div_mod::lemma_add_mod_noop(sq0 - bi * sq1, bi * sq1, mi);
        vstd::arithmetic::div_mod::lemma_mod_twice(bi * sq1, mi);
        assert(sq0 % mi == (bi * sq1) % mi);
        vstd::arithmetic::div_mod::lemma_small_mod(a0, m);
        vstd::arithmetic::div_mod::lemma_small_mod(a1, m);
        if a1 == 0 {
            assert(bi * sq1 == 0) by (nonlinear_arith)
                requires sq1 == x1 * x1, x1 == 0;
            lemma_prime_product_nonzero_general(x0, x0, mi);
        } else {
            let i1 = field_inv(a1, m);
            let y1 = i1 as int;
            lemma_field_inv(a1, m);
            let t = field_mul(a0, i1, m);
            // t^2 = a0^2 i1^2 = beta a1^2 i1^2 = beta (a1 i1)^2 = beta
            vstd::arithmetic::div_mod::lemma_mod_twice(x0 * y1, mi);
            assert((t as int) % mi == (x0 * y1) % mi);
            lemma_mul_cong(t as int, t as int, x0 * y1, x0 * y1, mi);
            assert((x0 * y1) * (x0 * y1) == sq0 * (y1 * y1)) by (nonlinear_arith)
                requires sq0 == x0 * x0;
            lemma_mul_cong(sq0, y1 * y1, bi * sq1, y1 * y1, mi);
            assert((bi * sq1) * (y1 * y1) == bi * ((x1 * y1) * (x1 * y1))) by (nonlinear_arith)
                requires sq1 == x1 * x1;
            vstd::arithmetic::div_mod::lemma_small_mod(1, m);
            assert((x1 * y1) % mi == 1int % mi);
            lemma_mul_cong(x1 * y1, x1 * y1, 1, 1, mi);
            lemma_mul_cong(bi, (x1 * y1) * (x1 * y1), bi, 1, mi);
            vstd::arithmetic::div_mod::lemma_small_mod(beta, m);
            assert(field_mul(t, t, m) == beta);
        }
    }
}

/// A nonzero element of the extension times its inverse is one, when the nonresidue is
/// not a square.
pub proof fn lemma_ext_mul_inverse(a: ExtFieldElement)
    requires
        a.well_formed(),
        a.c0.value() != 0 || a.c1.value() != 0,
        is_nonresidue(a.beta(), a.order()),
    ensures
        ({
            let inv = ext_inv_values(a.c0.value(), a.c1.value(), a.beta(), a.order());
            ext_mul_values(a.c0.value(), a.c1.value(), inv.0, inv.1, a.beta(), a.order())
        }) == (1nat, 0nat),
{
    let m = a.order();
    let mi = m as int;
    let a0 = a.c0.value();
    let a1 = a.c1.value();
    let beta = a.beta();
    let x0 = a0 as int;
    let x1 = a1 as int;
    let bi = beta as int;
    let n = norm_value(a0, a1, beta, m);
    lemma_norm_nonzero(a0, a1, beta, m);
    vstd::arithmetic::div_mod::lemma_small_mod(n, m);
    let ni = field_inv(n, m);
    let y = ni as int;
    lemma_field_inv(n, m);
    let inv0 = field_mul(a0, ni, m);
    let neg1 = field_sub(0, a1, m);
    let inv1 = field_mul(neg1, ni, m);
    // congruences of each piece with its integer expression
    vstd::arithmetic::div_mod::lemma_mod_twice(x0 * y, mi);
    vstd::arithmetic::div_mod::lemma_mod_twice(0 - x1, mi);
    lemma_mul_cong(neg1 as int, ni as int, 0 - x1, y, mi);
    vstd::arithmetic::div_mod::lemma_mod_twice((neg1 as int) * y, mi);
    let p00 = field_mul(a0, inv0, m);
    lemma_mul_cong(x0, inv0 as int, x0, x0 * y, mi);
    vstd::arithmetic::div_mod::lemma_mod_twice(x0 * (inv0 as int), mi);
    let p11 = field_mul(a1, inv1, m);
    lemma_mul_cong(x1, inv1 as int, x1, (0 - x1) * y, mi);
    vstd::arithmetic::div_mod::lemma_mod_twice(x1 * (inv1 as int), mi);
    let bp11 = field_mul(beta, p11, m);
    lemma_mul_cong(bi, p11 as int, bi, x1 * ((0 - x1) * y), mi);
    vstd::arithmetic::div_mod::lemma_mod_twice(bi * (p11 as int), mi);
    lemma_add_cong(p00 as int, bp11 as int, x0 * (x0 * y), bi * (x1 * ((0 - x1) * y)), mi);
    vstd::arithmetic::div_mod::lemma_mod_twice((p00 as int) + (bp11 as int), mi);
    // the norm against its integer expression
    let sq1 = field_mul(a1, a1, m);
    vstd::arithmetic::div_mod::lemma_mod_twice(x1 * x1, mi);
    vstd::arithmetic::div_mod::lemma_mod_twice(x0 * x0, mi);
    lemma_mul_cong(bi, sq1 as int, bi, x1 * x1, mi);
    vstd::arithmetic::div_mod::lemma_mod_twice(bi * (sq1 as int), mi);
    lemma_sub_cong(
        field_mul(a0, a0, m) as int,
        field_mul(beta, sq1, m) as int,
        x0 * x0,
        bi * (x1 * x1),
        mi,
    );
    vstd::arithmetic::div_mod::lemma_mod_twice(field_mul(a0, a0, m) - field_mul(beta, sq1, m), mi);
    assert((n as int) % mi == (x0 * x0 - bi * (x1 * x1)) % mi);
    lemma_mul_cong(y, n as int, y, x0 * x0 - bi * (x1 * x1), mi);
    assert(x0 * (x0 * y) + bi * (x1 * ((0 - x1) * y)) == y * (x0 * x0 - bi * (x1 * x1)))
        by (nonlinear_arith);
    assert(y * (n as int) == (n as int) * y) by (nonlinear_arith);
    vstd::arithmetic::div_mod::lemma_small_mod(1, m);
    // the second component
    let p01 = field_mul(a0, inv1, m);
    lemma_mul_cong(x0, inv1 as int, x0, (0 - x1) * y, mi);
    vstd::arithmetic::div_mod::lemma_mod_twice(x0 * (inv1 as int), mi);
    let p10 = field_mul(a1, inv0, m);
    lemma_mul_cong(x1, inv0 as int, x1, x0 * y, mi);
    vstd::arithmetic::div_mod::lemma_mod_twice(x1 * (inv0 as int), mi);
    lemma_add_cong(p01 as int, p10 as int, x0 * ((0 - x1) * y), x1 * (x0 * y), mi);
    assert(x0 * ((0 - x1) * y) + x1 * (x0 * y) == 0) by (nonlinear_arith);
    vstd::arithmetic::div_mod::lemma_small_mod(0, m);
    vstd::arithmetic::div_mod::lemma_mod_twice((p01 as int) + (p10 as int), mi);
}

} // verus!
