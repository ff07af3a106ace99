use vstd::arithmetic::power::pow;
use vstd::arithmetic::power2::pow2;
use vstd::prelude::*;

verus! {

/// Arithmetic of a field whose elements carry their field's parameters with them.
pub trait Field: Sized {
    /// The value is a well-formed element of its field.
    spec fn wf(&self) -> bool;

    /// Both values belong to the same field.
    spec fn same_field(&self, other: &Self) -> bool;

    /// The value is the additive identity.
    spec fn is_zero(&self) -> bool;

    fn add(&self, other: &Self) -> (r: Self)
        requires
            self.wf(),
            other.wf(),
            self.same_field(other),
        ensures
            r.wf(),
            r.same_field(self),
    ;

    fn sub(&self, other: &Self) -> (r: Self)
        requires
            self.wf(),
            other.wf(),
            self.same_field(other),
        ensures
            r.wf(),
            r.same_field(self),
    ;

    fn mul(&self, other: &Self) -> (r: Self)
        requires
            self.wf(),
            other.wf(),
            self.same_field(other),
        ensures
            r.wf(),
            r.same_field(self),
    ;

    fn div(&self, other: &Self) -> (r: Self)
        requires
            self.wf(),
            other.wf(),
            self.same_field(other),
            !other.is_zero(),
        ensures
            r.wf(),
            r.same_field(self),
    ;
}

/// Why a field operation was refused.
#[derive(Debug, Clone, Copy, PartialEq, Eq, Structural)]
pub enum FieldError {
    /// The operands belong to fields of different moduli.
    FieldMismatch,
    /// The divisor is zero.
    DivisionByZero,
}

/// `n` is a prime number: greater than one, with no divisor strictly between one and `n`.
pub open spec fn is_prime_spec(n: nat) -> bool {
    n > 1 && forall|d: nat| 1 < d < n ==> #[trigger] (n % d) != 0
}

pub open spec fn field_add(a: nat, b: nat, m: nat) -> nat {
    (a + b) % m
}

pub open spec fn field_sub(a: nat, b: nat, m: nat) -> nat {
    ((a - b) % (m as int)) as nat
}

pub open spec fn field_mul(a: nat, b: nat, m: nat) -> nat {
    (a * b) % m
}

/// `a` raised to `m - 2`, reduced: the inverse of a nonzero `a` when `m` is prime.
pub open spec fn field_inv(a: nat, m: nat) -> nat {
    (pow(a as int, (m - 2) as nat) % (m as int)) as nat
}

pub open spec fn field_div(a: nat, b: nat, m: nat) -> nat {
    (a * field_inv(b, m)) % m
}

/// An element of the prime field of order `modulus`, stored fully reduced.
#[derive(Debug, Clone, Copy, PartialEq, Eq, Structural)]
pub struct PrimeFieldElement {
    element: u32,
    modulus: u32,
}

impl PrimeFieldElement {
    /// The representative in `[0, modulus)`.
    pub closed spec fn value(&self) -> nat {
        self.element as nat
    }

    pub closed spec fn order(&self) -> nat {
        self.modulus as nat
    }

    pub open spec fn well_formed(&self) -> bool {
        is_prime_spec(self.order()) && self.value() < self.order()
    }

    /// The sum, reduced modulo the order.
    pub open spec fn add_value(&self, other: &Self) -> nat {
        field_add(self.value(), other.value(), self.order())
    }

    /// The difference, brought back into `[0, order)`.
    pub open spec fn sub_value(&self, other: &Self) -> nat {
        field_sub(self.value(), other.value(), self.order())
    }

    /// The product, reduced modulo the order.
    pub open spec fn mul_value(&self, other: &Self) -> nat {
        field_mul(self.value(), other.value(), self.order())
    }

    /// The inverse by Fermat's little theorem: the value raised to `order - 2`.
    pub open spec fn inverse_value(&self) -> nat {
        field_inv(self.value(), self.order())
    }

    /// The quotient: the dividend times the inverse of the divisor.
    pub open spec fn div_value(&self, other: &Self) -> nat {
        field_div(self.value(), other.value(), self.order())
    }

    pub fn build(element: u32, modulus: u32) -> (r: Result<PrimeFieldElement, &'static str>)
        ensures
            r is Err <==> !is_prime_spec(modulus as nat),
            r matches Ok(e) ==> e.well_formed() && e.order() == modulus as nat
                && e.value() == element as nat % modulus as nat,
    {
        if !is_prime(modulus) {
            return Err("Modulus isn't prime");
        }
        Ok(Self { element: element % modulus, modulus })
    }

    /// The additive identity of this element's field.
    pub fn zero_like(&self) -> (r: Self)
        requires
            self.well_formed(),
        ensures
            r.well_formed(),
            r.order() == self.order(),
            r.value() == 0,
    {
        Self { element: 0, modulus: self.modulus }
    }

    /// The multiplicative identity of this element's field.
    pub fn one_like(&self) -> (r: Self)
        requires
            self.well_formed(),
        ensures
            r.well_formed(),
            r.order() == self.order(),
            r.value() == 1,
    {
        Self { element: 1, modulus: self.modulus }
    }

    /// The element of this element's field that `v` reduces to.
    pub fn with_value(&self, v: u64) -> (r: Self)
        requires
            self.well_formed(),
        ensures
            r.well_formed(),
            r.order() == self.order(),
            r.value() == v as nat % self.order(),
    {
        Self { element: (v % (self.modulus as u64)) as u32, modulus: self.modulus }
    }

    /// This element raised to `exp`, by square-and-multiply.
    pub fn power(&self, exp: u32) -> (r: Self)
        requires
            self.well_formed(),
        ensures
            r.well_formed(),
            r.order() == self.order(),
            r.value() == pow(self.value() as int, exp as nat) % (self.order() as int),
    {
        Self { element: pow_mod(self.element, exp, self.modulus), modulus: self.modulus }
    }

    /// The representative in `[0, modulus)`.
    pub fn element(&self) -> (r: u32)
        ensures
            r as nat == self.value(),
    {
        self.element
    }

    /// The order of the field.
    pub fn modulus(&self) -> (r: u32)
        ensures
            r as nat == self.order(),
    {
        self.modulus
    }
}

/// A divisor of `n` at or above `i`, where `i * i > n`, leaves a cofactor below `i`.
proof fn lemma_small_cofactor(n: nat, d: nat, i: nat)
    requires
        1 < d < n,
        n % d == 0,
        i <= d,
        n < i * i,
    ensures
        1 < n / d < i,
        n % (n / d) == 0,
{
    let k = n / d;
    vstd::arithmetic::div_mod::lemma_fundamental_div_mod(n as int, d as int);
    assert(n == d * k);
    assert(k < i) by (nonlinear_arith)
        requires n == d * k, i <= d, n < i * i, d > 0;
    assert(k > 1) by (nonlinear_arith)
        requires n == d * k, d < n;
    vstd::arithmetic::div_mod::lemma_mod_multiples_basic(d as int, k as int);
    assert(n == k * d) by (nonlinear_arith) requires n == d * k;
}

/// Trial division by every candidate whose square does not exceed `x`.
pub fn is_prime(x: u32) -> (r: bool)
    ensures
        r == is_prime_spec(x as nat),
{
    if x <= 1 {
        return false;
    }
    let n: u64 = x as u64;
    let mut i: u64 = 2;
    while i * i <= n
        invariant
            2 <= i <= 65536,
            i * i <= 0x1_0000_0000,
            n == x as u64,
            n > 1,
            forall|d: nat| 1 < d < i ==> #[trigger] (x as nat % d) != 0,
        decreases 65537 - i,
    {
        if n % i == 0 {
            assert(i < n) by (nonlinear_arith)
                requires i * i <= n, 2 <= i;
            assert(x as nat % (i as nat) == 0);
            return false;
        }
        assert(i < 65536 && (i + 1) * (i + 1) <= 0x1_0000_0000) by (nonlinear_arith)
            requires i * i <= 0xffff_ffff, 2 <= i;
        i = i + 1;
    }
    assert forall|d: nat| 1 < d < x implies #[trigger] (x as nat % d) != 0 by {
        if d >= i && x as nat % d == 0 {
            lemma_small_cofactor(x as nat, d, i as nat);
            let k = x as nat / d;
            assert(x as nat % k != 0);
        }
    }
    true
}

/// `base` raised to `exp`, reduced modulo `m`, by square-and-multiply over all 32 bits
/// of the exponent: the same number of multiplications whatever the exponent is.
fn pow_mod(base: u32, exp: u32, m: u32) -> (r: u32)
    requires
        m > 1,
    ensures
        r as int == pow(base as int, exp as nat) % (m as int),
{
    let mm: u64 = m as u64;
    let mut acc: u64 = 1;
    let mut sq: u64 = (base as u64) % mm;
    let mut e: u32 = exp;
    let mut round: u32 = 0;
    proof {
        vstd::arithmetic::power::lemma_pow_mod_noop(base as int, exp as nat, m as int);
        vstd::arithmetic::power::lemma_pow0(sq as int);
        vstd::arithmetic::power2::lemma_pow2(0);
        vstd::arithmetic::power::lemma_pow0(2);
        vstd::arithmetic::div_mod::lemma_div_by_self(1);
    }
    while round < 32
        invariant
            mm == m as u64,
            m > 1,
            acc < mm,
            sq < mm,
            round <= 32,
            (acc * pow(sq as int, e as nat)) % (m as int) == pow(base as int, exp as nat) % (m as int),
            e as nat == (exp as nat) / pow2(round as nat),
        decreases 32 - round,
    {
        let bit: u64 = (e % 2) as u64;
        assert(bit <= 1 && bit * sq <= sq) by (nonlinear_arith)
            requires bit == e % 2;
        let factor: u64 = bit * sq + (1 - bit);
        proof {
            lemma_square_and_multiply_step(acc as int, sq as int, e as nat, m as int);
            assert(factor == if e % 2 == 1 { sq } else { 1 }) by (nonlinear_arith)
                requires bit == e % 2, factor == bit * sq + (1 - bit);
        }
        assert(acc * factor < 0x1_0000_0000 * 0x1_0000_0000) by (nonlinear_arith)
            requires acc < mm, factor < mm || factor == 1, mm <= 0xffff_ffff;
        assert(sq * sq < 0x1_0000_0000 * 0x1_0000_0000) by (nonlinear_arith)
            requires sq < mm, mm <= 0xffff_ffff;
        acc = (acc * factor) % mm;
        sq = (sq * sq) % mm;
        proof {
            vstd::arithmetic::power2::lemma_pow2_pos(round as nat);
            vstd::arithmetic::power2::lemma_pow2_unfold((round + 1) as nat);
            vstd::arithmetic::div_mod::lemma_div_denominator(exp as int, pow2(round as nat) as int, 2);
        }
        e = e / 2;
        round = round + 1;
    }
    proof {
        vstd::arithmetic::power2::lemma2_to64();
        vstd::arithmetic::div_mod::lemma_basic_div(exp as int, 0x1_0000_0000);
        vstd::arithmetic::power::lemma_pow0(sq as int);
        vstd::arithmetic::div_mod::lemma_small_mod(acc as nat, m as nat);
    }
    acc as u32
}

/// One step of square-and-multiply keeps `acc * sq^e` fixed modulo `m`.
proof fn lemma_square_and_multiply_step(acc: int, sq: int, e: nat, m: int)
    requires
        m > 1,
    ensures
        ((acc * (if e % 2 == 1 { sq } else { 1 })) % m) * pow((sq * sq) % m, e / 2) % m
            == (acc * pow(sq, e)) % m,
{
    let f = if e % 2 == 1 { sq } else { 1 };
    let h = e / 2;
    vstd::arithmetic::power::lemma_pow_multiplies(sq, 2, h);
    vstd::arithmetic::power::lemma_square_is_pow2(sq);
    vstd::arithmetic::power::lemma_pow_mod_noop(sq * sq, h, m);
    vstd::arithmetic::power::lemma_pow_adds(sq, 2 * h, (e % 2) as nat);
    vstd::arithmetic::power::lemma_pow1(sq);
    vstd::arithmetic::power::lemma_pow0(sq);
    assert(e == 2 * h + e % 2);
    assert(pow(sq, e) == pow(sq * sq, h) * f);
    let p = pow(sq * sq, h);
    let q = pow((sq * sq) % m, h);
    assert(q % m == p % m);
    vstd::arithmetic::div_mod::lemma_mul_mod_noop((acc * f), q, m);
    vstd::arithmetic::div_mod::lemma_mul_mod_noop((acc * f), p, m);
    vstd::arithmetic::div_mod::lemma_mul_mod_noop_left(acc * f, q, m);
    assert((acc * f) * p == acc * (p * f)) by (nonlinear_arith);
}

impl Field for PrimeFieldElement {
    open spec fn wf(&self) -> bool {
        self.well_formed()
    }

    open spec fn same_field(&self, other: &Self) -> bool {
        self.order() == other.order()
    }

    open spec fn is_zero(&self) -> bool {
        self.value() == 0
    }

    fn add(&self, b: &Self) -> (r: Self)
        ensures
            r.value() == self.add_value(b),
            r.order() == self.order(),
    {
        let res: u64 = (self.element as u64 + b.element as u64) % (self.modulus as u64);
        Self { element: res as u32, modulus: self.modulus }
    }

    fn sub(&self, b: &Self) -> (r: Self)
        ensures
            r.value() == self.sub_value(b),
            r.order() == self.order(),
    {
        let m: u64 = self.modulus as u64;
        let res: u64 = (self.element as u64 + (m - b.element as u64)) % m;
        proof {
            vstd::arithmetic::div_mod::lemma_mod_add_multiples_vanish(
                self.value() - b.value(),
                m as int,
            );
        }
        Self { element: res as u32, modulus: self.modulus }
    }

    fn mul(&self, b: &Self) -> (r: Self)
        ensures
            r.value() == self.mul_value(b),
            r.order() == self.order(),
    {
        let m = self.modulus as u64;
        assert(self.element as u64 * b.element as u64 <= 0xffff_ffff * 0xffff_ffff) by (nonlinear_arith)
            requires self.element <= 0xffff_ffff, b.element <= 0xffff_ffff;
        let res: u64 = (self.element as u64 * b.element as u64) % m;
        Self { element: res as u32, modulus: self.modulus }
    }

    fn div(&self, b: &Self) -> (r: Self)
        ensures
            r.value() == self.div_value(b),
            r.order() == self.order(),
    {
        let inv = b.inverse();
        self.mul(&inv)
    }
}

impl PrimeFieldElement {
    /// The multiplicative inverse of a nonzero element, by exponentiation to `modulus - 2`.
    pub fn inverse(&self) -> (r: Self)
        requires
            self.well_formed(),
            self.value() != 0,
        ensures
            r.well_formed(),
            r.order() == self.order(),
            r.value() == self.inverse_value(),
    {
        let res = pow_mod(self.element, self.modulus - 2, self.modulus);
        Self { element: res, modulus: self.modulus }
    }
}

impl PrimeFieldElement {
    /// `add`, refusing operands of different fields.
    pub fn checked_add(&self, other: &Self) -> (r: Result<Self, FieldError>)
        requires
            self.well_formed(),
            other.well_formed(),
        ensures
            r is Err <==> self.order() != other.order(),
            r matches Err(e) ==> e == FieldError::FieldMismatch,
            r matches Ok(v) ==> v.well_formed() && v.order() == self.order()
                && v.value() == self.add_value(other),
    {
        if self.modulus != other.modulus {
            return Err(FieldError::FieldMismatch);
        }
        Ok(self.add(other))
    }

    /// `sub`, refusing operands of different fields.
    pub fn checked_sub(&self, other: &Self) -> (r: Result<Self, FieldError>)
        requires
            self.well_formed(),
            other.well_formed(),
        ensures
            r is Err <==> self.order() != other.order(),
            r matches Err(e) ==> e == FieldError::FieldMismatch,
            r matches Ok(v) ==> v.well_formed() && v.order() == self.order()
                && v.value() == self.sub_value(other),
    {
        if self.modulus != other.modulus {
            return Err(FieldError::FieldMismatch);
        }
        Ok(self.sub(other))
    }

    /// `mul`, refusing operands of different fields.
    pub fn checked_mul(&self, other: &Self) -> (r: Result<Self, FieldError>)
        requires
            self.well_formed(),
            other.well_formed(),
        ensures
            r is Err <==> self.order() != other.order(),
            r matches Err(e) ==> e == FieldError::FieldMismatch,
            r matches Ok(v) ==> v.well_formed() && v.order() == self.order()
                && v.value() == self.mul_value(other),
    {
        if self.modulus != other.modulus {
            return Err(FieldError::FieldMismatch);
        }
        Ok(self.mul(other))
    }

    /// `div`, refusing operands of different fields and a zero divisor.
    pub fn checked_div(&self, other: &Self) -> (r: Result<Self, FieldError>)
        requires
            self.well_formed(),
            other.well_formed(),
        ensures
            r matches Err(e) ==> (e == FieldError::FieldMismatch <==> self.order() != other.order()),
            r matches Err(e) ==> (e == FieldError::DivisionByZero <==> self.order() == other.order()),
            r is Err <==> (self.order() != other.order() || other.value() == 0),
            r matches Ok(v) ==> v.well_formed() && v.order() == self.order()
                && v.value() == self.div_value(other),
    {
        if self.modulus != other.modulus {
            return Err(FieldError::FieldMismatch);
        }
        if other.element == 0 {
            return Err(FieldError::DivisionByZero);
        }
        Ok(self.div(other))
    }
}

/// Adding `b` and then subtracting it gives back `a`.
pub proof fn lemma_add_then_sub(a: PrimeFieldElement, b: PrimeFieldElement)
    requires
        a.well_formed(),
        b.well_formed(),
        a.order() == b.order(),
    ensures
        ((a.add_value(&b) - b.value()) % (a.order() as int)) == a.value(),
{
    let m = a.order() as int;
    vstd::arithmetic::div_mod::lemma_sub_mod_noop((a.value() + b.value()) as int, b.value() as int, m);
    vstd::arithmetic::div_mod::lemma_mod_twice(b.value() as int, m);
    vstd::arithmetic::div_mod::lemma_small_mod(b.value(), a.order());
    vstd::arithmetic::div_mod::lemma_small_mod(a.value(), a.order());
}

/// A residue that the prime does not divide, times its inverse, is one.
pub proof fn lemma_field_inv(v: nat, m: nat)
    requires
        is_prime_spec(m),
        v % m != 0,
    ensures
        (v * field_inv(v, m)) % m == 1,
{
    let e = (m - 2) as nat;
    crate::fermat::lemma_fermat(v as int, m as int);
    vstd::arithmetic::power::lemma_pow_adds(v as int, 1, e);
    vstd::arithmetic::power::lemma_pow1(v as int);
    vstd::arithmetic::div_mod::lemma_mul_mod_noop_right(v as int, pow(v as int, e), m as int);
}

/// A nonzero element times its inverse is the multiplicative identity.
pub proof fn lemma_mul_inverse(a: PrimeFieldElement)
    requires
        a.well_formed(),
        a.value() != 0,
    ensures
        (a.value() * a.inverse_value()) % a.order() == 1,
{
    let m = a.order() as int;
    let v = a.value() as int;
    let e = (m - 2) as nat;
    vstd::arithmetic::div_mod::lemma_small_mod(a.value(), a.order());
    crate::fermat::lemma_fermat(v, m);
    vstd::arithmetic::power::lemma_pow_adds(v, 1, e);
    vstd::arithmetic::power::lemma_pow1(v);
    vstd::arithmetic::div_mod::lemma_mul_mod_noop_right(v, pow(v, e), m);
}

/// Multiplying by a nonzero `b` and then dividing by it gives back `a`.
pub proof fn lemma_mul_then_div(a: PrimeFieldElement, b: PrimeFieldElement)
    requires
        a.well_formed(),
        b.well_formed(),
        a.order() == b.order(),
        b.value() != 0,
    ensures
        (a.mul_value(&b) * b.inverse_value()) % a.order() == a.value(),
{
    let m = a.order() as int;
    let x = a.value() as int;
    let y = b.value() as int;
    let z = b.inverse_value() as int;
    lemma_mul_inverse(b);
    vstd::arithmetic::div_mod::lemma_mul_mod_noop_left(x * y, z, m);
    assert(x * y * z == x * (y * z)) by (nonlinear_arith);
    vstd::arithmetic::div_mod::lemma_mul_mod_noop_right(x, y * z, m);
    vstd::arithmetic::div_mod::lemma_small_mod(a.value(), a.order());
}

} // verus!
