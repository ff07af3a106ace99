use vstd::arithmetic::power::pow;
use vstd::prelude::*;

use crate::fermat::{lemma_fermat, lemma_prime_product_nonzero_general};
use crate::fields::{
    field_add, field_inv, field_mul, field_sub, is_prime_spec, Field, PrimeFieldElement,
};
use crate::sums::{
    lemma_eval_as_sum, lemma_eval_mod_point, lemma_sum_congruent, lemma_sum_ext, lemma_sum_scale,
    lemma_sum_single, lemma_sum_swap, sum,
};
use crate::polynomial::{evaluate, over_field, poly_eval, values};

verus! {

/// The evaluation domain: the powers `omega^0, ..., omega^(size - 1)` of a root of unity.
#[derive(Debug, Clone, Copy)]
pub struct Domain {
    pub omega: PrimeFieldElement,
    pub size: usize,
}

/// Why a transform was refused.
#[derive(Debug, Clone, Copy, PartialEq, Eq, Structural)]
pub enum TransformError {
    /// The data length differs from the domain's size.
    DomainSizeMismatch,
}

/// `p(w^i mod m) mod m` for `i` below `n`: the values at the domain's points.
pub open spec fn evaluations(c: Seq<int>, w: int, m: int, n: nat) -> Seq<int> {
    Seq::new(n, |i: int| poly_eval(c, pow(w, i as nat) % m) % m)
}

/// The inverse transform: the evaluations at the inverse root's powers, scaled by `1/n`,
/// where both inverses are taken by raising to `m - 2`.
pub open spec fn interpolation(e: Seq<int>, w: int, m: int, n: nat) -> Seq<int> {
    let w_inv = pow(w, (m - 2) as nat) % m;
    let n_inv = pow(n as int % m, (m - 2) as nat) % m;
    Seq::new(n, |k: int| (n_inv * evaluations(e, w_inv, m, n)[k]) % m)
}

fn eval_at_powers(coeffs: &Vec<PrimeFieldElement>, omega: &PrimeFieldElement) -> (r: Vec<
    PrimeFieldElement,
>)
    requires
        omega.well_formed(),
        over_field(coeffs@, omega.order()),
    ensures
        over_field(r@, omega.order()),
        values(r@) =~= evaluations(
            values(coeffs@),
            omega.value() as int,
            omega.order() as int,
            coeffs@.len(),
        ),
{
    let n = coeffs.len();
    let ghost m = omega.order() as int;
    let ghost w = omega.value() as int;
    let mut out: Vec<PrimeFieldElement> = Vec::new();
    let mut x = omega.one_like();
    let mut i: usize = 0;
    proof {
        vstd::arithmetic::power::lemma_pow0(w);
        vstd::arithmetic::div_mod::lemma_small_mod(1, omega.order());
    }
    while i < n
        invariant
            i <= n == coeffs@.len(),
            m == omega.order() as int,
            w == omega.value() as int,
            omega.well_formed(),
            over_field(coeffs@, omega.order()),
            over_field(out@, omega.order()),
            out@.len() == i,
            x.well_formed(),
            x.order() == omega.order(),
            x.value() == pow(w, i as nat) % m,
            forall|j: int| 0 <= j < i ==> (#[trigger] out@[j]).value() == poly_eval(
                values(coeffs@),
                pow(w, j as nat) % m,
            ) % m,
        decreases n - i,
    {
        let y = evaluate(coeffs, &x);
        out.push(y);
        proof {
            vstd::arithmetic::power::lemma_pow_adds(w, i as nat, 1);
            vstd::arithmetic::power::lemma_pow1(w);
            vstd::arithmetic::div_mod::lemma_mul_mod_noop_left(pow(w, i as nat), w, m);
            assert(pow(w, i as nat) * w == pow(w, (i + 1) as nat));
        }
        x = x.mul(omega);
        i = i + 1;
    }
    out
}

/// Coefficients to evaluations over the domain: entry `i` is the polynomial at `omega^i`.
pub fn to_evaluation_form(coeffs: &Vec<PrimeFieldElement>, domain: &Domain) -> (r: Result<
    Vec<PrimeFieldElement>,
    TransformError,
>)
    requires
        domain.omega.well_formed(),
        over_field(coeffs@, domain.omega.order()),
    ensures
        r is Err <==> coeffs@.len() != domain.size,
        r matches Err(e) ==> e == TransformError::DomainSizeMismatch,
        r matches Ok(v) ==> over_field(v@, domain.omega.order()) && values(v@) == evaluations(
            values(coeffs@),
            domain.omega.value() as int,
            domain.omega.order() as int,
            coeffs@.len(),
        ),
{
    if coeffs.len() != domain.size {
        return Err(TransformError::DomainSizeMismatch);
    }
    Ok(eval_at_powers(coeffs, &domain.omega))
}

/// Evaluations over the domain back to coefficients, by the transform at `omega^-1`
/// scaled by `1/n`.
pub fn to_coefficient_form(evals: &Vec<PrimeFieldElement>, domain: &Domain) -> (r: Result<
    Vec<PrimeFieldElement>,
    TransformError,
>)
    requires
        domain.omega.well_formed(),
        over_field(evals@, domain.omega.order()),
    ensures
        r is Err <==> evals@.len() != domain.size,
        r matches Err(e) ==> e == TransformError::DomainSizeMismatch,
        r matches Ok(v) ==> over_field(v@, domain.omega.order()) && values(v@) == interpolation(
            values(evals@),
            domain.omega.value() as int,
            domain.omega.order() as int,
            evals@.len(),
        ),
{
    if evals.len() != domain.size {
        return Err(TransformError::DomainSizeMismatch);
    }
    let omega = &domain.omega;
    let m = omega.modulus();
    let w_inv = omega.power(m - 2);
    let n_inv = omega.with_value(evals.len() as u64).power(m - 2);
    let raw = eval_at_powers(evals, &w_inv);
    let ghost mm = omega.order() as int;
    let mut out: Vec<PrimeFieldElement> = Vec::new();
    let mut k: usize = 0;
    while k < raw.len()
        invariant
            k <= raw@.len() == evals@.len(),
            mm == omega.order() as int,
            n_inv.well_formed(),
            n_inv.order() == omega.order(),
            over_field(raw@, omega.order()),
            over_field(out@, omega.order()),
            out@.len() == k,
            forall|j: int| 0 <= j < k ==> (#[trigger] out@[j]).value() as int == (n_inv.value()
                * raw@[j].value()) as int % mm,
        decreases raw@.len() - k,
    {
        out.push(n_inv.mul(&raw[k]));
        k = k + 1;
    }
    proof {
        let spec_out = interpolation(
            values(evals@),
            omega.value() as int,
            mm,
            evals@.len(),
        );
        assert(values(out@) =~= spec_out);
    }
    Ok(out)
}

/// `sum of e[i] * x_i / (z - x_i)` over `i` below `k`, with `x_i = w^i mod m`.
pub open spec fn barycentric_terms(e: Seq<int>, w: int, z: nat, m: nat, k: nat) -> nat
    decreases k,
{
    if k == 0 {
        0
    } else {
        let i = (k - 1) as nat;
        let x = (pow(w, i) % (m as int)) as nat;
        field_add(
            barycentric_terms(e, w, z, m, i),
            field_mul(field_mul(e[i as int] as nat, x, m), field_inv(field_sub(z, x, m), m), m),
            m,
        )
    }
}

/// The barycentric formula `(z^n - 1) / n * sum of e[i] * x_i / (z - x_i)`.
pub open spec fn barycentric_value(e: Seq<int>, w: int, z: nat, m: nat) -> nat {
    let n = e.len();
    let zn = (pow(z as int, n) % (m as int)) as nat;
    field_mul(
        field_mul(field_sub(zn, 1, m), field_inv(n % m, m), m),
        barycentric_terms(e, w, z, m, n),
        m,
    )
}

/// The value at `z` of the polynomial whose evaluations over the domain are `evals`:
/// the stored value where `z` is a domain point, the barycentric formula elsewhere.
pub fn evaluate_in_evaluation_form(
    evals: &Vec<PrimeFieldElement>,
    domain: &Domain,
    z: &PrimeFieldElement,
) -> (r: Result<PrimeFieldElement, TransformError>)
    requires
        domain.omega.well_formed(),
        z.well_formed(),
        z.order() == domain.omega.order(),
        over_field(evals@, z.order()),
    ensures
        r is Err <==> evals@.len() != domain.size,
        r matches Err(e) ==> e == TransformError::DomainSizeMismatch,
        r matches Ok(v) ==> v.well_formed() && v.order() == z.order(),
        r matches Ok(v) ==> forall|i: int|
            0 <= i < evals@.len() && pow(domain.omega.value() as int, i as nat) % (z.order() as int)
                == z.value() && (forall|j: int|
                0 <= j < i ==> #[trigger] pow(domain.omega.value() as int, j as nat) % (
                z.order() as int) != z.value()) ==> v == #[trigger] evals@[i],
        r matches Ok(v) ==> (forall|i: int|
            0 <= i < evals@.len() ==> #[trigger] pow(domain.omega.value() as int, i as nat) % (
            z.order() as int) != z.value()) ==> v.value() == barycentric_value(
            values(evals@),
            domain.omega.value() as int,
            z.value(),
            z.order(),
        ),
{
    if evals.len() != domain.size {
        return Err(TransformError::DomainSizeMismatch);
    }
    let n = evals.len();
    let omega = &domain.omega;
    let m = z.modulus();
    let ghost w = omega.value() as int;
    let ghost mm = z.order() as int;
    let ghost e = values(evals@);
    let mut x = z.one_like();
    let mut zpow = z.one_like();
    let mut acc = z.zero_like();
    let mut i: usize = 0;
    proof {
        vstd::arithmetic::power::lemma_pow0(w);
        vstd::arithmetic::power::lemma_pow0(z.value() as int);
        vstd::arithmetic::div_mod::lemma_small_mod(1, z.order());
    }
    while i < n
        invariant
            i <= n == evals@.len(),
            n == domain.size,
            w == domain.omega.value() as int,
            zpow.well_formed(),
            zpow.order() == z.order(),
            zpow.value() == pow(z.value() as int, i as nat) % mm,
            m as nat == z.order(),
            mm == z.order() as int,
            w == omega.value() as int,
            e == values(evals@),
            omega.well_formed(),
            omega.order() == z.order(),
            z.well_formed(),
            over_field(evals@, z.order()),
            x.well_formed(),
            x.order() == z.order(),
            x.value() == pow(w, i as nat) % mm,
            acc.well_formed(),
            acc.order() == z.order(),
            acc.value() == barycentric_terms(e, w, z.value(), z.order(), i as nat),
            forall|j: int| 0 <= j < i ==> #[trigger] pow(w, j as nat) % mm != z.value(),
        decreases n - i,
    {
        if x.element() == z.element() {
            proof {
                assert(pow(w, i as nat) % mm == z.value());
                assert forall|i2: int|
                    0 <= i2 < evals@.len() && pow(domain.omega.value() as int, i2 as nat) % (
                    z.order() as int) == z.value() && (forall|j: int|
                        0 <= j < i2 ==> #[trigger] pow(domain.omega.value() as int, j as nat) % (
                        z.order() as int) != z.value()) implies evals@[i as int] == #[trigger] evals@[i2] by {
                    if i2 > i {
                        assert(pow(w, i as nat) % mm == z.value());
                    } else if i2 < i {
                        assert(pow(w, i2 as nat) % mm != z.value());
                    }
                }
                assert(!(forall|i2: int|
                    0 <= i2 < evals@.len() ==> #[trigger] pow(domain.omega.value() as int, i2 as nat)
                        % (z.order() as int) != z.value())) by {
                    assert(pow(domain.omega.value() as int, i as nat) % (z.order() as int) == z.value());
                }
            }
            return Ok(evals[i]);
        }
        let term = evals[i].mul(&x).mul(&z.sub(&x).power(m - 2));
        acc = acc.add(&term);
        proof {
            vstd::arithmetic::power::lemma_pow_adds(w, i as nat, 1);
            vstd::arithmetic::power::lemma_pow1(w);
            vstd::arithmetic::div_mod::lemma_mul_mod_noop_left(pow(w, i as nat), w, mm);
            assert(pow(w, i as nat) * w == pow(w, (i + 1) as nat));
            let zv = z.value() as int;
            vstd::arithmetic::power::lemma_pow_adds(zv, i as nat, 1);
            vstd::arithmetic::power::lemma_pow1(zv);
            vstd::arithmetic::div_mod::lemma_mul_mod_noop_left(pow(zv, i as nat), zv, mm);
            assert(pow(zv, i as nat) * zv == pow(zv, (i + 1) as nat));
        }
        x = x.mul(omega);
        zpow = zpow.mul(z);
        i = i + 1;
    }
    let factor = zpow.sub(&z.one_like()).mul(&z.with_value(n as u64).power(m - 2));
    Ok(factor.mul(&acc))
}

/// `w` is a primitive `n`-th root of unity modulo `m`.
pub open spec fn is_primitive_root(w: int, n: nat, m: int) -> bool {
    &&& n > 0
    &&& pow(w, n) % m == 1
    &&& forall|d: nat| 0 < d < n ==> #[trigger] pow(w, d) % m != 1
}

proof fn lemma_pow_nonzero_mod(w: int, e: nat, m: int)
    requires
        m > 1,
        is_prime_spec(m as nat),
        w % m != 0,
    ensures
        pow(w, e) % m != 0,
    decreases e,
{
    if e == 0 {
        vstd::arithmetic::power::lemma_pow0(w);
        vstd::arithmetic::div_mod::lemma_small_mod(1, m as nat);
    } else {
        lemma_pow_nonzero_mod(w, (e - 1) as nat, m);
        vstd::arithmetic::power::lemma_pow_adds(w, 1, (e - 1) as nat);
        vstd::arithmetic::power::lemma_pow1(w);
        lemma_prime_product_nonzero_general(w, pow(w, (e - 1) as nat), m);
    }
}

proof fn lemma_pow_of_one_mod(b: int, e: nat, m: int)
    requires
        m > 1,
        b % m == 1,
    ensures
        pow(b, e) % m == 1,
{
    vstd::arithmetic::power::lemma_pow_mod_noop(b, e, m);
    vstd::arithmetic::power::lemma1_pow(e);
    vstd::arithmetic::div_mod::lemma_small_mod(1, m as nat);
}

/// `(u - 1) * (1 + u + ... + u^(n-1)) == u^n - 1`.
proof fn lemma_geometric(u: int, n: nat)
    ensures
        (u - 1) * sum(n, |j: int| pow(u, j as nat)) == pow(u, n) - 1,
    decreases n,
{
    if n == 0 {
        vstd::arithmetic::power::lemma_pow0(u);
    } else {
        let k = (n - 1) as nat;
        lemma_geometric(u, k);
        vstd::arithmetic::power::lemma_pow_adds(u, k, 1);
        vstd::arithmetic::power::lemma_pow1(u);
        let s = sum(k, |j: int| pow(u, j as nat));
        let q = pow(u, k);
        assert((u - 1) * (s + q) == (u - 1) * s + u * q - q) by (nonlinear_arith);
        assert(q * u == u * q) by (nonlinear_arith);
    }
}

/// The powers of an `n`-th root of unity other than one add up to zero.
proof fn lemma_roots_sum_zero(u: int, n: nat, m: int)
    requires
        m > 1,
        is_prime_spec(m as nat),
        pow(u, n) % m == 1,
        (u - 1) % m != 0,
    ensures
        sum(n, |j: int| pow(u, j as nat)) % m == 0,
{
    let s = sum(n, |j: int| pow(u, j as nat));
    lemma_geometric(u, n);
    vstd::arithmetic::div_mod::lemma_sub_mod_noop(pow(u, n), 1, m);
    vstd::arithmetic::div_mod::lemma_small_mod(1, m as nat);
    vstd::arithmetic::div_mod::lemma_small_mod(0, m as nat);
    if s % m != 0 {
        lemma_prime_product_nonzero_general(u - 1, s, m);
    }
}

/// A factor that a prime does not divide cancels from a congruence.
proof fn lemma_cancel(a: int, x: int, y: int, m: int)
    requires
        m > 1,
        is_prime_spec(m as nat),
        a % m != 0,
        (a * x) % m == (a * y) % m,
    ensures
        x % m == y % m,
{
    vstd::arithmetic::div_mod::lemma_sub_mod_noop(a * x, a * y, m);
    vstd::arithmetic::div_mod::lemma_small_mod(0, m as nat);
    assert(a * x - a * y == a * (x - y)) by (nonlinear_arith);
    if (x - y) % m != 0 {
        lemma_prime_product_nonzero_general(a, x - y, m);
    }
    vstd::arithmetic::div_mod::lemma_add_mod_noop(y, x - y, m);
    vstd::arithmetic::div_mod::lemma_mod_twice(y, m);
}

/// A root of unity is not divisible by the modulus.
proof fn lemma_root_nonzero(w: int, n: nat, m: int)
    requires
        m > 1,
        is_primitive_root(w, n, m),
    ensures
        w % m != 0,
{
    vstd::arithmetic::power::lemma_pow_adds(w, 1, (n - 1) as nat);
    vstd::arithmetic::power::lemma_pow1(w);
    vstd::arithmetic::div_mod::lemma_mul_mod_noop_left(w, pow(w, (n - 1) as nat), m);
    if w % m == 0 {
        vstd::arithmetic::div_mod::lemma_small_mod(0, m as nat);
    }
}

/// `w^(i + (m-2)k)` is congruent to one exactly when `i == k`, for `i, k` below `n`.
proof fn lemma_shifted_root(w: int, n: nat, m: int, i: int, k: int)
    requires
        m > 1,
        is_prime_spec(m as nat),
        is_primitive_root(w, n, m),
        0 <= i < n,
        0 <= k < n,
    ensures
        i == k ==> pow(w, (i + (m - 2) * k) as nat) % m == 1,
        i != k ==> (pow(w, (i + (m - 2) * k) as nat) - 1) % m != 0,
{
    let t = (i + (m - 2) * k) as nat;
    let full = ((m - 1) * k) as nat;
    lemma_root_nonzero(w, n, m);
    lemma_fermat(w, m);
    assert((m - 1) * k >= 0) by (nonlinear_arith) requires m > 1, k >= 0;
    assert((m - 2) * k >= 0) by (nonlinear_arith) requires m > 1, k >= 0;
    vstd::arithmetic::power::lemma_pow_multiplies(w, (m - 1) as nat, k as nat);
    assert(full == (m - 1) * k);
    assert(((m - 1) as nat) * (k as nat) == full) by (nonlinear_arith)
        requires m > 1, k >= 0, full == (m - 1) * k;
    lemma_pow_of_one_mod(pow(w, (m - 1) as nat), k as nat, m);
    // w^(t + k) = w^i * w^((m-1)k) = w^t * w^k
    assert(t + k == i + full) by (nonlinear_arith) requires t == i + (m - 2) * k, full == (m - 1) * k;
    vstd::arithmetic::power::lemma_pow_adds(w, i as nat, full);
    vstd::arithmetic::power::lemma_pow_adds(w, t, k as nat);
    vstd::arithmetic::div_mod::lemma_mul_mod_noop_right(pow(w, i as nat), pow(w, full), m);
    let wi = pow(w, i as nat);
    let wk = pow(w, k as nat);
    let wt = pow(w, t);
    assert((wi * pow(w, full)) % m == wi % m) by {
        assert(wi * (pow(w, full) % m) == wi * 1);
    }
    assert((wt * wk) % m == wi % m);
    if i == k {
        assert(t == full) by (nonlinear_arith) requires t == i + (m - 2) * k, full == (m - 1) * k, i == k;
    } else {
        if (wt - 1) % m == 0 {
            vstd::arithmetic::div_mod::lemma_add_mod_noop(wt - 1, 1, m);
            vstd::arithmetic::div_mod::lemma_small_mod(1, m as nat);
            assert(wt % m == 1);
            vstd::arithmetic::div_mod::lemma_mul_mod_noop_right(wk, wt, m);
            assert(wk * wt == wt * wk) by (nonlinear_arith);
            assert((wk * wt) % m == (wk * 1) % m);
            assert(wi % m == wk % m);
            if i > k {
                let d = (i - k) as nat;
                vstd::arithmetic::power::lemma_pow_adds(w, k as nat, d);
                lemma_pow_nonzero_mod(w, k as nat, m);
                lemma_cancel(wk, pow(w, d), 1, m);
                assert(pow(w, d) % m != 1);
            } else {
                let d = (k - i) as nat;
                vstd::arithmetic::power::lemma_pow_adds(w, i as nat, d);
                lemma_pow_nonzero_mod(w, i as nat, m);
                lemma_cancel(wi, pow(w, d), 1, m);
                assert(pow(w, d) % m != 1);
            }
        }
    }
}

pub open spec fn shifted_power(w: int, m: int, i: int, k: int) -> int {
    pow(w, (i + (m - 2) * k) as nat)
}

pub open spec fn double_term(c: Seq<int>, w: int, m: int, k: int, i: int, j: int) -> int {
    c[i] * pow(shifted_power(w, m, i, k), j as nat)
}

proof fn lemma_sum_ones(n: nat)
    ensures
        sum(n, |j: int| 1int) == n,
    decreases n,
{
    if n > 0 {
        lemma_sum_ones((n - 1) as nat);
    }
}

proof fn lemma_congruent_product(a: int, b: int, x: int, y: int, m: int)
    requires
        m > 0,
        a % m == x % m,
        b % m == y % m,
    ensures
        (a * b) % m == (x * y) % m,
{
    vstd::arithmetic::div_mod::lemma_mul_mod_noop_general(a, b, m);
    vstd::arithmetic::div_mod::lemma_mul_mod_noop_general(x, y, m);
}

/// Term `j` of the inverse transform at `k`, expanded into a sum over the coefficients.
proof fn lemma_term(c: Seq<int>, w: int, m: int, n: nat, k: int, j: int)
    requires
        m > 1,
        c.len() == n,
        0 <= k,
        0 <= j < n,
    ensures
        (evaluations(c, w, m, n)[j] * pow(pow(pow(w, (m - 2) as nat) % m, k as nat), j as nat))
            % m == sum(n, |i: int| double_term(c, w, m, k, i, j)) % m,
{
    let wi = pow(w, (m - 2) as nat) % m;
    let x = pow(wi, k as nat);
    let y = pow(w, ((m - 2) * k) as nat);
    assert((m - 2) * k >= 0) by (nonlinear_arith) requires m > 1, k >= 0;
    // x is congruent to w^((m-2)k)
    vstd::arithmetic::power::lemma_pow_mod_noop(pow(w, (m - 2) as nat), k as nat, m);
    vstd::arithmetic::power::lemma_pow_multiplies(w, (m - 2) as nat, k as nat);
    assert(((m - 2) as nat) * (k as nat) == ((m - 2) * k) as nat) by (nonlinear_arith)
        requires m > 1, k >= 0;
    assert(x % m == y % m);
    vstd::arithmetic::power::lemma_pow_mod_noop(x, j as nat, m);
    vstd::arithmetic::power::lemma_pow_mod_noop(y, j as nat, m);
    let py = pow(y, j as nat);
    assert(pow(x, j as nat) % m == py % m);
    let e = evaluations(c, w, m, n);
    let wj = pow(w, j as nat);
    lemma_eval_mod_point(c, wj, m);
    vstd::arithmetic::div_mod::lemma_mod_twice(poly_eval(c, wj % m), m);
    lemma_eval_as_sum(c, wj);
    let terms = |i: int| c[i] * pow(wj, i as nat);
    assert(e[j] % m == sum(n, terms) % m);
    lemma_congruent_product(e[j], pow(x, j as nat), sum(n, terms), py, m);
    let scaled = |i: int| double_term(c, w, m, k, i, j);
    assert forall|i: int| 0 <= i < n implies #[trigger] scaled(i) == py * terms(i) by {
        let t = (i + (m - 2) * k) as nat;
        vstd::arithmetic::power::lemma_pow_multiplies(w, j as nat, i as nat);
        vstd::arithmetic::power::lemma_pow_multiplies(w, ((m - 2) * k) as nat, j as nat);
        vstd::arithmetic::power::lemma_pow_multiplies(w, t, j as nat);
        vstd::arithmetic::power::lemma_pow_adds(w, (j * i) as nat, (((m - 2) * k) * j) as nat);
        assert(j * i >= 0 && ((m - 2) * k) * j >= 0) by (nonlinear_arith)
            requires j >= 0, i >= 0, (m - 2) * k >= 0;
        assert((j as nat) * (i as nat) == (j * i) as nat) by (nonlinear_arith)
            requires j >= 0, i >= 0;
        assert((((m - 2) * k) as nat) * (j as nat) == (((m - 2) * k) * j) as nat)
            by (nonlinear_arith) requires j >= 0, (m - 2) * k >= 0;
        assert(t * (j as nat) == (j * i) as nat + (((m - 2) * k) * j) as nat)
            by (nonlinear_arith) requires t == i + (m - 2) * k, j >= 0, i >= 0, (m - 2) * k >= 0;
        assert(c[i] * (pow(w, (j * i) as nat) * pow(w, (((m - 2) * k) * j) as nat)) == py
            * (c[i] * pow(w, (j * i) as nat))) by (nonlinear_arith)
            requires py == pow(w, (((m - 2) * k) * j) as nat);
    }
    lemma_sum_scale(n, terms, scaled, py);
    assert(pow(x, j as nat) * sum(n, terms) == sum(n, terms) * pow(x, j as nat)) by (nonlinear_arith);
}

/// Column `i` of the double sum: `n * c[k]` at `i == k`, zero elsewhere, modulo `m`.
proof fn lemma_column(c: Seq<int>, w: int, m: int, n: nat, k: int, i: int)
    requires
        m > 1,
        is_prime_spec(m as nat),
        is_primitive_root(w, n, m),
        c.len() == n,
        0 <= k < n,
        0 <= i < n,
    ensures
        sum(n, |j: int| double_term(c, w, m, k, i, j)) % m == (if i == k {
            c[k] * n
        } else {
            0
        }) % m,
{
    let u = shifted_power(w, m, i, k);
    let powers = |j: int| pow(u, j as nat);
    let col = |j: int| double_term(c, w, m, k, i, j);
    lemma_sum_scale(n, powers, col, c[i]);
    lemma_shifted_root(w, n, m, i, k);
    let t = (i + (m - 2) * k) as nat;
    if i == k {
        assert forall|j: int| 0 <= j < n implies #[trigger] powers(j) % m == (|j: int| 1int)(j) % m by {
            lemma_pow_of_one_mod(u, j as nat, m);
            vstd::arithmetic::div_mod::lemma_small_mod(1, m as nat);
        }
        lemma_sum_congruent(n, powers, |j: int| 1int, m);
        lemma_sum_ones(n);
        vstd::arithmetic::div_mod::lemma_mul_mod_noop_right(c[i], sum(n, powers), m);
        vstd::arithmetic::div_mod::lemma_mul_mod_noop_right(c[i], n as int, m);
    } else {
        vstd::arithmetic::power::lemma_pow_multiplies(w, t, n);
        vstd::arithmetic::power::lemma_pow_multiplies(w, n, t);
        assert(t * n == n * t) by (nonlinear_arith);
        lemma_pow_of_one_mod(pow(w, n), t, m);
        lemma_roots_sum_zero(u, n, m);
        vstd::arithmetic::div_mod::lemma_mul_mod_noop_right(c[i], sum(n, powers), m);
        vstd::arithmetic::div_mod::lemma_small_mod(0, m as nat);
    }
}

proof fn lemma_round_trip_entry(c: Seq<int>, w: int, m: int, n: nat, k: int)
    requires
        m > 1,
        is_prime_spec(m as nat),
        is_primitive_root(w, n, m),
        (n as int) % m != 0,
        c.len() == n,
        forall|i: int| 0 <= i < n ==> 0 <= #[trigger] c[i] < m,
        0 <= k < n,
    ensures
        interpolation(evaluations(c, w, m, n), w, m, n)[k] == c[k],
{
    let e = evaluations(c, w, m, n);
    let wi = pow(w, (m - 2) as nat) % m;
    let ni = pow(n as int % m, (m - 2) as nat) % m;
    let x = pow(wi, k as nat);
    let ev = evaluations(e, wi, m, n);
    // the inner evaluation as a sum over the evaluations
    lemma_eval_mod_point(e, x, m);
    lemma_eval_as_sum(e, x);
    let terms = |j: int| e[j] * pow(x, j as nat);
    let rows = |j: int| sum(n, |i: int| double_term(c, w, m, k, i, j));
    assert forall|j: int| 0 <= j < n implies #[trigger] terms(j) % m == rows(j) % m by {
        lemma_term(c, w, m, n, k, j);
    }
    lemma_sum_congruent(n, terms, rows, m);
    // exchange the two sums and keep the column at k
    let f = |i: int, j: int| double_term(c, w, m, k, i, j);
    lemma_sum_swap(n, n, f);
    let rows2 = |j: int| sum(n, |i: int| f(i, j));
    let cols2 = |i: int| sum(n, |j: int| f(i, j));
    assert forall|j: int| 0 <= j < n implies #[trigger] rows(j) == rows2(j) by {
        lemma_sum_ext(n, |i: int| double_term(c, w, m, k, i, j), |i: int| f(i, j));
    }
    lemma_sum_ext(n, rows, rows2);
    let cols = |i: int| sum(n, |j: int| double_term(c, w, m, k, i, j));
    assert forall|i: int| 0 <= i < n implies #[trigger] cols(i) == cols2(i) by {
        lemma_sum_ext(n, |j: int| double_term(c, w, m, k, i, j), |j: int| f(i, j));
    }
    lemma_sum_ext(n, cols, cols2);
    let single = |i: int| if i == k { c[k] * n } else { 0 };
    assert forall|i: int| 0 <= i < n implies #[trigger] cols(i) % m == single(i) % m by {
        lemma_column(c, w, m, n, k, i);
    }
    lemma_sum_congruent(n, cols, single, m);
    lemma_sum_single(n, single, k);
    assert(sum(n, rows) == sum(n, cols));
    vstd::arithmetic::div_mod::lemma_mod_twice(poly_eval(e, x % m), m);
    assert(ev[k] == (c[k] * n) % m);
    // scaling by the inverse of n
    let nn = n as int % m;
    vstd::arithmetic::div_mod::lemma_mod_twice(n as int, m);
    lemma_fermat(nn, m);
    vstd::arithmetic::power::lemma_pow_adds(nn, (m - 2) as nat, 1);
    vstd::arithmetic::power::lemma_pow1(nn);
    vstd::arithmetic::div_mod::lemma_mul_mod_noop_left(pow(nn, (m - 2) as nat), nn, m);
    assert((ni * nn) % m == 1);
    vstd::arithmetic::div_mod::lemma_mul_mod_noop_right(ni, n as int, m);
    assert((ni * n) % m == 1);
    vstd::arithmetic::div_mod::lemma_mul_mod_noop_right(ni, c[k] * n, m);
    assert(ni * (c[k] * n) == c[k] * (ni * n)) by (nonlinear_arith);
    vstd::arithmetic::div_mod::lemma_mul_mod_noop_right(c[k], ni * n, m);
    vstd::arithmetic::div_mod::lemma_small_mod(c[k] as nat, m as nat);
}

/// The inverse transform undoes the forward one: over a domain of a primitive `n`-th root of
/// unity modulo a prime, with `n` not divisible by the prime, interpolating the evaluations
/// of reduced coefficients gives the coefficients back.
pub proof fn lemma_transform_round_trip(c: Seq<int>, w: int, m: int)
    requires
        m > 1,
        is_prime_spec(m as nat),
        is_primitive_root(w, c.len(), m),
        (c.len() as int) % m != 0,
        forall|i: int| 0 <= i < c.len() ==> 0 <= #[trigger] c[i] < m,
    ensures
        interpolation(evaluations(c, w, m, c.len()), w, m, c.len()) == c,
{
    let r = interpolation(evaluations(c, w, m, c.len()), w, m, c.len());
    assert forall|k: int| 0 <= k < c.len() implies #[trigger] r[k] == c[k] by {
        lemma_round_trip_entry(c, w, m, c.len(), k);
    }
    assert(r =~= c);
}

} // verus!
