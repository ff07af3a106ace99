use vstd::prelude::*;

use crate::fields::{Field, PrimeFieldElement};

verus! {

/// The representatives of a sequence of field elements.
pub open spec fn values(c: Seq<PrimeFieldElement>) -> Seq<int> {
    c.map_values(|e: PrimeFieldElement| e.value() as int)
}

/// The polynomial with coefficients `c` (index = degree) at `x`, over the integers.
pub open spec fn poly_eval(c: Seq<int>, x: int) -> int
    decreases c.len(),
{
    if c.len() == 0 {
        0
    } else {
        c[0] + x * poly_eval(c.drop_first(), x)
    }
}

/// Every coefficient is a well-formed element of the field of order `m`.
pub open spec fn over_field(c: Seq<PrimeFieldElement>, m: nat) -> bool {
    forall|i: int| 0 <= i < c.len() ==> (#[trigger] c[i]).well_formed() && c[i].order() == m
}

proof fn lemma_horner_step(p: int, z: int, c: int, m: int)
    requires
        m > 0,
    ensures
        (((p % m) * z) % m + c) % m == (c + z * p) % m,
{
    vstd::arithmetic::div_mod::lemma_mul_mod_noop_left(p, z, m);
    vstd::arithmetic::div_mod::lemma_add_mod_noop(p * z, c, m);
    vstd::arithmetic::div_mod::lemma_add_mod_noop((p * z) % m, c, m);
    vstd::arithmetic::div_mod::lemma_mod_twice(p * z, m);
    vstd::arithmetic::div_mod::lemma_small_mod(0, m as nat);
    assert(c + z * p == p * z + c) by (nonlinear_arith);
}

proof fn lemma_eval_suffix(c: Seq<int>, i: int, x: int)
    requires
        0 <= i < c.len(),
    ensures
        poly_eval(c.subrange(i, c.len() as int), x)
            == c[i] + x * poly_eval(c.subrange(i + 1, c.len() as int), x),
{
    assert(c.subrange(i, c.len() as int).drop_first() =~= c.subrange(i + 1, c.len() as int));
}

/// Evaluates the polynomial at `z` by Horner's rule.
pub fn evaluate(coeffs: &Vec<PrimeFieldElement>, z: &PrimeFieldElement) -> (r: PrimeFieldElement)
    requires
        z.well_formed(),
        over_field(coeffs@, z.order()),
    ensures
        r.well_formed(),
        r.order() == z.order(),
        r.value() == poly_eval(values(coeffs@), z.value() as int) % (z.order() as int),
{
    let n = coeffs.len();
    let mut acc = z.zero_like();
    let mut i = n;
    let ghost vals = values(coeffs@);
    let ghost m = z.order() as int;
    proof {
        assert(vals.subrange(n as int, n as int) =~= Seq::<int>::empty());
        vstd::arithmetic::div_mod::lemma_small_mod(0, z.order());
    }
    while i > 0
        invariant
            i <= n == coeffs.len(),
            vals == values(coeffs@),
            m == z.order() as int,
            z.well_formed(),
            over_field(coeffs@, z.order()),
            acc.well_formed(),
            acc.order() == z.order(),
            acc.value() == poly_eval(vals.subrange(i as int, n as int), z.value() as int) % m,
        decreases i,
    {
        let ghost prev = poly_eval(vals.subrange(i as int, n as int), z.value() as int);
        acc = acc.mul(z).add(&coeffs[i - 1]);
        proof {
            lemma_eval_suffix(vals, i - 1, z.value() as int);
            lemma_horner_step(prev, z.value() as int, vals[i - 1], m);
        }
        i = i - 1;
    }
    proof {
        assert(vals.subrange(0, n as int) =~= vals);
    }
    acc
}

/// Synthetic division by `X - z`: the quotient's coefficients and the remainder, which is
/// the value at `z`. Coefficient `j` of the quotient is the tail from degree `j + 1` on,
/// evaluated at `z`.
pub fn divide_by_linear(coeffs: &Vec<PrimeFieldElement>, z: &PrimeFieldElement) -> (r: (
    Vec<PrimeFieldElement>,
    PrimeFieldElement,
))
    requires
        z.well_formed(),
        over_field(coeffs@, z.order()),
    ensures
        r.0@.len() == if coeffs@.len() == 0 { 0 } else { coeffs@.len() - 1 },
        over_field(r.0@, z.order()),
        forall|j: int|
            0 <= j < r.0@.len() ==> (#[trigger] r.0@[j]).value() == poly_eval(
                values(coeffs@).subrange(j + 1, coeffs@.len() as int),
                z.value() as int,
            ) % (z.order() as int),
        r.1.well_formed(),
        r.1.order() == z.order(),
        r.1.value() == poly_eval(values(coeffs@), z.value() as int) % (z.order() as int),
{
    let n = coeffs.len();
    let zero = z.zero_like();
    let qn: usize = if n == 0 { 0 } else { n - 1 };
    let mut q: Vec<PrimeFieldElement> = Vec::new();
    while q.len() < qn
        invariant
            qn == (if n == 0 { 0 } else { n - 1 }),
            q@.len() <= qn,
            zero.well_formed(),
            zero.order() == z.order(),
            over_field(q@, z.order()),
        decreases qn - q@.len(),
    {
        q.push(zero);
    }
    let mut acc = zero;
    let mut i = n;
    let ghost vals = values(coeffs@);
    let ghost m = z.order() as int;
    proof {
        assert(vals.subrange(n as int, n as int) =~= Seq::<int>::empty());
        vstd::arithmetic::div_mod::lemma_small_mod(0, z.order());
    }
    while i > 0
        invariant
            i <= n == coeffs.len(),
            q@.len() == qn,
            qn == (if n == 0 { 0 } else { n - 1 }),
            vals == values(coeffs@),
            m == z.order() as int,
            z.well_formed(),
            over_field(coeffs@, z.order()),
            over_field(q@, z.order()),
            forall|j: int|
                i <= j < qn ==> (#[trigger] q@[j]).value() == poly_eval(
                    vals.subrange(j + 1, n as int),
                    z.value() as int,
                ) % m,
            acc.well_formed(),
            acc.order() == z.order(),
            acc.value() == poly_eval(vals.subrange(i as int, n as int), z.value() as int) % m,
        decreases i,
    {
        if i < n {
            q.set(i - 1, acc);
        }
        let ghost prev = poly_eval(vals.subrange(i as int, n as int), z.value() as int);
        acc = acc.mul(z).add(&coeffs[i - 1]);
        proof {
            lemma_eval_suffix(vals, i - 1, z.value() as int);
            lemma_horner_step(prev, z.value() as int, vals[i - 1], m);
        }
        i = i - 1;
    }
    proof {
        assert(vals.subrange(0, n as int) =~= vals);
    }
    (q, acc)
}

} // verus!
