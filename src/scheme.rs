//! Commit, open and verify over a setup of curve points. `g1_powers` holds points of the
//! first group. `g2_powers` holds the second group's points as their base-field preimages
//! under the distortion map that `crate::pairing::pair` applies.

use vstd::prelude::*;

use crate::curves::{
    add_model, negate_model, on_curve_model, scalar_model, Curve, CurvePoint, PointModel,
};
use crate::pairing::{pair, pairing_model};
use crate::fields::PrimeFieldElement;
use crate::polynomial::{divide_by_linear, over_field, poly_eval, values};

verus! {

/// Why a commitment or an opening was refused.
#[derive(Debug, Clone, Copy, PartialEq, Eq, Structural)]
pub enum CommitError {
    /// The polynomial has more coefficients than the setup has powers.
    DegreeTooLarge,
    /// The setup lacks the powers that verification reads.
    InvalidSetup,
    /// A commitment or proof is not a point of the curve.
    InvalidPoint,
}

/// Every point of the setup lies over the curve's field.
pub open spec fn setup_over(curve: Curve, g1_powers: Seq<CurvePoint>) -> bool {
    forall|i: int| 0 <= i < g1_powers.len() ==> (#[trigger] g1_powers[i]).over_field(curve.order())
}

/// `sum of coeffs[i] * powers[i]` over the first `n` terms, added up in index order.
pub open spec fn msm_model(
    a: nat,
    m: nat,
    coeffs: Seq<int>,
    powers: Seq<PointModel>,
    n: nat,
) -> PointModel
    decreases n,
{
    if n == 0 {
        None
    } else {
        let k = (n - 1) as int;
        add_model(
            a,
            m,
            msm_model(a, m, coeffs, powers, k as nat),
            scalar_model(a, m, powers[k], coeffs[k] as nat),
        )
    }
}

pub open spec fn point_models(s: Seq<CurvePoint>) -> Seq<PointModel> {
    s.map_values(|p: CurvePoint| p.model())
}

/// The commitment `sum of poly[i] * g1_powers[i]`.
pub fn commit(curve: &Curve, poly: &Vec<PrimeFieldElement>, g1_powers: &Vec<CurvePoint>) -> (r:
    Result<CurvePoint, CommitError>)
    requires
        curve.well_formed(),
        setup_over(*curve, g1_powers@),
        forall|i: int| 0 <= i < poly@.len() ==> (#[trigger] poly@[i]).well_formed(),
    ensures
        r is Err <==> poly@.len() > g1_powers@.len(),
        r matches Err(e) ==> e == CommitError::DegreeTooLarge,
        r matches Ok(c) ==> c.over_field(curve.order()) && c.model() == msm_model(
            curve.a.value(),
            curve.order(),
            values(poly@),
            point_models(g1_powers@),
            poly@.len(),
        ),
{
    if poly.len() > g1_powers.len() {
        return Err(CommitError::DegreeTooLarge);
    }
    let mut acc = CurvePoint::Infinity;
    let mut i: usize = 0;
    while i < poly.len()
        invariant
            i <= poly@.len() <= g1_powers@.len(),
            curve.well_formed(),
            setup_over(*curve, g1_powers@),
            forall|j: int| 0 <= j < poly@.len() ==> (#[trigger] poly@[j]).well_formed(),
            acc.over_field(curve.order()),
            acc.model() == msm_model(
                curve.a.value(),
                curve.order(),
                values(poly@),
                point_models(g1_powers@),
                i as nat,
            ),
        decreases poly@.len() - i,
    {
        let term = curve.scalar_multiply(&g1_powers[i], poly[i].element() as u64);
        acc = curve.add(&acc, &term);
        i = i + 1;
    }
    Ok(acc)
}

/// The quotient of `poly` by `X - z`, as plain values.
pub open spec fn quotient_values(c: Seq<int>, z: int, m: int) -> Seq<int> {
    Seq::new(
        (if c.len() == 0 { 0 } else { c.len() - 1 }) as nat,
        |j: int| poly_eval(c.subrange(j + 1, c.len() as int), z) % m,
    )
}

/// Opens `poly` at `z`: its value there, and the commitment to `(poly - value) / (X - z)`.
pub fn open(
    curve: &Curve,
    poly: &Vec<PrimeFieldElement>,
    z: &PrimeFieldElement,
    g1_powers: &Vec<CurvePoint>,
) -> (r: Result<(PrimeFieldElement, CurvePoint), CommitError>)
    requires
        curve.well_formed(),
        setup_over(*curve, g1_powers@),
        z.well_formed(),
        over_field(poly@, z.order()),
    ensures
        r is Err <==> poly@.len() > g1_powers@.len() + 1,
        r matches Err(e) ==> e == CommitError::DegreeTooLarge,
        r matches Ok(res) ==> res.0.well_formed() && res.0.order() == z.order() && res.0.value()
            == poly_eval(values(poly@), z.value() as int) % (z.order() as int)
            && res.1.over_field(curve.order()) && res.1.model() == msm_model(
            curve.a.value(),
            curve.order(),
            quotient_values(values(poly@), z.value() as int, z.order() as int),
            point_models(g1_powers@),
            quotient_values(values(poly@), z.value() as int, z.order() as int).len(),
        ),
{
    let (q, value) = divide_by_linear(poly, z);
    proof {
        assert(values(q@) =~= quotient_values(values(poly@), z.value() as int, z.order() as int));
    }
    match commit(curve, &q, g1_powers) {
        Ok(proof_point) => Ok((value, proof_point)),
        Err(e) => Err(e),
    }
}

proof fn lemma_msm_of_zeros(a: nat, m: nat, c: Seq<int>, powers: Seq<PointModel>, n: nat)
    requires
        n <= c.len(),
        forall|i: int| 0 <= i < c.len() ==> #[trigger] c[i] == 0,
    ensures
        msm_model(a, m, c, powers, n) is None,
    decreases n,
{
    if n > 0 {
        lemma_msm_of_zeros(a, m, c, powers, (n - 1) as nat);
        assert(c[n - 1] == 0);
    }
}

proof fn lemma_eval_of_zeros(c: Seq<int>, x: int)
    requires
        forall|i: int| 0 <= i < c.len() ==> #[trigger] c[i] == 0,
    ensures
        poly_eval(c, x) == 0,
    decreases c.len(),
{
    if c.len() > 0 {
        assert forall|i: int| 0 <= i < c.drop_first().len() implies #[trigger] c.drop_first()[i]
            == 0 by {
            assert(c.drop_first()[i] == c[i + 1]);
        }
        lemma_eval_of_zeros(c.drop_first(), x);
    }
}

/// The zero polynomial commits to the point at infinity, takes the value zero at every
/// point, and its opening proof at any point (over a scalar field of order `m`) is the
/// point at infinity too.
pub proof fn lemma_zero_polynomial(
    curve: Curve,
    poly: Seq<int>,
    g1_powers: Seq<CurvePoint>,
    z: int,
    m: nat,
)
    requires
        curve.well_formed(),
        m > 0,
        forall|i: int| 0 <= i < poly.len() ==> #[trigger] poly[i] == 0,
    ensures
        msm_model(curve.a.value(), curve.order(), poly, point_models(g1_powers), poly.len())
            is None,
        poly_eval(poly, z) == 0,
        msm_model(
            curve.a.value(),
            curve.order(),
            quotient_values(poly, z, m as int),
            point_models(g1_powers),
            quotient_values(poly, z, m as int).len(),
        ) is None,
{
    lemma_msm_of_zeros(curve.a.value(), curve.order(), poly, point_models(g1_powers), poly.len());
    lemma_eval_of_zeros(poly, z);
    let q = quotient_values(poly, z, m as int);
    assert forall|j: int| 0 <= j < q.len() implies #[trigger] q[j] == 0 by {
        let tail = poly.subrange(j + 1, poly.len() as int);
        assert forall|i: int| 0 <= i < tail.len() implies #[trigger] tail[i] == 0 by {
            assert(tail[i] == poly[i + j + 1]);
        }
        lemma_eval_of_zeros(tail, z);
        vstd::arithmetic::div_mod::lemma_small_mod(0, m);
    }
    lemma_msm_of_zeros(curve.a.value(), curve.order(), q, point_models(g1_powers), q.len());
}

/// `p - k * g` as plain values.
pub open spec fn shifted_point(a: nat, m: nat, p: PointModel, g: PointModel, k: nat) -> PointModel {
    add_model(a, m, p, negate_model(m, scalar_model(a, m, g, k)))
}

/// Checks an opening: accepts iff `e(commitment - value * G, H) == e(proof, sH - z * H)`,
/// where `G` is the first G1 power and `H`, `sH` are the first two G2 powers (taken through
/// the distortion map by the pairing). A short setup or a commitment or proof off the curve
/// is an error, found before any pairing is computed; a false proof is `Ok(false)`.
pub fn verify(
    curve: &Curve,
    nonresidue: &PrimeFieldElement,
    group_order: u64,
    g1_powers: &Vec<CurvePoint>,
    g2_powers: &Vec<CurvePoint>,
    commitment: &CurvePoint,
    z: &PrimeFieldElement,
    value: &PrimeFieldElement,
    proof: &CurvePoint,
) -> (r: Result<bool, CommitError>)
    requires
        curve.well_formed(),
        nonresidue.well_formed(),
        nonresidue.order() == curve.order(),
        group_order > 0,
        setup_over(*curve, g1_powers@),
        setup_over(*curve, g2_powers@),
        commitment.over_field(curve.order()),
        proof.over_field(curve.order()),
        z.well_formed(),
        value.well_formed(),
    ensures
        r matches Err(e) ==> (e == CommitError::InvalidSetup <==> (g1_powers@.len() < 1
            || g2_powers@.len() < 2)),
        r is Err <==> (g1_powers@.len() < 1 || g2_powers@.len() < 2 || !on_curve_model(
            curve.a.value(),
            curve.b.value(),
            curve.order(),
            commitment.model(),
        ) || !on_curve_model(curve.a.value(), curve.b.value(), curve.order(), proof.model())),
        r matches Ok(b) ==> b == (pairing_model(
            curve.a.value(),
            curve.order(),
            nonresidue.value(),
            group_order as nat,
            shifted_point(
                curve.a.value(),
                curve.order(),
                commitment.model(),
                g1_powers@[0].model(),
                value.value(),
            ),
            g2_powers@[0].model(),
        ) == pairing_model(
            curve.a.value(),
            curve.order(),
            nonresidue.value(),
            group_order as nat,
            proof.model(),
            shifted_point(
                curve.a.value(),
                curve.order(),
                g2_powers@[1].model(),
                g2_powers@[0].model(),
                z.value(),
            ),
        )),
{
    if g1_powers.len() < 1 || g2_powers.len() < 2 {
        return Err(CommitError::InvalidSetup);
    }
    if !curve.is_on_curve(commitment) || !curve.is_on_curve(proof) {
        return Err(CommitError::InvalidPoint);
    }
    let value_g = curve.scalar_multiply(&g1_powers[0], value.element() as u64);
    let lhs_point = curve.add(commitment, &curve.negate(&value_g));
    let z_h = curve.scalar_multiply(&g2_powers[0], z.element() as u64);
    let rhs_point = curve.add(&g2_powers[1], &curve.negate(&z_h));
    let lhs = pair(curve, nonresidue, group_order, &lhs_point, &g2_powers[0]);
    let rhs = pair(curve, nonresidue, group_order, proof, &rhs_point);
    Ok(lhs.c0.element() == rhs.c0.element() && lhs.c1.element() == rhs.c1.element())
}

/// The exact quotient of `c` by `X - z` over the integers: coefficient `j` is the tail from
/// degree `j + 1` on, evaluated at `z`.
pub open spec fn exact_quotient(c: Seq<int>, z: int) -> Seq<int> {
    Seq::new(
        (if c.len() == 0 { 0 } else { c.len() - 1 }) as nat,
        |j: int| poly_eval(c.subrange(j + 1, c.len() as int), z),
    )
}

proof fn lemma_exact_division(c: Seq<int>, z: int, x: int)
    ensures
        poly_eval(c, x) - poly_eval(c, z) == (x - z) * poly_eval(exact_quotient(c, z), x),
    decreases c.len(),
{
    if c.len() > 0 {
        let t = c.drop_first();
        lemma_exact_division(t, z, x);
        let q = exact_quotient(c, z);
        let pt_x = poly_eval(t, x);
        let pt_z = poly_eval(t, z);
        let qt = poly_eval(exact_quotient(t, z), x);
        assert(poly_eval(c, x) == c[0] + x * pt_x);
        assert(poly_eval(c, z) == c[0] + z * pt_z);
        if c.len() == 1 {
            assert(q.len() == 0);
            assert(t.len() == 0);
            assert(pt_x == 0 && pt_z == 0 && qt == 0);
            assert(poly_eval(q, x) == 0);
        } else {
            assert(q.drop_first() =~= exact_quotient(t, z)) by {
                assert forall|j: int| 0 <= j < q.len() - 1 implies q.drop_first()[j]
                    == exact_quotient(t, z)[j] by {
                    assert(c.subrange(j + 2, c.len() as int) =~= t.subrange(j + 1, t.len() as int));
                }
            }
            assert(c.subrange(1, c.len() as int) =~= t);
            assert(q[0] == pt_z);
            assert(poly_eval(q, x) == pt_z + x * qt);
            assert(x * pt_x - z * pt_z == (x - z) * (pt_z + x * qt)) by (nonlinear_arith)
                requires pt_x - pt_z == (x - z) * qt;
        }
    }
}

proof fn lemma_eval_congruent_coeffs(c: Seq<int>, d: Seq<int>, x: int, m: int)
    requires
        m > 0,
        c.len() == d.len(),
        forall|i: int| 0 <= i < c.len() ==> #[trigger] c[i] % m == d[i] % m,
    ensures
        poly_eval(c, x) % m == poly_eval(d, x) % m,
    decreases c.len(),
{
    if c.len() > 0 {
        assert forall|i: int| 0 <= i < c.drop_first().len() implies #[trigger] c.drop_first()[i] % m
            == d.drop_first()[i] % m by {
            assert(c.drop_first()[i] == c[i + 1] && d.drop_first()[i] == d[i + 1]);
        }
        lemma_eval_congruent_coeffs(c.drop_first(), d.drop_first(), x, m);
        let a = poly_eval(c.drop_first(), x);
        let b = poly_eval(d.drop_first(), x);
        vstd::arithmetic::div_mod::lemma_mul_mod_noop_right(x, a, m);
        vstd::arithmetic::div_mod::lemma_mul_mod_noop_right(x, b, m);
        vstd::arithmetic::div_mod::lemma_add_mod_noop(c[0], x * a, m);
        vstd::arithmetic::div_mod::lemma_add_mod_noop(d[0], x * b, m);
    }
}

/// The remainder theorem for an opening: at every point `x`, the polynomial minus its value
/// at `z` equals `(x - z)` times the quotient, modulo the field order `m`.
pub proof fn lemma_opening_quotient(c: Seq<int>, z: int, x: int, m: int)
    requires
        m > 0,
    ensures
        (poly_eval(c, x) - poly_eval(c, z) % m) % m == ((x - z) * poly_eval(
            quotient_values(c, z, m),
            x,
        )) % m,
{
    let q = exact_quotient(c, z);
    let qm = quotient_values(c, z, m);
    lemma_exact_division(c, z, x);
    assert forall|i: int| 0 <= i < q.len() implies #[trigger] q[i] % m == qm[i] % m by {
        vstd::arithmetic::div_mod::lemma_mod_twice(q[i], m);
    }
    lemma_eval_congruent_coeffs(q, qm, x, m);
    vstd::arithmetic::div_mod::lemma_mul_mod_noop_right(x - z, poly_eval(q, x), m);
    vstd::arithmetic::div_mod::lemma_mul_mod_noop_right(x - z, poly_eval(qm, x), m);
    vstd::arithmetic::div_mod::lemma_sub_mod_noop(poly_eval(c, x), poly_eval(c, z), m);
    vstd::arithmetic::div_mod::lemma_sub_mod_noop(poly_eval(c, x), poly_eval(c, z) % m, m);
    vstd::arithmetic::div_mod::lemma_mod_twice(poly_eval(c, z), m);
}

} // verus!
