//! The pairing's second group. Its points have coordinates in the extension field. Here
//! each one is held as a point `(x, y)` of the curve over the base field: it stands for
//! its image `(-x, i*y)` under the distortion map, with `i^2` the nonresidue. `pair` applies
//! that map when it evaluates its lines, so the second argument of `pair` is that
//! base-field point.

use vstd::arithmetic::power2::pow2;
use vstd::prelude::*;

use crate::curves::{add_model, double_model, Curve, CurvePoint, PointModel};
use crate::extension::{ext_mul_values, ext_pow_values, lemma_unit_product, ExtFieldElement};
use crate::fields::{field_add, field_div, field_mul, field_sub, Field, PrimeFieldElement};

verus! {

/// The line through `t` and `s` (the tangent where they share `x`) evaluated at the image of
/// `q` under the distortion map `(x, y) -> (-x, i*y)`, where `i^2` is the nonresidue. It is
/// one where a point is infinity or the line is vertical.
pub open spec fn line_model(a: nat, m: nat, t: PointModel, s: PointModel, q: PointModel) -> (
    nat,
    nat,
) {
    match (t, s, q) {
        (Some((xt, yt)), Some((xs, ys)), Some((xq, yq))) => if xt == xs && field_add(yt, ys, m)
            == 0 {
            (1nat, 0nat)
        } else {
            let xx = field_mul(xt, xt, m);
            let l = if xt == xs {
                field_div(
                    field_add(field_add(field_add(xx, xx, m), xx, m), a, m),
                    field_add(yt, yt, m),
                    m,
                )
            } else {
                field_div(field_sub(ys, yt, m), field_sub(xs, xt, m), m)
            };
            (field_add(field_sub(0, yt, m), field_mul(l, field_add(xq, xt, m), m), m), yq)
        },
        _ => (1nat, 0nat),
    }
}

/// Miller's loop for `k`: the multiple `k * p` and the accumulated line product, by one
/// doubling step for each bit of `k` from the top and one addition step for each set bit.
pub open spec fn miller_model(
    a: nat,
    m: nat,
    beta: nat,
    p: PointModel,
    q: PointModel,
    k: nat,
) -> (PointModel, (nat, nat))
    decreases k,
{
    if k == 0 {
        (None, (1nat, 0nat))
    } else {
        let prev = miller_model(a, m, beta, p, q, k / 2);
        let t = prev.0;
        let f = prev.1;
        let sq = ext_mul_values(f.0, f.1, f.0, f.1, beta, m);
        let ld = line_model(a, m, t, t, q);
        let f2 = ext_mul_values(sq.0, sq.1, ld.0, ld.1, beta, m);
        let t2 = double_model(a, m, t);
        if k % 2 == 1 {
            let la = line_model(a, m, t2, p, q);
            (add_model(a, m, t2, p), ext_mul_values(f2.0, f2.1, la.0, la.1, beta, m))
        } else {
            (t2, f2)
        }
    }
}

/// The reduced Tate pairing of `p` and the distorted `q` for a subgroup of order `r`: Miller's
/// value raised to `(m^2 - 1) / r`.
pub open spec fn pairing_model(a: nat, m: nat, beta: nat, r: nat, p: PointModel, q: PointModel) -> (
    nat,
    nat,
) {
    let f = miller_model(a, m, beta, p, q, r).1;
    ext_pow_values(f.0, f.1, ((m * m - 1) as nat) / r, beta, m)
}

fn line_at(
    curve: &Curve,
    beta: &PrimeFieldElement,
    t: &CurvePoint,
    s: &CurvePoint,
    q: &CurvePoint,
) -> (r: ExtFieldElement)
    requires
        curve.well_formed(),
        beta.well_formed(),
        beta.order() == curve.order(),
        t.over_field(curve.order()),
        s.over_field(curve.order()),
        q.over_field(curve.order()),
    ensures
        r.well_formed(),
        r.order() == curve.order(),
        r.beta() == beta.value(),
        r.model() == line_model(curve.a.value(), curve.order(), t.model(), s.model(), q.model()),
{
    let one = ExtFieldElement { c0: beta.one_like(), c1: beta.zero_like(), nonresidue: *beta };
    match (t, s, q) {
        (
            CurvePoint::Affine { x: xt, y: yt },
            CurvePoint::Affine { x: xs, y: ys },
            CurvePoint::Affine { x: xq, y: yq },
        ) => {
            let m = curve.a.modulus();
            let l = if xt.element() == xs.element() {
                if yt.add(ys).element() == 0 {
                    return one;
                }
                let xx = xt.mul(xt);
                let num = xx.add(&xx).add(&xx).add(&curve.a);
                num.mul(&yt.add(yt).power(m - 2))
            } else {
                ys.sub(yt).mul(&xs.sub(xt).power(m - 2))
            };
            let c0 = beta.zero_like().sub(yt).add(&l.mul(&xq.add(xt)));
            ExtFieldElement { c0, c1: *yq, nonresidue: *beta }
        },
        _ => one,
    }
}

/// Miller's loop over the 64 bits of `k`, as `miller_model` states.
fn miller_loop(
    curve: &Curve,
    beta: &PrimeFieldElement,
    p: &CurvePoint,
    q: &CurvePoint,
    k: u64,
) -> (r: ExtFieldElement)
    requires
        curve.well_formed(),
        beta.well_formed(),
        beta.order() == curve.order(),
        p.over_field(curve.order()),
        q.over_field(curve.order()),
    ensures
        r.well_formed(),
        r.order() == curve.order(),
        r.beta() == beta.value(),
        r.model() == miller_model(
            curve.a.value(),
            curve.order(),
            beta.value(),
            p.model(),
            q.model(),
            k as nat,
        ).1,
{
    let ghost a = curve.a.value();
    let ghost m = curve.order();
    let ghost bv = beta.value();
    let mut t = CurvePoint::Infinity;
    let mut f = ExtFieldElement { c0: beta.one_like(), c1: beta.zero_like(), nonresidue: *beta };
    let mut i: u32 = 64;
    let mut d: u64 = 0x8000_0000_0000_0000;
    proof {
        vstd::arithmetic::power2::lemma2_to64();
        vstd::arithmetic::power2::lemma2_to64_rest();
        vstd::arithmetic::power2::lemma_pow2_unfold(64);
        vstd::arithmetic::div_mod::lemma_basic_div(k as int, 0x1_0000_0000_0000_0000);
    }
    while i > 0
        invariant
            i <= 64,
            i > 0 ==> d as nat == pow2((i - 1) as nat),
            a == curve.a.value(),
            m == curve.order(),
            bv == beta.value(),
            curve.well_formed(),
            beta.well_formed(),
            beta.order() == curve.order(),
            p.over_field(m),
            q.over_field(m),
            t.over_field(m),
            f.well_formed(),
            f.order() == m,
            f.beta() == bv,
            (t.model(), f.model()) == miller_model(a, m, bv, p.model(), q.model(), (k as nat) / pow2(i as nat)),
        decreases i,
    {
        proof {
            vstd::arithmetic::power2::lemma_pow2_pos((i - 1) as nat);
        }
        let cur = k / d;
        let bit = cur % 2;
        let ld = line_at(curve, beta, &t, &t, q);
        let f2 = f.mul(&f).mul(&ld);
        let t2 = curve.double(&t);
        let la = line_at(curve, beta, &t2, p, q);
        let f3 = f2.mul(&la);
        let t3 = curve.add(&t2, p);
        proof {
            vstd::arithmetic::power2::lemma_pow2_unfold(i as nat);
            vstd::arithmetic::div_mod::lemma_div_denominator(k as int, pow2((i - 1) as nat) as int, 2);
            assert(pow2((i - 1) as nat) * 2 == pow2(i as nat));
            if cur == 0 {
                lemma_unit_product(bv, m);
            }
        }
        if bit == 1 {
            t = t3;
            f = f3;
        } else {
            t = t2;
            f = f2;
        }
        if i > 1 {
            proof {
                vstd::arithmetic::power2::lemma_pow2_unfold((i - 1) as nat);
            }
            d = d / 2;
        }
        i = i - 1;
    }
    proof {
        vstd::arithmetic::power2::lemma_pow2(0);
        vstd::arithmetic::power::lemma_pow0(2);
        vstd::arithmetic::div_mod::lemma_div_basics(k as int);
    }
    f
}

/// The reduced Tate pairing on a supersingular curve `y^2 = x^3 + a*x`, for its subgroup of
/// order `r`, of `p` with the image of `q` under `(x, y) -> (-x, i*y)`, where `i^2` is
/// `nonresidue` (minus one, for a modulus of the form `4k + 3`). Its values lie in the
/// extension field by that nonresidue.
pub fn pair(
    curve: &Curve,
    nonresidue: &PrimeFieldElement,
    r: u64,
    p: &CurvePoint,
    q: &CurvePoint,
) -> (res: ExtFieldElement)
    requires
        curve.well_formed(),
        nonresidue.well_formed(),
        nonresidue.order() == curve.order(),
        r > 0,
        p.over_field(curve.order()),
        q.over_field(curve.order()),
    ensures
        res.well_formed(),
        res.order() == curve.order(),
        res.beta() == nonresidue.value(),
        res.model() == pairing_model(
            curve.a.value(),
            curve.order(),
            nonresidue.value(),
            r as nat,
            p.model(),
            q.model(),
        ),
{
    let f = miller_loop(curve, nonresidue, p, q, r);
    let m = curve.a.modulus() as u64;
    assert(m >= 2);
    assert(1 <= m * m <= 0xffff_ffff * 0xffff_ffff) by (nonlinear_arith)
        requires 2 <= m <= 0xffff_ffff;
    f.pow((m * m - 1) / r)
}

} // verus!
