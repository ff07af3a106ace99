use vstd::arithmetic::power2::pow2;
use vstd::prelude::*;

use crate::fields::{
    field_add, field_div, field_mul, field_sub, Field, PrimeFieldElement,
};

verus! {

/// A point of a short Weierstrass curve: the point at infinity or an affine pair.
#[derive(Debug, Clone, Copy, PartialEq, Eq, Structural)]
pub enum CurvePoint {
    Infinity,
    Affine { x: PrimeFieldElement, y: PrimeFieldElement },
}

/// The curve `y^2 = x^3 + a*x + b` over the prime field that holds `a` and `b`.
#[derive(Debug, Clone, Copy)]
pub struct Curve {
    pub a: PrimeFieldElement,
    pub b: PrimeFieldElement,
}

/// Why a point from outside was refused.
#[derive(Debug, Clone, Copy, PartialEq, Eq, Structural)]
pub enum PointError {
    /// The coordinates do not satisfy the curve equation.
    InvalidPoint,
}

/// A point as plain values: `None` is the point at infinity.
pub type PointModel = Option<(nat, nat)>;

impl CurvePoint {
    pub open spec fn model(&self) -> PointModel {
        match self {
            CurvePoint::Infinity => None,
            CurvePoint::Affine { x, y } => Some((x.value(), y.value())),
        }
    }

    /// The coordinates are well-formed elements of the field of order `m`.
    pub open spec fn over_field(&self, m: nat) -> bool {
        match self {
            CurvePoint::Infinity => true,
            CurvePoint::Affine { x, y } => x.well_formed() && y.well_formed() && x.order() == m
                && y.order() == m,
        }
    }
}

/// The tangent step at `(x, y)`, for `2y` nonzero.
pub open spec fn tangent(a: nat, m: nat, x: nat, y: nat) -> PointModel {
    let xx = field_mul(x, x, m);
    let num = field_add(field_add(field_add(xx, xx, m), xx, m), a, m);
    let l = field_div(num, field_add(y, y, m), m);
    let x3 = field_sub(field_sub(field_mul(l, l, m), x, m), x, m);
    let y3 = field_sub(field_mul(l, field_sub(x, x3, m), m), y, m);
    Some((x3, y3))
}

/// The chord step through two points with distinct `x`.
pub open spec fn chord(m: nat, x1: nat, y1: nat, x2: nat, y2: nat) -> PointModel {
    let l = field_div(field_sub(y2, y1, m), field_sub(x2, x1, m), m);
    let x3 = field_sub(field_sub(field_mul(l, l, m), x1, m), x2, m);
    let y3 = field_sub(field_mul(l, field_sub(x1, x3, m), m), y1, m);
    Some((x3, y3))
}

/// Doubling: infinity where the tangent is vertical.
pub open spec fn double_model(a: nat, m: nat, p: PointModel) -> PointModel {
    match p {
        None => None,
        Some((x, y)) => if field_add(y, y, m) == 0 {
            None
        } else {
            tangent(a, m, x, y)
        },
    }
}

/// The group law: infinity is the identity, a point plus its mirror image is infinity,
/// equal `x` otherwise doubles, distinct `x` takes the chord.
pub open spec fn add_model(a: nat, m: nat, p: PointModel, q: PointModel) -> PointModel {
    match (p, q) {
        (None, _) => q,
        (_, None) => p,
        (Some((x1, y1)), Some((x2, y2))) => if x1 == x2 {
            if field_add(y1, y2, m) == 0 {
                None
            } else {
                double_model(a, m, p)
            }
        } else {
            chord(m, x1, y1, x2, y2)
        },
    }
}

pub open spec fn negate_model(m: nat, p: PointModel) -> PointModel {
    match p {
        None => None,
        Some((x, y)) => Some((x, field_sub(0, y, m))),
    }
}

/// `k` times `p`, by doubling for each bit of `k` from the top and adding `p` for each set bit.
pub open spec fn scalar_model(a: nat, m: nat, p: PointModel, k: nat) -> PointModel
    decreases k,
{
    if k == 0 {
        None
    } else {
        let d = double_model(a, m, scalar_model(a, m, p, k / 2));
        if k % 2 == 1 {
            add_model(a, m, d, p)
        } else {
            d
        }
    }
}

/// The curve equation `y^2 = x^3 + a*x + b` modulo `m`.
pub open spec fn on_curve_model(a: nat, b: nat, m: nat, p: PointModel) -> bool {
    match p {
        None => true,
        Some((x, y)) => field_mul(y, y, m) == field_add(
            field_add(field_mul(field_mul(x, x, m), x, m), field_mul(a, x, m), m),
            b,
            m,
        ),
    }
}

/// Two distinct residues differ by a nonzero residue.
proof fn lemma_distinct_residues(a: nat, b: nat, m: nat)
    requires
        a < m,
        b < m,
        a != b,
    ensures
        field_sub(a, b, m) != 0,
{
    let q = (a - b) / (m as int);
    vstd::arithmetic::div_mod::lemma_fundamental_div_mod(a - b, m as int);
    if (a - b) % (m as int) == 0 {
        assert(false) by (nonlinear_arith)
            requires a - b == m * q, a < m, b < m, a != b;
    }
}

impl Curve {
    pub open spec fn well_formed(&self) -> bool {
        self.a.well_formed() && self.b.well_formed() && self.a.order() == self.b.order()
    }

    pub open spec fn order(&self) -> nat {
        self.a.order()
    }

    pub fn is_infinity(p: &CurvePoint) -> (r: bool)
        ensures
            r == (p.model() is None),
    {
        match p {
            CurvePoint::Infinity => true,
            CurvePoint::Affine { .. } => false,
        }
    }

    /// The mirror image of `p` across the `x` axis.
    pub fn negate(&self, p: &CurvePoint) -> (r: CurvePoint)
        requires
            self.well_formed(),
            p.over_field(self.order()),
        ensures
            r.over_field(self.order()),
            r.model() == negate_model(self.order(), p.model()),
    {
        match p {
            CurvePoint::Infinity => CurvePoint::Infinity,
            CurvePoint::Affine { x, y } => {
                let zero = y.zero_like();
                CurvePoint::Affine { x: *x, y: zero.sub(y) }
            },
        }
    }

    /// Doubling by the tangent rule.
    pub fn double(&self, p: &CurvePoint) -> (r: CurvePoint)
        requires
            self.well_formed(),
            p.over_field(self.order()),
        ensures
            r.over_field(self.order()),
            r.model() == double_model(self.a.value(), self.order(), p.model()),
    {
        match p {
            CurvePoint::Infinity => CurvePoint::Infinity,
            CurvePoint::Affine { x, y } => {
                let two_y = y.add(y);
                if two_y.element() == 0 {
                    return CurvePoint::Infinity;
                }
                let xx = x.mul(x);
                let num = xx.add(&xx).add(&xx).add(&self.a);
                let l = num.div(&two_y);
                let x3 = l.mul(&l).sub(x).sub(x);
                let y3 = l.mul(&x.sub(&x3)).sub(y);
                CurvePoint::Affine { x: x3, y: y3 }
            },
        }
    }

    /// The group law; doubling and the chord rule are separate paths.
    pub fn add(&self, p: &CurvePoint, q: &CurvePoint) -> (r: CurvePoint)
        requires
            self.well_formed(),
            p.over_field(self.order()),
            q.over_field(self.order()),
        ensures
            r.over_field(self.order()),
            r.model() == add_model(self.a.value(), self.order(), p.model(), q.model()),
    {
        match (p, q) {
            (CurvePoint::Infinity, _) => *q,
            (_, CurvePoint::Infinity) => *p,
            (CurvePoint::Affine { x: x1, y: y1 }, CurvePoint::Affine { x: x2, y: y2 }) => {
                if x1.element() == x2.element() {
                    if y1.add(y2).element() == 0 {
                        CurvePoint::Infinity
                    } else {
                        self.double(p)
                    }
                } else {
                    let dx = x2.sub(x1);
                    proof {
                        lemma_distinct_residues(x2.value(), x1.value(), self.order());
                    }
                    let l = y2.sub(y1).div(&dx);
                    let x3 = l.mul(&l).sub(x1).sub(x2);
                    let y3 = l.mul(&x1.sub(&x3)).sub(y1);
                    CurvePoint::Affine { x: x3, y: y3 }
                }
            },
        }
    }

    /// Whether `p` satisfies the curve equation; the check for points from outside.
    pub fn is_on_curve(&self, p: &CurvePoint) -> (r: bool)
        requires
            self.well_formed(),
            p.over_field(self.order()),
        ensures
            r == on_curve_model(self.a.value(), self.b.value(), self.order(), p.model()),
    {
        match p {
            CurvePoint::Infinity => true,
            CurvePoint::Affine { x, y } => {
                let lhs = y.mul(y);
                let rhs = x.mul(x).mul(x).add(&self.a.mul(x)).add(&self.b);
                lhs.element() == rhs.element()
            },
        }
    }

    /// Takes coordinates from outside the library: reduces them into the curve's field and
    /// accepts the point only if it satisfies the curve equation.
    pub fn point_from_coordinates(&self, x: u64, y: u64) -> (r: Result<CurvePoint, PointError>)
        requires
            self.well_formed(),
        ensures
            r is Err <==> !on_curve_model(
                self.a.value(),
                self.b.value(),
                self.order(),
                Some(((x as nat) % self.order(), (y as nat) % self.order())),
            ),
            r matches Err(e) ==> e == PointError::InvalidPoint,
            r matches Ok(p) ==> p.over_field(self.order()) && p.model() == Some(
                ((x as nat) % self.order(), (y as nat) % self.order()),
            ),
    {
        let p = CurvePoint::Affine { x: self.a.with_value(x), y: self.a.with_value(y) };
        if self.is_on_curve(&p) {
            Ok(p)
        } else {
            Err(PointError::InvalidPoint)
        }
    }

    /// `k` times `p`: one doubling and one addition for each of the 64 bits of `k`,
    /// the addition's result kept only where the bit is set.
    pub fn scalar_multiply(&self, p: &CurvePoint, k: u64) -> (r: CurvePoint)
        requires
            self.well_formed(),
            p.over_field(self.order()),
        ensures
            r.over_field(self.order()),
            r.model() == scalar_model(self.a.value(), self.order(), p.model(), k as nat),
    {
        let mut acc = CurvePoint::Infinity;
        let mut i: u32 = 64;
        let mut d: u64 = 0x8000_0000_0000_0000;
        proof {
            vstd::arithmetic::power2::lemma2_to64();
            vstd::arithmetic::power2::lemma2_to64_rest();
            vstd::arithmetic::power2::lemma_pow2_unfold(64);
            vstd::arithmetic::div_mod::lemma_basic_div(k as int, 0x1_0000_0000_0000_0000);
        }
        while i > 0
            invariant
                i <= 64,
                i > 0 ==> d as nat == pow2((i - 1) as nat),
                self.well_formed(),
                p.over_field(self.order()),
                acc.over_field(self.order()),
                acc.model() == scalar_model(
                    self.a.value(),
                    self.order(),
                    p.model(),
                    (k as nat) / pow2(i as nat),
                ),
            decreases i,
        {
            proof {
                vstd::arithmetic::power2::lemma_pow2_pos((i - 1) as nat);
            }
            let cur = k / d;
            let bit = cur % 2;
            let dbl = self.double(&acc);
            let sum = self.add(&dbl, p);
            proof {
                vstd::arithmetic::power2::lemma_pow2_pos((i - 1) as nat);
                vstd::arithmetic::power2::lemma_pow2_unfold(i as nat);
                vstd::arithmetic::div_mod::lemma_div_denominator(
                    k as int,
                    pow2((i - 1) as nat) as int,
                    2,
                );
                assert(pow2((i - 1) as nat) * 2 == pow2(i as nat));
            }
            acc = if bit == 1 { sum } else { dbl };
            if i > 1 {
                proof {
                    vstd::arithmetic::power2::lemma_pow2_unfold((i - 1) as nat);
                }
                d = d / 2;
            }
            i = i - 1;
        }
        proof {
            vstd::arithmetic::power2::lemma_pow2(0);
            vstd::arithmetic::power::lemma_pow0(2);
            vstd::arithmetic::div_mod::lemma_div_basics(k as int);
        }
        acc
    }
}

/// Identity and inverse laws of the point group: infinity is neutral on the right, a point
/// plus its negation is infinity, zero times a point is infinity and one times it is itself.
pub proof fn lemma_point_identities(curve: Curve, p: CurvePoint)
    requires
        curve.well_formed(),
        p.over_field(curve.order()),
    ensures
        add_model(curve.a.value(), curve.order(), p.model(), None) == p.model(),
        add_model(
            curve.a.value(),
            curve.order(),
            p.model(),
            negate_model(curve.order(), p.model()),
        ) is None,
        scalar_model(curve.a.value(), curve.order(), p.model(), 0) is None,
        scalar_model(curve.a.value(), curve.order(), p.model(), 1) == p.model(),
{
    let m = curve.order();
    if let CurvePoint::Affine { x, y } = p {
        let v = y.value() as int;
        vstd::arithmetic::div_mod::lemma_add_mod_noop(v, 0 - v, m as int);
        vstd::arithmetic::div_mod::lemma_small_mod(y.value(), m);
        vstd::arithmetic::div_mod::lemma_mod_twice(0 - v, m as int);
        vstd::arithmetic::div_mod::lemma_small_mod(0, m);
        assert(field_add(y.value(), field_sub(0, y.value(), m), m) == 0);
    }
    assert(scalar_model(curve.a.value(), m, p.model(), 1) == add_model(
        curve.a.value(),
        m,
        double_model(curve.a.value(), m, scalar_model(curve.a.value(), m, p.model(), 0)),
        p.model(),
    ));
}

} // verus!
