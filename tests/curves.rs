use rust_kzg::curves::{Curve, CurvePoint};
use rust_kzg::fields::PrimeFieldElement;

const P: u32 = 23;

fn el(v: u32) -> PrimeFieldElement {
    PrimeFieldElement::build(v, P).expect("prime modulus")
}

fn pt(x: u32, y: u32) -> CurvePoint {
    CurvePoint::Affine { x: el(x), y: el(y) }
}

// y^2 = x^3 + x + 1 over the field of 23 elements: 28 points with infinity.
fn curve() -> Curve {
    Curve { a: el(1), b: el(1) }
}

#[test]
fn generator_multiples_match_hand_values() {
    let c = curve();
    let g = pt(0, 1);
    assert_eq!(c.scalar_multiply(&g, 2), pt(6, 19));
    assert_eq!(c.scalar_multiply(&g, 3), pt(3, 13));
    assert_eq!(c.scalar_multiply(&g, 5), pt(18, 3));
    assert_eq!(c.scalar_multiply(&g, 27), pt(0, 22));
    assert_eq!(c.scalar_multiply(&g, 28), CurvePoint::Infinity);
    assert_eq!(c.double(&g), pt(6, 19));
    assert_eq!(c.add(&g, &pt(6, 19)), pt(3, 13));
}

#[test]
fn infinity_and_negation_laws() {
    let c = curve();
    for k in 0..28u64 {
        let p = c.scalar_multiply(&pt(0, 1), k);
        assert_eq!(c.add(&p, &CurvePoint::Infinity), p);
        assert_eq!(c.add(&CurvePoint::Infinity, &p), p);
        assert!(Curve::is_infinity(&c.add(&p, &c.negate(&p))));
        assert_eq!(c.scalar_multiply(&p, 0), CurvePoint::Infinity);
        assert_eq!(c.scalar_multiply(&p, 1), p);
    }
}

#[test]
fn scalar_multiplication_distributes_over_scalar_sums() {
    let c = curve();
    let g = pt(1, 7);
    for k1 in 0..30u64 {
        for k2 in 0..30u64 {
            let lhs = c.scalar_multiply(&g, k1 + k2);
            let rhs = c.add(&c.scalar_multiply(&g, k1), &c.scalar_multiply(&g, k2));
            assert_eq!(lhs, rhs);
        }
    }
}

#[test]
fn large_scalar_uses_all_bits() {
    let c = curve();
    let g = pt(0, 1);
    // 2^64 - 1 = 28 * q + 15
    assert_eq!(c.scalar_multiply(&g, u64::MAX), c.scalar_multiply(&g, 15));
}

#[test]
fn curve_equation_check() {
    let c = curve();
    assert!(c.is_on_curve(&pt(0, 1)));
    assert!(c.is_on_curve(&pt(3, 13)));
    assert!(c.is_on_curve(&CurvePoint::Infinity));
    assert!(!c.is_on_curve(&pt(0, 2)));
    assert!(!c.is_on_curve(&pt(2, 2)));
    for k in 0..28u64 {
        assert!(c.is_on_curve(&c.scalar_multiply(&pt(0, 1), k)));
    }
}

#[test]
fn vertical_tangent_doubles_to_infinity() {
    // y^2 = x^3 + 1 over 23 elements holds (22, 0), whose tangent is vertical.
    let c = Curve { a: el(0), b: el(1) };
    let p = pt(22, 0);
    assert!(c.is_on_curve(&p));
    assert_eq!(c.double(&p), CurvePoint::Infinity);
    assert_eq!(c.add(&p, &p), CurvePoint::Infinity);
}

#[test]
fn points_from_outside_are_validated() {
    let c = curve();
    assert_eq!(c.point_from_coordinates(3, 13), Ok(pt(3, 13)));
    assert_eq!(c.point_from_coordinates(26, 36), Ok(pt(3, 13)));
    assert_eq!(
        c.point_from_coordinates(3, 12),
        Err(rust_kzg::curves::PointError::InvalidPoint)
    );
}
