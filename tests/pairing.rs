use rust_kzg::curves::{Curve, CurvePoint};
use rust_kzg::extension::ExtFieldElement;
use rust_kzg::fields::{Field, PrimeFieldElement};
use rust_kzg::pairing::pair;
use rust_kzg::scheme::{commit, open, verify, CommitError};

// y^2 = x^3 + x over 67 elements: 68 points, a subgroup of order 17 generated by (62, 65),
// embedding degree 2 with i^2 = -1.
const P: u32 = 67;
const R: u64 = 17;

fn base(v: u32) -> PrimeFieldElement {
    PrimeFieldElement::build(v, P).expect("prime modulus")
}

fn scalar(v: u32) -> PrimeFieldElement {
    PrimeFieldElement::build(v, 17).expect("prime modulus")
}

fn curve() -> Curve {
    Curve { a: base(1), b: base(0) }
}

fn minus_one() -> PrimeFieldElement {
    base(P - 1)
}

fn gen() -> CurvePoint {
    CurvePoint::Affine { x: base(62), y: base(65) }
}

fn gt(c0: u32, c1: u32) -> ExtFieldElement {
    ExtFieldElement { c0: base(c0), c1: base(c1), nonresidue: minus_one() }
}

fn e(p: &CurvePoint, q: &CurvePoint) -> ExtFieldElement {
    pair(&curve(), &minus_one(), R, p, q)
}

// Powers of the secret 5 times the generator, on both sides.
fn setup(n: u64) -> Vec<CurvePoint> {
    let c = curve();
    let mut out = Vec::new();
    let mut s = 1u64;
    for _ in 0..n {
        out.push(c.scalar_multiply(&gen(), s));
        s *= 5;
    }
    out
}

#[test]
fn pairing_of_generators_is_a_known_value() {
    let g = gen();
    assert!(curve().is_on_curve(&g));
    assert_eq!(curve().scalar_multiply(&g, 17), CurvePoint::Infinity);
    assert_eq!(e(&g, &g), gt(50, 39));
    // an element of order 17 of the target group
    assert_eq!(gt(50, 39).pow(17), gt(1, 0));
    assert_ne!(gt(50, 39), gt(1, 0));
}

#[test]
fn pairing_is_bilinear_on_sample_scalars() {
    let c = curve();
    let g = gen();
    let base_pairing = e(&g, &g);
    for a in 0..8u64 {
        for b in 0..8u64 {
            let lhs = e(&c.scalar_multiply(&g, a), &c.scalar_multiply(&g, b));
            assert_eq!(lhs, base_pairing.pow(a * b), "a = {}, b = {}", a, b);
        }
    }
    assert_eq!(e(&CurvePoint::Infinity, &g), gt(1, 0));
}

#[test]
fn toy_end_to_end_commit_open_verify() {
    let c = curve();
    let g1 = setup(2);
    let g2 = setup(2);
    let poly = vec![scalar(3), scalar(1)];
    let commitment = commit(&c, &poly, &g1).expect("fits the setup");
    let z = scalar(1);
    let (value, proof) = open(&c, &poly, &z, &g1).expect("fits the setup");
    assert_eq!(value, scalar(4));
    let ok = verify(&c, &minus_one(), R, &g1, &g2, &commitment, &z, &value, &proof);
    assert_eq!(ok, Ok(true));
    // a proof coordinate moved by one unit is no longer a curve point
    let mut moved = proof;
    if let CurvePoint::Affine { x, y } = proof {
        moved = CurvePoint::Affine { x: x.add(&base(1)), y };
    }
    let r = verify(&c, &minus_one(), R, &g1, &g2, &commitment, &z, &value, &moved);
    assert_eq!(r, Err(CommitError::InvalidPoint));
    // another curve point as the proof is a false proof
    let other = c.scalar_multiply(&gen(), 2);
    let r = verify(&c, &minus_one(), R, &g1, &g2, &commitment, &z, &value, &other);
    assert_eq!(r, Ok(false));
}

#[test]
fn toy_tampered_value_is_rejected() {
    let c = curve();
    let g1 = setup(3);
    let g2 = setup(2);
    let poly = vec![scalar(2), scalar(7), scalar(5)];
    let commitment = commit(&c, &poly, &g1).expect("fits the setup");
    for zv in 0..17u32 {
        let z = scalar(zv);
        let (value, proof) = open(&c, &poly, &z, &g1).expect("fits the setup");
        assert_eq!(verify(&c, &minus_one(), R, &g1, &g2, &commitment, &z, &value, &proof), Ok(true));
        for delta in 1..17u32 {
            let wrong = value.add(&scalar(delta));
            let r = verify(&c, &minus_one(), R, &g1, &g2, &commitment, &z, &wrong, &proof);
            assert_eq!(r, Ok(false));
        }
    }
}

#[test]
fn toy_zero_polynomial_opens_and_verifies() {
    let c = curve();
    let g1 = setup(4);
    let g2 = setup(2);
    let poly = vec![scalar(0); 4];
    let commitment = commit(&c, &poly, &g1).expect("fits the setup");
    assert_eq!(commitment, CurvePoint::Infinity);
    // the domain of the 4th roots of unity modulo 17
    for z in [1u32, 4, 16, 13] {
        let (value, proof) = open(&c, &poly, &scalar(z), &g1).expect("fits the setup");
        assert_eq!(value, scalar(0));
        let r = verify(&c, &minus_one(), R, &g1, &g2, &commitment, &scalar(z), &value, &proof);
        assert_eq!(r, Ok(true));
    }
}

#[test]
fn verify_refuses_short_setup() {
    let c = curve();
    let g1 = setup(2);
    let short = setup(1);
    let r = verify(
        &c,
        &minus_one(),
        R,
        &g1,
        &short,
        &gen(),
        &scalar(1),
        &scalar(1),
        &gen(),
    );
    assert_eq!(r, Err(CommitError::InvalidSetup));
}
