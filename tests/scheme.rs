use rust_kzg::curves::{Curve, CurvePoint};
use rust_kzg::fields::{Field, PrimeFieldElement};
use rust_kzg::polynomial::{divide_by_linear, evaluate};
use rust_kzg::scheme::{commit, open, CommitError};

fn base(v: u32) -> PrimeFieldElement {
    PrimeFieldElement::build(v, 23).expect("prime modulus")
}

fn scalar(v: u32) -> PrimeFieldElement {
    PrimeFieldElement::build(v, 17).expect("prime modulus")
}

fn pt(x: u32, y: u32) -> CurvePoint {
    CurvePoint::Affine { x: base(x), y: base(y) }
}

fn curve() -> Curve {
    Curve { a: base(1), b: base(1) }
}

// Powers of the secret 5 times the generator (0, 1).
fn setup(n: u64) -> Vec<CurvePoint> {
    let c = curve();
    let mut out = Vec::new();
    let mut s = 1u64;
    for _ in 0..n {
        out.push(c.scalar_multiply(&pt(0, 1), s));
        s *= 5;
    }
    out
}

#[test]
fn horner_evaluation() {
    let poly = vec![scalar(3), scalar(1), scalar(2)];
    // 3 + 4 + 2 * 16 = 39 = 5 (mod 17)
    assert_eq!(evaluate(&poly, &scalar(4)), scalar(5));
    assert_eq!(evaluate(&vec![], &scalar(4)), scalar(0));
}

#[test]
fn synthetic_division_by_linear_factor() {
    // (2x^2 + x + 3) = (x - 4)(2x + 9) + 5 over 17 elements
    let poly = vec![scalar(3), scalar(1), scalar(2)];
    let (q, r) = divide_by_linear(&poly, &scalar(4));
    assert_eq!(q, vec![scalar(9), scalar(2)]);
    assert_eq!(r, scalar(5));
    let x = scalar(7);
    let lhs = evaluate(&poly, &x).sub(&r);
    let rhs = evaluate(&q, &x).mul(&x.sub(&scalar(4)));
    assert_eq!(lhs, rhs);
}

#[test]
fn commit_open_end_to_end() {
    let c = curve();
    let g1 = setup(2);
    let poly = vec![scalar(3), scalar(1)];
    let commitment = commit(&c, &poly, &g1).expect("fits the setup");
    // 3 * G + 1 * (5 * G) = 8 * G
    assert_eq!(commitment, c.scalar_multiply(&pt(0, 1), 8));
    assert_eq!(commitment, pt(5, 19));
    let (value, proof) = open(&c, &poly, &scalar(1), &g1).expect("fits the setup");
    assert_eq!(value, scalar(4));
    // the quotient is the constant 1, so the proof is the setup's first power
    assert_eq!(proof, pt(0, 1));
    let mut tampered = proof;
    if let CurvePoint::Affine { x, y } = proof {
        tampered = CurvePoint::Affine { x: x.add(&base(1)), y };
    }
    assert_ne!(tampered, proof);
    assert!(!c.is_on_curve(&tampered));
}

#[test]
fn zero_polynomial_commits_to_infinity() {
    let c = curve();
    let g1 = setup(4);
    let poly = vec![scalar(0), scalar(0), scalar(0), scalar(0)];
    assert_eq!(commit(&c, &poly, &g1), Ok(CurvePoint::Infinity));
    for z in 0..17 {
        let (value, proof) = open(&c, &poly, &scalar(z), &g1).expect("fits the setup");
        assert_eq!(value, scalar(0));
        assert_eq!(proof, CurvePoint::Infinity);
    }
}

#[test]
fn polynomial_longer_than_setup_is_refused() {
    let c = curve();
    let g1 = setup(2);
    let poly = vec![scalar(1), scalar(2), scalar(3)];
    assert_eq!(commit(&c, &poly, &g1), Err(CommitError::DegreeTooLarge));
    assert!(open(&c, &poly, &scalar(1), &g1).is_ok());
    let longer = vec![scalar(1), scalar(2), scalar(3), scalar(4)];
    assert_eq!(open(&c, &longer, &scalar(1), &g1), Err(CommitError::DegreeTooLarge));
    assert_eq!(commit(&c, &vec![], &g1), Ok(CurvePoint::Infinity));
}
