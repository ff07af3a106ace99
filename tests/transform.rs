use rust_kzg::fields::PrimeFieldElement;
use rust_kzg::polynomial::evaluate;
use rust_kzg::transform::{
    evaluate_in_evaluation_form, to_coefficient_form, to_evaluation_form, Domain, TransformError,
};

fn el(v: u32) -> PrimeFieldElement {
    PrimeFieldElement::build(v, 17).expect("prime modulus")
}

fn els(vs: &[u32]) -> Vec<PrimeFieldElement> {
    vs.iter().map(|v| el(*v)).collect()
}

// 4 is a primitive 4th root of unity modulo 17: 4^2 = 16, 4^4 = 1.
fn domain4() -> Domain {
    Domain { omega: el(4), size: 4 }
}

#[test]
fn forward_transform_values() {
    let evals = to_evaluation_form(&els(&[1, 2, 3, 4]), &domain4()).expect("sizes match");
    assert_eq!(evals, els(&[10, 7, 15, 6]));
}

#[test]
fn inverse_transform_values() {
    let coeffs = to_coefficient_form(&els(&[10, 7, 15, 6]), &domain4()).expect("sizes match");
    assert_eq!(coeffs, els(&[1, 2, 3, 4]));
}

#[test]
fn transform_round_trips() {
    let samples = [[0u32, 0, 0, 0], [1, 0, 0, 0], [16, 5, 0, 9], [3, 14, 15, 9]];
    for s in samples {
        let c = els(&s);
        let e = to_evaluation_form(&c, &domain4()).expect("sizes match");
        assert_eq!(to_coefficient_form(&e, &domain4()).expect("sizes match"), c);
    }
    // 2 has order 8 modulo 17
    let d8 = Domain { omega: el(2), size: 8 };
    let c = els(&[1, 2, 3, 4, 5, 6, 7, 8]);
    let e = to_evaluation_form(&c, &d8).expect("sizes match");
    assert_eq!(to_coefficient_form(&e, &d8).expect("sizes match"), c);
}

#[test]
fn size_mismatch_is_refused() {
    assert_eq!(
        to_evaluation_form(&els(&[1, 2, 3]), &domain4()),
        Err(TransformError::DomainSizeMismatch)
    );
    assert_eq!(
        to_coefficient_form(&els(&[1, 2, 3, 4, 5]), &domain4()),
        Err(TransformError::DomainSizeMismatch)
    );
}

#[test]
fn barycentric_evaluation_matches_horner() {
    let coeffs = els(&[1, 2, 3, 4]);
    let evals = els(&[10, 7, 15, 6]);
    // 1 + 2*2 + 3*4 + 4*8 = 49 = 15 (mod 17)
    assert_eq!(evaluate_in_evaluation_form(&evals, &domain4(), &el(2)), Ok(el(15)));
    // at a domain point the stored value comes back
    assert_eq!(evaluate_in_evaluation_form(&evals, &domain4(), &el(4)), Ok(el(7)));
    assert_eq!(evaluate_in_evaluation_form(&evals, &domain4(), &el(1)), Ok(el(10)));
    for z in 0..17u32 {
        assert_eq!(
            evaluate_in_evaluation_form(&evals, &domain4(), &el(z)),
            Ok(evaluate(&coeffs, &el(z)))
        );
    }
    assert_eq!(
        evaluate_in_evaluation_form(&els(&[1, 2]), &domain4(), &el(2)),
        Err(TransformError::DomainSizeMismatch)
    );
}
