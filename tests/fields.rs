use rust_kzg::fields::{is_prime, Field, FieldError, PrimeFieldElement};

#[test]
fn modulo() {
    let modulus = 17;
    let res = PrimeFieldElement::build(26, modulus).expect("Modulus should be prime in test");
    assert_eq!(
        res,
        PrimeFieldElement::build(9, modulus).expect("Modulus should be prime in test")
    )
}

#[test]
fn add() {
    let modulus = 17;
    let a = PrimeFieldElement::build(9, modulus).expect("Modulus should be prime in test");
    let b = PrimeFieldElement::build(10, modulus).expect("Modulus should be prime in test");

    let res = a.add(&b);
    assert_eq!(
        res,
        PrimeFieldElement::build(2, modulus).expect("Modulus should be prime in test")
    );
}

#[test]
fn sub() {
    let modulus = 17;
    let a = PrimeFieldElement::build(9, modulus).expect("Modulus should be prime in test");
    let b = PrimeFieldElement::build(10, modulus).expect("Modulus should be prime in test");

    let res = a.sub(&b);
    assert_eq!(
        res,
        PrimeFieldElement::build(16, modulus).expect("Modulus should be prime in test")
    );
}

#[test]
fn mul() {
    let modulus = 17;
    let a = PrimeFieldElement::build(9, modulus).expect("Modulus should be prime in test");
    let b = PrimeFieldElement::build(10, modulus).expect("Modulus should be prime in test");

    let res = a.mul(&b);
    assert_eq!(
        res,
        PrimeFieldElement::build(5, modulus).expect("Modulus should be prime in test")
    );
}

#[test]
fn div() {
    let modulus = 7;
    let a = PrimeFieldElement::build(3, modulus).expect("Modulus should be prime in test");
    let b = PrimeFieldElement::build(2, modulus).expect("Modulus should be prime in test");

    let res = a.div(&b);
    assert_eq!(
        res,
        PrimeFieldElement::build(5, modulus).expect("Modulus should be prime in test")
    );
}

fn el(v: u32, m: u32) -> PrimeFieldElement {
    PrimeFieldElement::build(v, m).expect("prime modulus")
}

#[test]
fn primality_by_trial_division() {
    let primes = [2u32, 3, 5, 7, 17, 65537, 4294967291];
    for p in primes {
        assert!(is_prime(p), "{} is prime", p);
    }
    let composites = [0u32, 1, 4, 9, 15, 25, 65535, 4294967295, 65521 * 65521];
    for c in composites {
        assert!(!is_prime(c), "{} is not prime", c);
    }
}

#[test]
fn build_rejects_composite_modulus() {
    assert!(PrimeFieldElement::build(3, 26).is_err());
    assert!(PrimeFieldElement::build(3, 1).is_err());
    assert!(PrimeFieldElement::build(3, 0).is_err());
}

#[test]
fn build_reduces_and_exposes_parts() {
    let e = el(40, 17);
    assert_eq!(e.element(), 6);
    assert_eq!(e.modulus(), 17);
}

#[test]
fn add_then_sub_round_trips() {
    for x in 0..17u32 {
        for y in 0..17u32 {
            let a = el(x, 17);
            let b = el(y, 17);
            assert_eq!(a.add(&b).sub(&b), a);
        }
    }
}

#[test]
fn mul_then_div_round_trips() {
    for x in 0..17u32 {
        for y in 1..17u32 {
            let a = el(x, 17);
            let b = el(y, 17);
            assert_eq!(a.mul(&b).div(&b), a);
        }
    }
}

#[test]
fn inverse_times_self_is_one() {
    for x in 1..17u32 {
        let a = el(x, 17);
        assert_eq!(a.mul(&a.inverse()), el(1, 17));
    }
    assert_eq!(el(3, 7).inverse(), el(5, 7));
}

#[test]
fn arithmetic_near_the_largest_modulus() {
    let p = 4294967291u32;
    let a = el(p - 1, p);
    let b = el(p - 2, p);
    assert_eq!(a.add(&b).element(), p - 3);
    assert_eq!(b.sub(&a).element(), p - 1);
    assert_eq!(a.mul(&a).element(), 1);
    assert_eq!(a.inverse(), a);
    assert_eq!(a.mul(&b).div(&b), a);
}

#[test]
fn checked_div_by_zero_fails() {
    let a = el(5, 17);
    let z = el(0, 17);
    assert_eq!(a.checked_div(&z), Err(FieldError::DivisionByZero));
    assert_eq!(a.checked_div(&el(2, 17)), Ok(el(11, 17)));
}

#[test]
fn mismatched_fields_are_refused() {
    let a = el(5, 17);
    let b = el(5, 13);
    assert_eq!(a.checked_add(&b), Err(FieldError::FieldMismatch));
    assert_eq!(a.checked_sub(&b), Err(FieldError::FieldMismatch));
    assert_eq!(a.checked_mul(&b), Err(FieldError::FieldMismatch));
    assert_eq!(a.checked_div(&b), Err(FieldError::FieldMismatch));
    assert_eq!(a.checked_add(&el(15, 17)), Ok(el(3, 17)));
    assert_eq!(a.checked_sub(&el(15, 17)), Ok(el(7, 17)));
    assert_eq!(a.checked_mul(&el(15, 17)), Ok(el(7, 17)));
}
