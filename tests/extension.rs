use rust_kzg::extension::ExtFieldElement;
use rust_kzg::fields::{Field, PrimeFieldElement};

fn el(v: u32) -> PrimeFieldElement {
    PrimeFieldElement::build(v, 17).expect("prime modulus")
}

// 3 is not a square modulo 17.
fn ext(c0: u32, c1: u32) -> ExtFieldElement {
    ExtFieldElement { c0: el(c0), c1: el(c1), nonresidue: el(3) }
}

#[test]
fn extension_arithmetic_values() {
    let a = ext(2, 5);
    let b = ext(7, 3);
    assert_eq!(a.add(&b), ext(9, 8));
    assert_eq!(a.sub(&b), ext(12, 2));
    // (2 + 5u)(7 + 3u) = 14 + 45 + (6 + 35)u with u^2 = 3
    assert_eq!(a.mul(&b), ext(8, 7));
}

#[test]
fn extension_inverse_and_division() {
    for c0 in 0..17u32 {
        for c1 in 0..17u32 {
            if c0 == 0 && c1 == 0 {
                continue;
            }
            let a = ext(c0, c1);
            assert_eq!(a.mul(&a.inverse()), ext(1, 0));
            let b = ext(4, 11);
            assert_eq!(b.div(&a).mul(&a), b);
        }
    }
}
