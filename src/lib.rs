//! KZG polynomial commitments: prime and extension field arithmetic, a short Weierstrass
//! curve group, polynomials and their evaluation-domain transforms, commit and open over a
//! setup of curve points, and the BLS12-381 commitment, opening and verification of c-kzg.

pub mod curves;
pub mod extension;
pub mod fermat;
pub mod fields;
pub mod kzg;
pub mod pairing;
pub mod polynomial;
pub mod scheme;
pub mod sums;
pub mod transform;
