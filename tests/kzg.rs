use rust_kzg::kzg::{
    blob_to_kzg_commitment, compute_kzg_proof, verify_kzg_proof, KzgError, BYTES_PER_BLOB,
};

#[test]
fn it_works() {
    assert_eq!(4, 4);
}

#[test]
fn blob_length_is_the_field_elements_times_their_width() {
    assert_eq!(BYTES_PER_BLOB, 4096 * 32);
}

fn infinity_compressed() -> [u8; 48] {
    let mut c = [0u8; 48];
    c[0] = 0xc0;
    c
}

#[test]
fn zero_blob_commits_to_infinity() {
    let kzg = c_kzg::ethereum_kzg_settings();
    let blob = vec![0u8; BYTES_PER_BLOB];
    let c = blob_to_kzg_commitment(&blob, kzg).expect("valid blob");
    assert_eq!(c, infinity_compressed());
}

#[test]
fn wrong_blob_length_is_refused() {
    let kzg = c_kzg::ethereum_kzg_settings();
    let short = vec![0u8; BYTES_PER_BLOB - 1];
    assert!(matches!(
        blob_to_kzg_commitment(&short, kzg),
        Err(KzgError::InvalidBlobLength)
    ));
    assert!(matches!(
        compute_kzg_proof(&short, &[0u8; 32], kzg),
        Err(KzgError::InvalidBlobLength)
    ));
}

#[test]
fn non_canonical_field_element_is_a_backend_error() {
    let kzg = c_kzg::ethereum_kzg_settings();
    let blob = vec![0xffu8; BYTES_PER_BLOB];
    assert!(matches!(
        blob_to_kzg_commitment(&blob, kzg),
        Err(KzgError::Backend(_))
    ));
}

#[test]
fn open_and_verify_round_trip_and_tamper() {
    let kzg = c_kzg::ethereum_kzg_settings();
    let mut blob = vec![0u8; BYTES_PER_BLOB];
    // the first field element is 3, the second 1
    blob[31] = 3;
    blob[63] = 1;
    let c = blob_to_kzg_commitment(&blob, kzg).expect("valid blob");
    assert_ne!(c, infinity_compressed());
    let mut z = [0u8; 32];
    z[31] = 5;
    let (proof, y) = compute_kzg_proof(&blob, &z, kzg).expect("valid blob");
    assert!(verify_kzg_proof(&c, &z, &y, &proof, kzg).expect("well-formed"));
    let mut wrong_y = y;
    wrong_y[31] ^= 1;
    assert!(!verify_kzg_proof(&c, &z, &wrong_y, &proof, kzg).expect("well-formed"));
    let zero_commit = blob_to_kzg_commitment(&vec![0u8; BYTES_PER_BLOB], kzg).expect("valid");
    assert!(!verify_kzg_proof(&zero_commit, &z, &y, &proof, kzg).expect("well-formed"));
}

#[test]
fn zero_blob_opens_to_zero_and_verifies() {
    let kzg = c_kzg::ethereum_kzg_settings();
    let blob = vec![0u8; BYTES_PER_BLOB];
    let c = blob_to_kzg_commitment(&blob, kzg).expect("valid blob");
    let mut z = [0u8; 32];
    z[31] = 7;
    let (proof, y) = compute_kzg_proof(&blob, &z, kzg).expect("valid blob");
    assert_eq!(y, [0u8; 32]);
    assert_eq!(proof, infinity_compressed());
    assert_eq!(verify_kzg_proof(&c, &z, &y, &proof, kzg).ok(), Some(true));
}

#[test]
fn malformed_commitment_is_an_error_not_false() {
    let kzg = c_kzg::ethereum_kzg_settings();
    let bad = [0xffu8; 48];
    let r = verify_kzg_proof(&bad, &[0u8; 32], &[0u8; 32], &infinity_compressed(), kzg);
    assert!(matches!(r, Err(KzgError::Backend(_))));
}

#[test]
fn non_canonical_scalars_are_refused() {
    let kzg = c_kzg::ethereum_kzg_settings();
    let blob = vec![0u8; BYTES_PER_BLOB];
    let too_big = [0xffu8; 32];
    assert!(matches!(
        compute_kzg_proof(&blob, &too_big, kzg),
        Err(KzgError::Backend(_))
    ));
    let c = infinity_compressed();
    assert!(matches!(
        verify_kzg_proof(&c, &too_big, &[0u8; 32], &c, kzg),
        Err(KzgError::Backend(_))
    ));
    assert!(matches!(
        verify_kzg_proof(&c, &[0u8; 32], &too_big, &c, kzg),
        Err(KzgError::Backend(_))
    ));
}
