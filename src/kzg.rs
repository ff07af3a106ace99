use vstd::prelude::*;

verus! {

/// Bytes in one blob: 4096 field elements of 32 bytes each.
pub const BYTES_PER_BLOB: usize = 131072;

/// A commitment in its compressed form: one G1 point.
pub type KzgCommitment = [u8; 48];

#[verifier::external_type_specification]
#[verifier::external_body]
pub struct ExKzgSettings(c_kzg::KzgSettings);

#[verifier::external_type_specification]
#[verifier::external_body]
pub struct ExKzgError(c_kzg::Error);

/// The order of the BLS12-381 scalar field.
pub open spec fn bls_modulus() -> nat {
    52435875175126190479447740508185965837690552500527637822603658699938581184513nat
}

/// The integer that the bytes spell, most significant byte first.
pub open spec fn big_endian_value(b: Seq<u8>) -> nat
    decreases b.len(),
{
    if b.len() == 0 {
        0
    } else {
        big_endian_value(b.drop_last()) * 256 + b.last() as nat
    }
}

/// A 32-byte string that encodes an element of the scalar field in canonical form.
pub open spec fn canonical_scalar(b: Seq<u8>) -> bool {
    b.len() == 32 && big_endian_value(b) < bls_modulus()
}

/// Every 32-byte field element of the blob is canonical.
pub open spec fn canonical_blob(b: Seq<u8>) -> bool {
    forall|i: int|
        0 <= i < b.len() / 32 ==> #[trigger] canonical_scalar(b.subrange(32 * i, 32 * i + 32))
}

/// The commitment c-kzg computes for a blob under a setup.
pub uninterp spec fn commitment_of(blob: Seq<u8>, kzg: c_kzg::KzgSettings) -> Seq<u8>;

/// The proof and the value c-kzg computes for a blob at a point under a setup.
pub uninterp spec fn kzg_proof_of(blob: Seq<u8>, z: Seq<u8>, kzg: c_kzg::KzgSettings) -> (
    Seq<u8>,
    Seq<u8>,
);

/// The verdict of c-kzg's pairing check on well-formed inputs.
pub uninterp spec fn proof_check_of(
    commitment: Seq<u8>,
    z: Seq<u8>,
    y: Seq<u8>,
    proof: Seq<u8>,
    kzg: c_kzg::KzgSettings,
) -> bool;

/// Why a commitment, an opening or a check could not be computed.
#[derive(Debug)]
pub enum KzgError {
    /// The blob does not hold exactly `BYTES_PER_BLOB` bytes.
    InvalidBlobLength,
    /// The backend refused an input (a non-canonical field element, a point off the curve)
    /// or could not allocate its working memory.
    Backend(c_kzg::Error),
}

/// Relies on c_kzg::KzgCommitment::blob_to_kzg_commitment: a function of the blob and the
/// setup, which refuses a blob holding a non-canonical field element
/// (`blob_to_polynomial` in c_kzg_4844.c).
#[verifier::external_body]
fn commit_blob(blob: &[u8; 131072], kzg: &c_kzg::KzgSettings) -> (r: Result<
    KzgCommitment,
    c_kzg::Error,
>)
    ensures
        !canonical_blob(blob@) ==> r is Err,
        r matches Ok(c) ==> c@ == commitment_of(blob@, *kzg),
{
    match c_kzg::KzgCommitment::blob_to_kzg_commitment(&c_kzg::Blob::new(*blob), kzg) {
        Ok(c) => Ok(c.to_bytes().into_inner()),
        Err(e) => Err(e),
    }
}

/// Relies on c_kzg::KzgProof::compute_kzg_proof: a function of the blob, the point and the
/// setup, which refuses a non-canonical field element in the blob or as the point.
#[verifier::external_body]
fn prove_at(blob: &[u8; 131072], z: &[u8; 32], kzg: &c_kzg::KzgSettings) -> (r: Result<
    ([u8; 48], [u8; 32]),
    c_kzg::Error,
>)
    ensures
        !canonical_blob(blob@) || !canonical_scalar(z@) ==> r is Err,
        r matches Ok(res) ==> (res.0@, res.1@) == kzg_proof_of(blob@, z@, *kzg),
{
    match c_kzg::KzgProof::compute_kzg_proof(
        &c_kzg::Blob::new(*blob),
        &c_kzg::Bytes32::from(*z),
        kzg,
    ) {
        Ok((proof, y)) => Ok((proof.to_bytes().into_inner(), *y)),
        Err(e) => Err(e),
    }
}

/// Relies on c_kzg::KzgProof::verify_kzg_proof: the pairing check's verdict, a function of
/// its arguments, after refusing a non-canonical `z` or `y` (and a malformed point).
#[verifier::external_body]
fn check_proof(
    commitment: &[u8; 48],
    z: &[u8; 32],
    y: &[u8; 32],
    proof: &[u8; 48],
    kzg: &c_kzg::KzgSettings,
) -> (r: Result<bool, c_kzg::Error>)
    ensures
        !canonical_scalar(z@) || !canonical_scalar(y@) ==> r is Err,
        r matches Ok(b) ==> b == proof_check_of(commitment@, z@, y@, proof@, *kzg),
{
    c_kzg::KzgProof::verify_kzg_proof(
        &c_kzg::Bytes48::from(*commitment),
        &c_kzg::Bytes32::from(*z),
        &c_kzg::Bytes32::from(*y),
        &c_kzg::Bytes48::from(*proof),
        kzg,
    )
}

/// The blob's bytes in a fixed-size array, where the length is right.
fn blob_array(blob: &[u8]) -> (r: Option<[u8; 131072]>)
    ensures
        r is Some <==> blob@.len() == BYTES_PER_BLOB,
        r matches Some(a) ==> a@ == blob@,
{
    if blob.len() != BYTES_PER_BLOB {
        return None;
    }
    let mut a = [0u8; 131072];
    let mut i: usize = 0;
    while i < BYTES_PER_BLOB
        invariant
            blob@.len() == BYTES_PER_BLOB,
            a@.len() == BYTES_PER_BLOB,
            i <= BYTES_PER_BLOB,
            forall|j: int| 0 <= j < i ==> a@[j] == blob@[j],
        decreases BYTES_PER_BLOB - i,
    {
        a.set(i, blob[i]);
        i = i + 1;
    }
    assert(a@ =~= blob@);
    Some(a)
}

/// Commits to the polynomial whose evaluations the blob's bytes encode.
/// A blob of the wrong length is refused before the setup is touched; one with a
/// non-canonical field element is refused by the backend.
pub fn blob_to_kzg_commitment(blob: &[u8], kzg: &c_kzg::KzgSettings) -> (r: Result<
    KzgCommitment,
    KzgError,
>)
    ensures
        blob@.len() != BYTES_PER_BLOB <==> r matches Err(KzgError::InvalidBlobLength),
        !canonical_blob(blob@) ==> r is Err,
        r matches Ok(c) ==> c@ == commitment_of(blob@, *kzg),
{
    match blob_array(blob) {
        None => Err(KzgError::InvalidBlobLength),
        Some(a) => match commit_blob(&a, kzg) {
            Ok(c) => Ok(c),
            Err(e) => Err(KzgError::Backend(e)),
        },
    }
}

/// Opens the blob's polynomial at `z`: the proof and the value, in compressed form.
/// A blob of the wrong length is refused before the setup is touched; a non-canonical
/// field element, in the blob or as `z`, is refused by the backend.
pub fn compute_kzg_proof(blob: &[u8], z: &[u8; 32], kzg: &c_kzg::KzgSettings) -> (r: Result<
    ([u8; 48], [u8; 32]),
    KzgError,
>)
    ensures
        blob@.len() != BYTES_PER_BLOB <==> r matches Err(KzgError::InvalidBlobLength),
        !canonical_blob(blob@) || !canonical_scalar(z@) ==> r is Err,
        r matches Ok(res) ==> (res.0@, res.1@) == kzg_proof_of(blob@, z@, *kzg),
{
    match blob_array(blob) {
        None => Err(KzgError::InvalidBlobLength),
        Some(a) => match prove_at(&a, z, kzg) {
            Ok(res) => Ok(res),
            Err(e) => Err(KzgError::Backend(e)),
        },
    }
}

/// Checks that `proof` shows the committed polynomial takes the value `y` at `z`.
/// A false proof is `Ok(false)`; only malformed inputs are errors.
pub fn verify_kzg_proof(
    commitment: &KzgCommitment,
    z: &[u8; 32],
    y: &[u8; 32],
    proof: &[u8; 48],
    kzg: &c_kzg::KzgSettings,
) -> (r: Result<bool, KzgError>)
    ensures
        !canonical_scalar(z@) || !canonical_scalar(y@) ==> r is Err,
        r matches Err(e) ==> e is Backend,
        r matches Ok(b) ==> b == proof_check_of(commitment@, z@, y@, proof@, *kzg),
{
    match check_proof(commitment, z, y, proof, kzg) {
        Ok(b) => Ok(b),
        Err(e) => Err(KzgError::Backend(e)),
    }
}

} // verus!
