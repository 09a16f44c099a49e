use vstd::prelude::*;

verus! {

/// The 32-byte SHA-256 digest of a byte sequence. SHA-256 is a function
/// of the input bytes alone, so the digest can be named without being
/// written out.
pub uninterp spec fn sha256_of(bytes: Seq<u8>) -> Seq<u8>;

/// Relies on sha2::Sha256::digest: returns the SHA-256 digest of the
/// input, which is 32 bytes long and depends on the input bytes alone.
#[verifier::external_body]
pub fn sha256(bytes: &Vec<u8>) -> (r: Vec<u8>)
    ensures
        r@ == sha256_of(bytes@),
        r@.len() == 32,
{
    let digest = <sha2::Sha256 as sha2::Digest>::digest(bytes.as_slice());
    digest.to_vec()
}

/// The 64-byte Ed25519 signature that the given 32-byte secret key
/// produces over a message. RFC 8032 signing is deterministic, so the
/// signature is a function of the key and message bytes alone.
pub uninterp spec fn ed25519_sign_of(key: Seq<u8>, msg: Seq<u8>) -> Seq<u8>;

/// Relies on ed25519_dalek::SigningKey::{from_bytes, try_sign}: signs the
/// message with the key. Construction from 32 bytes cannot fail, signing
/// with a SigningKey always returns Ok, and the signature is 64 bytes.
#[verifier::external_body]
pub fn ed25519_sign(key: &Vec<u8>, msg: &Vec<u8>) -> (r: Vec<u8>)
    requires
        key@.len() == 32,
    ensures
        r@ == ed25519_sign_of(key@, msg@),
        r@.len() == 64,
{
    let mut key_bytes = [0u8; 32];
    key_bytes.copy_from_slice(key.as_slice());
    let signer = ed25519_dalek::SigningKey::from_bytes(&key_bytes);
    let signature = ed25519_dalek::ed25519::signature::Signer::try_sign(
        &signer,
        msg.as_slice(),
    ).unwrap();
    signature.to_bytes().to_vec()
}

/// Whether a purported 64-byte Ed25519 signature passes strict
/// verification under a purported 32-byte public key for a message.
/// Strict verification is deterministic in the three byte strings alone.
pub uninterp spec fn ed25519_verifies(key: Seq<u8>, msg: Seq<u8>, sig: Seq<u8>) -> bool;

/// Relies on ed25519_dalek::VerifyingKey::{from_bytes, verify_strict} and
/// ed25519_dalek::Signature::from_bytes: decides whether the signature
/// verifies strictly under the key; an undecodable key never verifies.
#[verifier::external_body]
pub fn ed25519_verify(key: &Vec<u8>, msg: &Vec<u8>, sig: &Vec<u8>) -> (r: bool)
    requires
        key@.len() == 32,
        sig@.len() == 64,
    ensures
        r == ed25519_verifies(key@, msg@, sig@),
{
    let mut key_bytes = [0u8; 32];
    key_bytes.copy_from_slice(key.as_slice());
    let verifier = match ed25519_dalek::VerifyingKey::from_bytes(&key_bytes) {
        Ok(v) => v,
        Err(_) => return false,
    };
    let mut sig_bytes = [0u8; 64];
    sig_bytes.copy_from_slice(sig.as_slice());
    let signature = ed25519_dalek::Signature::from_bytes(&sig_bytes);
    verifier.verify_strict(msg.as_slice(), &signature).is_ok()
}

/// Whether 32 bytes decode to a valid Ed25519 public key, a property of
/// the bytes alone.
pub uninterp spec fn ed25519_key_valid(key: Seq<u8>) -> bool;

/// Relies on ed25519_dalek::VerifyingKey::from_bytes: decides whether the
/// bytes form a valid public key (a decompressable curve point).
#[verifier::external_body]
pub fn ed25519_check_key(key: &Vec<u8>) -> (r: bool)
    requires
        key@.len() == 32,
    ensures
        r == ed25519_key_valid(key@),
{
    let mut key_bytes = [0u8; 32];
    key_bytes.copy_from_slice(key.as_slice());
    ed25519_dalek::VerifyingKey::from_bytes(&key_bytes).is_ok()
}

} // verus!
