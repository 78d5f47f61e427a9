//! The two cryptographic primitives the ledger is built on, behind trusted
//! wrappers: a 32-byte digest of a byte string, and verification of a 64-byte
//! signature over a 32-byte message under a 32-byte public key (which the
//! ledger uses as an address).
use vstd::prelude::*;

verus! {

/// The 32-byte digest that the hash primitive assigns to a byte string.
pub uninterp spec fn blake3_of(bytes: Seq<u8>) -> Seq<u8>;

/// Whether the signature primitive accepts `signature` over `message` under
/// the public key encoded by `address`.
pub uninterp spec fn sig_verifies(address: Seq<u8>, signature: Seq<u8>, message: Seq<u8>) -> bool;

/// Relies on `blake3::Hasher`: feeding a byte string through `update` and
/// `finalize` yields a 32-byte digest that depends on those bytes alone.
#[verifier::external_body]
pub fn blake3_digest(bytes: &Vec<u8>) -> (r: [u8; 32])
    ensures
        r@ == blake3_of(bytes@),
        r@.len() == 32,
{
    let mut hasher = blake3::Hasher::new();
    hasher.update(bytes.as_slice());
    *hasher.finalize().as_bytes()
}

/// Relies on `ed25519_dalek::VerifyingKey::from_bytes` and
/// `ed25519_dalek::Verifier::verify`: whether a signature verifies is a
/// function of the key bytes, the signature bytes and the message alone.
/// Address bytes that encode no valid key accept no signature.
#[verifier::external_body]
pub fn sig_verify(address: &[u8; 32], signature: &[u8; 64], message: &[u8; 32]) -> (r: bool)
    ensures
        r == sig_verifies(address@, signature@, message@),
{
    match ed25519_dalek::VerifyingKey::from_bytes(address) {
        Ok(key) => {
            let sig = ed25519_dalek::Signature::from_bytes(signature);
            ed25519_dalek::Verifier::verify(&key, message, &sig).is_ok()
        },
        Err(_) => false,
    }
}

} // verus!
