//! Hash and signature primitives, and the hex text form of byte strings.

use vstd::prelude::*;
use ed25519_dalek::{Signer, Verifier};
use sha2::Digest as _;

verus! {

/// A 32-byte SHA-256 digest.
#[derive(Debug, Clone, Copy, PartialEq, Eq, Hash)]
pub struct Hash(pub [u8; 32]);

/// The SHA-256 digest of a byte string.
pub uninterp spec fn sha256_of(data: Seq<u8>) -> Seq<u8>;

/// Whether an Ed25519 signature verifies a message under a public key, all as bytes.
pub uninterp spec fn ed25519_verifies(public_key: Seq<u8>, signature: Seq<u8>, message: Seq<u8>) -> bool;

/// The Ed25519 signature of a message under the 32-byte secret key.
pub uninterp spec fn ed25519_signature(secret_key: Seq<u8>, message: Seq<u8>) -> Seq<u8>;

/// The Ed25519 public key that belongs to a 32-byte secret key.
pub uninterp spec fn ed25519_public_key(secret_key: Seq<u8>) -> Seq<u8>;

/// The 32 zero bytes of the sentinel digest.
pub open spec fn zero_digest() -> Seq<u8> {
    Seq::new(32, |i: int| 0u8)
}

impl Hash {
    /// The all-zero digest, used as a sentinel.
    pub fn zero() -> (r: Hash)
        ensures
            r.0@ == zero_digest(),
    {
        let r = Hash([0u8; 32]);
        assert(r.0@ =~= zero_digest());
        r
    }

    /// Byte-wise equality of two digests.
    pub fn equals(&self, other: &Hash) -> (r: bool)
        ensures
            r == (self.0@ == other.0@),
    {
        let mut i: usize = 0;
        while i < 32
            invariant
                i <= 32,
                forall|j: int| 0 <= j < i ==> self.0@[j] == other.0@[j],
            decreases 32 - i,
        {
            if self.0[i] != other.0[i] {
                return false;
            }
            i = i + 1;
        }
        assert(self.0@ =~= other.0@);
        true
    }

    /// The digest's bytes as a vector.
    pub fn to_vec(&self) -> (r: Vec<u8>)
        ensures
            r@ == self.0@,
    {
        let mut r: Vec<u8> = Vec::new();
        let mut i: usize = 0;
        while i < 32
            invariant
                i <= 32,
                r@ == self.0@.subrange(0, i as int),
            decreases 32 - i,
        {
            r.push(self.0[i]);
            i = i + 1;
        }
        assert(r@ =~= self.0@);
        r
    }
}

/// Relies on sha2::Sha256::digest: the 32-byte SHA-256 digest of the input.
#[verifier::external_body]
pub(crate) fn sha256(data: &[u8]) -> (r: Hash)
    ensures
        r.0@ == sha256_of(data@),
{
    Hash(sha2::Sha256::digest(data).into())
}

/// The lower-case hexadecimal digit for a value below 16.
pub open spec fn hex_digit(v: u8) -> char {
    if v < 10 {
        ((v + 48) as u8) as char
    } else {
        ((v + 87) as u8) as char
    }
}

/// Lower-case hexadecimal text of a byte string: two digits per byte, high nibble first.
pub open spec fn hex_of(b: Seq<u8>) -> Seq<char> {
    Seq::new(
        2 * b.len(),
        |i: int|
            if i % 2 == 0 {
                hex_digit(b[i / 2] / 16)
            } else {
                hex_digit(b[i / 2] % 16)
            },
    )
}

/// Relies on hex::encode: lower-case hex digits, two per byte, high nibble first.
#[verifier::external_body]
pub(crate) fn hex_encode(b: &[u8]) -> (r: String)
    ensures
        r@ == hex_of(b@),
{
    hex::encode(b)
}

/// A well-formed key and signature, the signature verifying the message under the key.
pub open spec fn signature_ok(public_key: Seq<u8>, signature: Seq<u8>, message: Seq<u8>) -> bool {
    public_key.len() == 32 && signature.len() == 64 && ed25519_verifies(public_key, signature, message)
}

/// Relies on ed25519_dalek's `VerifyingKey::from_bytes`, `Signature::from_slice` and
/// `Verifier::verify`: false on a malformed key or signature, otherwise whether it verifies.
#[verifier::external_body]
pub fn verify_signature(public_key: &[u8], signature: &[u8], message: &[u8]) -> (r: bool)
    ensures
        r == (public_key@.len() == 32 && signature@.len() == 64 && ed25519_verifies(
            public_key@,
            signature@,
            message@,
        )),
{
    let key_bytes: [u8; 32] = match public_key.try_into() {
        Ok(b) => b,
        Err(_) => return false,
    };
    let key = match ed25519_dalek::VerifyingKey::from_bytes(&key_bytes) {
        Ok(k) => k,
        Err(_) => return false,
    };
    match ed25519_dalek::Signature::from_slice(signature) {
        Ok(sig) => key.verify(message, &sig).is_ok(),
        Err(_) => false,
    }
}

/// Relies on ed25519_dalek's `SigningKey::from_bytes` and `Signer::sign`: the
/// 64-byte signature of the message under the secret key, which, as Ed25519
/// signatures do, verifies the message under the key's public key.
#[verifier::external_body]
pub fn sign_message(secret_key: &[u8; 32], message: &[u8]) -> (r: Vec<u8>)
    ensures
        r@ == ed25519_signature(secret_key@, message@),
        r@.len() == 64,
        ed25519_verifies(ed25519_public_key(secret_key@), r@, message@),
{
    let key = ed25519_dalek::SigningKey::from_bytes(secret_key);
    key.sign(message).to_bytes().to_vec()
}

/// Relies on ed25519_dalek's `SigningKey::from_bytes` and `verifying_key`: the
/// 32-byte public key of a secret key.
#[verifier::external_body]
pub(crate) fn public_key_of(secret_key: &[u8; 32]) -> (r: [u8; 32])
    ensures
        r@ == ed25519_public_key(secret_key@),
{
    ed25519_dalek::SigningKey::from_bytes(secret_key).verifying_key().to_bytes()
}

/// Relies on ed25519_dalek's `SigningKey::generate` with the operating system's
/// random source: a fresh secret key, of which nothing can be promised.
#[verifier::external_body]
pub(crate) fn generate_secret_key() -> (r: [u8; 32]) {
    ed25519_dalek::SigningKey::generate(&mut rand::rngs::OsRng).to_bytes()
}

} // verus!
