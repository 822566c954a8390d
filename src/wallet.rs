//! Key ownership and the addresses derived from public keys.

use vstd::prelude::*;
use crate::crypto::{
    ed25519_public_key, ed25519_signature, ed25519_verifies, generate_secret_key, hex_encode, hex_of, public_key_of,
    sha256, sha256_of, sign_message,
};

verus! {

/// The address of a 32-byte public key: the hex text of the first 20 bytes of
/// its SHA-256 digest. Keys of any other length have none.
pub open spec fn address_of(public_key: Seq<u8>) -> Option<Seq<char>> {
    if public_key.len() == 32 {
        Some(hex_of(sha256_of(public_key).subrange(0, 20)))
    } else {
        None
    }
}

/// Derives the address of a public key given as bytes.
pub fn address_from_public_key_bytes(public_key_bytes: &[u8]) -> (r: Option<String>)
    ensures
        match r {
            Some(a) => address_of(public_key_bytes@) == Some(a@),
            None => address_of(public_key_bytes@) is None,
        },
        r matches Some(a) ==> a@.len() == 40,
{
    if public_key_bytes.len() != 32 {
        return None;
    }
    let digest = sha256(public_key_bytes);
    let mut prefix: Vec<u8> = Vec::new();
    let mut i: usize = 0;
    while i < 20
        invariant
            i <= 20,
            digest.0@.len() == 32,
            prefix@ == digest.0@.subrange(0, i as int),
        decreases 20 - i,
    {
        prefix.push(digest.0[i]);
        i = i + 1;
        assert(prefix@ =~= digest.0@.subrange(0, i as int));
    }
    let address = hex_encode(prefix.as_slice());
    assert(address@.len() == 40);
    Some(address)
}

/// An Ed25519 key pair, held as its raw bytes.
pub struct Wallet {
    secret_key: [u8; 32],
    public_key: [u8; 32],
}

impl Wallet {
    /// The 32-byte secret key.
    pub closed spec fn secret_key(&self) -> Seq<u8> {
        self.secret_key@
    }

    /// The 32-byte public key.
    pub closed spec fn public_key(&self) -> Seq<u8> {
        self.public_key@
    }

    /// The public key is the one that belongs to the secret key.
    #[verifier::type_invariant]
    closed spec fn key_pair_matches(self) -> bool {
        self.public_key@ == ed25519_public_key(self.secret_key@)
    }

    /// A wallet with a fresh random key pair.
    pub fn new() -> (r: Wallet)
        ensures
            r.public_key() == ed25519_public_key(r.secret_key()),
            r.public_key().len() == 32,
    {
        let secret = generate_secret_key();
        Wallet::from_secret_key(secret)
    }

    /// The wallet of a stored secret key.
    pub fn from_secret_key(secret_key: [u8; 32]) -> (r: Wallet)
        ensures
            r.secret_key() == secret_key@,
            r.public_key() == ed25519_public_key(secret_key@),
            r.public_key().len() == 32,
    {
        let public_key = public_key_of(&secret_key);
        Wallet { secret_key, public_key }
    }

    /// The secret key's bytes, for external storage.
    pub fn secret_key_bytes(&self) -> (r: [u8; 32])
        ensures
            r@ == self.secret_key(),
    {
        self.secret_key
    }

    /// The public key's bytes.
    pub fn public_key_bytes(&self) -> (r: Vec<u8>)
        ensures
            r@ == self.public_key(),
            r@.len() == 32,
    {
        crate::encoding::copy_bytes(&self.public_key)
    }

    /// The address that this wallet's key owns.
    pub fn address(&self) -> (r: String)
        ensures
            address_of(self.public_key()) == Some(r@),
            r@.len() == 40,
    {
        match address_from_public_key_bytes(&self.public_key) {
            Some(a) => a,
            None => String::new(),
        }
    }

    /// Signs a message with this wallet's secret key.
    pub fn sign(&self, message: &[u8]) -> (r: Vec<u8>)
        ensures
            r@ == ed25519_signature(self.secret_key(), message@),
            r@.len() == 64,
            ed25519_verifies(self.public_key(), r@, message@),
    {
        proof {
            use_type_invariant(self);
        }
        sign_message(&self.secret_key, message)
    }
}

} // verus!
