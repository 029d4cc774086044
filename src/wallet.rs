use vstd::prelude::*;

use ed25519_dalek::{Signer, SigningKey, VerifyingKey};
use rand::RngCore;

use crate::codec::{hex_of, sha256_hex, sha256_of};

verus! {

#[verifier::external_type_specification]
#[verifier::external_body]
pub struct ExSigningKey(SigningKey);

#[verifier::external_type_specification]
#[verifier::external_body]
pub struct ExVerifyingKey(VerifyingKey);

/// The 32-byte compressed Ed25519 public key whose secret key is `seed`.
pub uninterp spec fn ed25519_public_of(seed: Seq<u8>) -> Seq<u8>;

/// The 64-byte Ed25519 signature of `message` under the secret key `seed`.
pub uninterp spec fn ed25519_signature_of(seed: Seq<u8>, message: Seq<u8>) -> Seq<u8>;

/// The address of the identity whose secret key is `seed`: the lowercase
/// hexadecimal SHA-256 digest of its public key.
pub open spec fn address_of(seed: Seq<u8>) -> Seq<char> {
    hex_of(sha256_of(ed25519_public_of(seed)))
}

/// Relies on rand's OsRng (RngCore::try_fill_bytes): 32 bytes drawn from the
/// operating system's source of randomness, or nothing when that source
/// reports an error.
#[verifier::external_body]
fn random_seed() -> (r: Option<[u8; 32]>) {
    let mut seed = [0u8; 32];
    match rand::rngs::OsRng.try_fill_bytes(&mut seed) {
        Ok(()) => Some(seed),
        Err(_) => None,
    }
}

/// Relies on ed25519_dalek::SigningKey::from_bytes: the signing key whose
/// secret is `seed`.
#[verifier::external_body]
fn signing_key_from_seed(seed: &[u8; 32]) -> (r: SigningKey) {
    SigningKey::from_bytes(seed)
}

/// Relies on ed25519_dalek::SigningKey::verifying_key: the public half of
/// `sk`.
#[verifier::external_body]
fn verifying_key_of(sk: &SigningKey) -> (r: VerifyingKey) {
    sk.verifying_key()
}

/// Relies on ed25519_dalek (SigningKey::from_bytes, then verifying_key and
/// VerifyingKey::to_bytes): the compressed public key for the secret `seed`,
/// which depends on the seed alone.
#[verifier::external_body]
fn public_key_of_seed(seed: &[u8; 32]) -> (r: [u8; 32])
    ensures
        r@ == ed25519_public_of(seed@),
{
    SigningKey::from_bytes(seed).verifying_key().to_bytes()
}

/// Relies on ed25519_dalek (SigningKey::from_bytes, then `Signer::sign` and
/// Signature::to_bytes): Ed25519 signing is deterministic, so the signature
/// depends on the seed and the message alone.
#[verifier::external_body]
fn sign_with_seed(seed: &[u8; 32], message: &[u8]) -> (r: [u8; 64])
    ensures
        r@ == ed25519_signature_of(seed@, message@),
{
    SigningKey::from_bytes(seed).sign(message).to_bytes()
}

/// A signing identity: an Ed25519 secret key, and the address derived from
/// its public key.
pub struct Wallet {
    seed: [u8; 32],
    signing_key: SigningKey,
    verifying_key: VerifyingKey,
}

impl Wallet {
    /// The wallet's secret key.
    pub closed spec fn secret(&self) -> Seq<u8> {
        self.seed@
    }

    /// The wallet's address.
    pub open spec fn addr(&self) -> Seq<char> {
        address_of(self.secret())
    }

    /// A wallet whose secret key is drawn from the operating system's source
    /// of randomness; nothing when that source fails.
    pub fn new() -> (r: Option<Self>)
        ensures
            r matches Some(w) ==> w.secret().len() == 32,
    {
        match random_seed() {
            Some(seed) => Some(Self::from_seed(&seed)),
            None => None,
        }
    }

    /// The wallet whose secret key is `seed`.
    pub fn from_seed(seed: &[u8; 32]) -> (r: Self)
        ensures
            r.secret() == seed@,
            r.secret().len() == 32,
    {
        let signing_key = signing_key_from_seed(seed);
        let verifying_key = verifying_key_of(&signing_key);
        Wallet { seed: *seed, signing_key, verifying_key }
    }

    /// The wallet's signing key.
    pub fn signing_key(&self) -> (r: &SigningKey) {
        &self.signing_key
    }

    /// The wallet's public key.
    pub fn verifying_key(&self) -> (r: &VerifyingKey) {
        &self.verifying_key
    }

    /// The Ed25519 signature of `message` under this wallet's secret key.
    pub fn sign(&self, message: &[u8]) -> (r: [u8; 64])
        ensures
            r@ == ed25519_signature_of(self.secret(), message@),
    {
        sign_with_seed(&self.seed, message)
    }

    /// The wallet's address: the lowercase hexadecimal SHA-256 digest of
    /// its public key, 64 characters.
    pub fn address(&self) -> (r: String)
        ensures
            r@ == self.addr(),
            r@.len() == 64,
    {
        let pk = public_key_of_seed(&self.seed);
        sha256_hex(pk.as_slice())
    }
}

} // verus!
