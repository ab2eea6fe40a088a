//! Ed25519 keys and EKU signatures, through the `ed25519-dalek` crate. A key
//! pair is held as its 32 secret bytes and the 32 bytes of its public key.
use vstd::prelude::*;
use ed25519_dalek::{Signature, Signer, SigningKey, Verifier, VerifyingKey};
use rand::rngs::OsRng;
use crate::eku::{signed_bytes, Eku};

verus! {

/// What `SigningKey::verifying_key(..).to_bytes()` gives for the secret key `secret`.
pub uninterp spec fn ed25519_public_key(secret: Seq<u8>) -> Seq<u8>;

/// What `Signer::sign(..).to_bytes()` gives for the secret key `secret` and `msg`.
pub uninterp spec fn ed25519_signature(secret: Seq<u8>, msg: Seq<u8>) -> Seq<u8>;

/// Whether `Verifier::verify` accepts `sig` for `msg` under the public key `public`.
pub uninterp spec fn ed25519_accepts(public: Seq<u8>, msg: Seq<u8>, sig: Seq<u8>) -> bool;

/// Calls `SigningKey::generate` with `OsRng` and returns the secret bytes.
/// The key is random: nothing is claimed of it.
#[verifier::external_body]
fn generate_secret() -> [u8; 32] {
    SigningKey::generate(&mut OsRng).to_bytes()
}

/// Calls `SigningKey::from_bytes(secret).verifying_key().to_bytes()`.
/// Trusted: the result is `ed25519_public_key(secret)`.
#[verifier::external_body]
fn derive_public(secret: &[u8; 32]) -> (r: [u8; 32])
    ensures
        r@ == ed25519_public_key(secret@),
{
    SigningKey::from_bytes(secret).verifying_key().to_bytes()
}

/// Calls `Signer::sign` on `SigningKey::from_bytes(secret)`. Trusted: the
/// result is `ed25519_signature(secret, msg)` (Ed25519 signing is
/// deterministic), and `Verifier::verify` under the matching public key
/// accepts it, as the crate documents for every signature it makes.
#[verifier::external_body]
fn sign_bytes(secret: &[u8; 32], msg: &[u8]) -> (r: [u8; 64])
    ensures
        r@ == ed25519_signature(secret@, msg@),
        ed25519_accepts(ed25519_public_key(secret@), msg@, r@),
{
    SigningKey::from_bytes(secret).sign(msg).to_bytes()
}

/// Calls `VerifyingKey::from_bytes(public)` and `Verifier::verify`; a public
/// key that does not decode gives `false`. Trusted: the result is
/// `ed25519_accepts(public, msg, sig)`.
#[verifier::external_body]
pub(crate) fn verify_bytes(public: &[u8; 32], msg: &[u8], sig: &[u8; 64]) -> (r: bool)
    ensures
        r == ed25519_accepts(public@, msg@, sig@),
{
    match VerifyingKey::from_bytes(public) {
        Ok(key) => key.verify(msg, &Signature::from_bytes(sig)).is_ok(),
        Err(_) => false,
    }
}

/// An Ed25519 key pair.
pub struct HopeKeyPair {
    secret: [u8; 32],
    public: [u8; 32],
}

impl HopeKeyPair {
    #[verifier::type_invariant]
    spec fn matched(&self) -> bool {
        self.public@ == ed25519_public_key(self.secret@)
    }

    /// The secret key bytes.
    pub closed spec fn secret_key(&self) -> Seq<u8> {
        self.secret@
    }

    /// The public key bytes.
    pub closed spec fn public_key(&self) -> Seq<u8> {
        self.public@
    }

    /// The key pair of the secret key `secret`.
    pub fn from_secret_bytes(secret: [u8; 32]) -> (r: Self)
        ensures
            r.secret_key() == secret@,
            r.public_key() == ed25519_public_key(secret@),
    {
        let public = derive_public(&secret);
        HopeKeyPair { secret, public }
    }

    /// A fresh random key pair.
    pub fn generate() -> (r: Self)
        ensures
            r.public_key() == ed25519_public_key(r.secret_key()),
    {
        Self::from_secret_bytes(generate_secret())
    }

    /// The public key bytes.
    pub fn verifying_key_bytes(&self) -> (r: [u8; 32])
        ensures
            r@ == self.public_key(),
    {
        self.public
    }

    /// Signs `msg`.
    pub fn sign_message(&self, msg: &[u8]) -> (r: [u8; 64])
        ensures
            r@ == ed25519_signature(self.secret_key(), msg@),
            ed25519_accepts(self.public_key(), msg@, r@),
    {
        proof {
            use_type_invariant(self);
        }
        sign_bytes(&self.secret, msg)
    }

    /// Whether `sig` is accepted for `msg` under this key pair's public key.
    pub fn verify_message(&self, msg: &[u8], sig: &[u8; 64]) -> (r: bool)
        ensures
            r == ed25519_accepts(self.public_key(), msg@, sig@),
    {
        verify_bytes(&self.public, msg, sig)
    }

    /// Signs the header and payload of `eku` and stores the signature in it.
    /// The signed unit then verifies under this key pair.
    pub fn sign(&self, eku: &mut Eku)
        ensures
            final(eku).header == old(eku).header,
            final(eku).payload@ == old(eku).payload@,
            final(eku).signature@ == ed25519_signature(self.secret_key(), signed_bytes(old(eku))),
            ed25519_accepts(self.public_key(), signed_bytes(final(eku)), final(eku).signature@),
    {
        let msg = eku.signed_bytes();
        let sig = self.sign_message(msg.as_slice());
        eku.signature = sig;
    }

    /// Whether the signature of `eku` is accepted for its header and payload
    /// under this key pair's public key.
    pub fn verify(&self, eku: &Eku) -> (r: bool)
        ensures
            r == ed25519_accepts(self.public_key(), signed_bytes(eku), eku.signature@),
    {
        let msg = eku.signed_bytes();
        self.verify_message(msg.as_slice(), &eku.signature)
    }
}

} // verus!
