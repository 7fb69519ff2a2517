//! Keys of the two tunnels: Curve25519 for WireGuard, P-256 for MASQUE.

use p256::pkcs8::{DecodePrivateKey, DecodePublicKey, EncodePrivateKey, EncodePublicKey};
use vstd::prelude::*;

verus! {

/// The Curve25519 public key of a secret.
pub uninterp spec fn x25519_public(secret: Seq<u8>) -> Seq<u8>;

/// `x25519_dalek::StaticSecret::random_from_rng` with the operating system's
/// generator: 32 bytes of chance.
#[verifier::external_body]
pub(crate) fn random_secret() -> (secret: [u8; 32]) {
    boringtun::x25519::StaticSecret::random_from_rng(rand::rngs::OsRng).to_bytes()
}

/// `x25519_dalek::PublicKey::from` a `StaticSecret` with these bytes.
#[verifier::external_body]
pub(crate) fn public_key(secret: &[u8; 32]) -> (public: [u8; 32])
    ensures
        public@ == x25519_public(secret@),
{
    let secret = boringtun::x25519::StaticSecret::from(*secret);
    boringtun::x25519::PublicKey::from(&secret).to_bytes()
}

/// The SPKI DER encoding of the P-256 public key in a PEM text, if it holds one.
pub uninterp spec fn p256_spki_of_pem(pem: Seq<char>) -> Option<Seq<u8>>;

/// The views of an optional byte string.
pub open spec fn bytes_opt(v: Option<Vec<u8>>) -> Option<Seq<u8>> {
    match v {
        Some(b) => Some(b@),
        None => None,
    }
}

/// `p256::ecdsa::VerifyingKey::from_public_key_pem`, and the key in DER again by
/// `to_public_key_der`.
#[verifier::external_body]
pub(crate) fn spki_of_pem(pem: &str) -> (r: Option<Vec<u8>>)
    ensures
        bytes_opt(r) == p256_spki_of_pem(pem@),
{
    let key = p256::ecdsa::VerifyingKey::from_public_key_pem(pem).ok()?;
    key.to_public_key_der().ok().map(|der| der.as_ref().to_vec())
}

/// `p256::ecdsa::SigningKey::random` with the operating system's generator, in
/// PKCS #8 DER by `to_pkcs8_der`, from which the key is read again.
#[verifier::external_body]
pub(crate) fn random_signing_key() -> (r: Option<Vec<u8>>)
    ensures
        r matches Some(k) ==> p256_spki_of_pkcs8(k@) is Some,
{
    let key = p256::ecdsa::SigningKey::random(&mut rand::rngs::OsRng);
    key.to_pkcs8_der().ok().map(|der| der.as_bytes().to_vec())
}

/// The SPKI DER encoding of the public key of a P-256 signing key in PKCS #8
/// DER, if the bytes are one.
pub uninterp spec fn p256_spki_of_pkcs8(der: Seq<u8>) -> Option<Seq<u8>>;

/// `p256::ecdsa::SigningKey::from_pkcs8_der`, then `to_public_key_der` of its
/// verifying key.
#[verifier::external_body]
pub(crate) fn spki_of_pkcs8(der: &[u8]) -> (r: Option<Vec<u8>>)
    ensures
        bytes_opt(r) == p256_spki_of_pkcs8(der@),
{
    let key = p256::ecdsa::SigningKey::from_pkcs8_der(der).ok()?;
    key.verifying_key().to_public_key_der().ok().map(|der| der.as_ref().to_vec())
}

/// The PKCS #8 DER encoding that the key in these PKCS #8 DER bytes is written
/// in again, if the bytes are a P-256 signing key.
pub uninterp spec fn p256_pkcs8_again(der: Seq<u8>) -> Option<Seq<u8>>;

/// `p256::ecdsa::SigningKey::from_pkcs8_der`, then `to_pkcs8_der`: the same key
/// is read from what was written, so its public key is the same.
#[verifier::external_body]
pub(crate) fn pkcs8_again(der: &[u8]) -> (r: Option<Vec<u8>>)
    ensures
        bytes_opt(r) == p256_pkcs8_again(der@),
        r matches Some(again) ==> p256_spki_of_pkcs8(again@) == p256_spki_of_pkcs8(der@),
{
    let key = p256::ecdsa::SigningKey::from_pkcs8_der(der).ok()?;
    key.to_pkcs8_der().ok().map(|der| der.as_bytes().to_vec())
}

} // verus!
