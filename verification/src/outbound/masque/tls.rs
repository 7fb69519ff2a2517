//! Who the edge is: its certificate comes from a private authority, so it is
//! known by the public key that the registration brought.

use crate::keys;
use crate::wire;
use vstd::prelude::*;

verus! {

/// Why the edge is not trusted.
#[derive(Clone, Copy, Debug, PartialEq, Eq, Structural)]
pub enum EdgeError {
    /// The certificate cannot be read.
    BadCertificate,
    /// The key is not the one that was registered.
    WrongKey,
}

/// The public key (SPKI DER) in an X.509 certificate (DER), if it can be read.
pub uninterp spec fn certificate_key(cert: Seq<u8>) -> Option<Seq<u8>>;

/// `x509_parser::parse_x509_certificate`, and the raw public key of what it read.
#[verifier::external_body]
fn key_of_certificate(cert: &[u8]) -> (r: Option<Vec<u8>>)
    ensures
        keys::bytes_opt(r) == certificate_key(cert@),
{
    let (_, cert) = x509_parser::parse_x509_certificate(cert).ok()?;
    Some(cert.public_key().raw.to_vec())
}

/// Compares the key of a certificate, if it could be read, with the pinned one.
pub fn check_key(key: Option<Vec<u8>>, pinned: &[u8]) -> (r: Result<(), EdgeError>)
    ensures
        r == match key {
            None => Err::<(), EdgeError>(EdgeError::BadCertificate),
            Some(k) => if k@ == pinned@ {
                Ok(())
            } else {
                Err(EdgeError::WrongKey)
            },
        },
{
    match key {
        None => Err(EdgeError::BadCertificate),
        Some(k) => if wire::same_bytes(k.as_slice(), pinned) {
            Ok(())
        } else {
            Err(EdgeError::WrongKey)
        },
    }
}

/// Whether the edge with this certificate has the pinned key.
pub fn check_certificate(cert: &[u8], pinned: &[u8]) -> (r: Result<(), EdgeError>)
    ensures
        r == match certificate_key(cert@) {
            None => Err::<(), EdgeError>(EdgeError::BadCertificate),
            Some(k) => if k == pinned@ {
                Ok(())
            } else {
                Err(EdgeError::WrongKey)
            },
        },
{
    check_key(key_of_certificate(cert), pinned)
}

} // verus!
