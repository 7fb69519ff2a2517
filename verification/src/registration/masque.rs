//! MASQUE credentials. Registration has two steps: a device is created with a
//! throw-away WireGuard key, and then a P-256 key is enrolled for it; the second
//! reply brings the edge's addresses, ports and public key.

use crate::b64;
use crate::keys;
use crate::outbound::masque::tls;
use crate::system;
use crate::text;
use rcgen::{CertificateParams, DistinguishedName, DnType, KeyPair};
use rcgen::{ExtendedKeyUsagePurpose as Side, KeyUsagePurpose as Use};
use time::OffsetDateTime;
use vstd::prelude::*;

verus! {

pub const CLIENT_VERSION: &'static str = "linux-2026.6.880.0";

pub const USER_AGENT: &'static str = "WARP for Linux";

/// Seconds that a client certificate is valid.
pub const CERT_LIFETIME: i64 = 86400;

/// The last second that a certificate can name.
pub const LAST_SECOND: i64 = 253402300799;

/// A registration as it is kept in a file.
#[derive(Clone, Debug, PartialEq, Eq)]
pub struct Registration {
    pub id: String,
    pub token: String,
    pub account: String,
    pub key_type: String,
    pub tunnel_type: String,
    /// The P-256 signing key: PKCS #8 DER in base64.
    pub private_key: String,
    pub endpoint_v4: String,
    pub endpoint_v6: String,
    pub endpoint_ports: Vec<u16>,
    /// The edge's public key: SPKI DER in base64; empty if none came.
    pub peer_public_key: String,
    pub assigned_ipv4: String,
    pub assigned_ipv6: String,
}

/// What a connection needs: the registration, a self-signed client certificate
/// with its key, and the key that the edge must show.
#[derive(Clone, Debug, PartialEq, Eq)]
pub struct RegCredentials {
    pub registration: Registration,
    pub client_cert_der: Vec<u8>,
    pub client_key_der: Vec<u8>,
    /// Empty if the registration has no key of the edge.
    pub pinned_spki_der: Vec<u8>,
}

/// The body of the first request.
#[derive(Clone, Debug, PartialEq, Eq)]
pub struct RegisterRequest {
    pub key: String,
    pub install_id: String,
    pub fcm_token: String,
    pub tos: String,
    pub model: String,
    pub serial_number: String,
    pub os_version: String,
    pub key_type: String,
    pub tunnel_type: String,
    pub locale: String,
    pub warp_enabled: bool,
}

/// The body of the second request.
#[derive(Clone, Debug, PartialEq, Eq)]
pub struct EnrollRequest {
    pub key: String,
    pub key_type: String,
    pub tunnel_type: String,
}

/// What a reply says; the second has no token.
#[derive(Clone, Debug, PartialEq, Eq)]
pub struct RegResult {
    pub id: String,
    pub token: String,
    pub account_id: String,
    pub key_type: String,
    pub tunnel_type: String,
    pub config: Option<EnrollConfig>,
}

#[derive(Clone, Debug, PartialEq, Eq)]
pub struct EnrollConfig {
    pub peers: Vec<EnrollPeer>,
    pub address_v4: String,
    pub address_v6: String,
}

#[derive(Clone, Debug, PartialEq, Eq)]
pub struct EnrollPeer {
    pub public_key: String,
    pub endpoint_v4: String,
    pub endpoint_v6: String,
    pub ports: Vec<i64>,
}

/// Why there are no credentials.
#[derive(Clone, Debug, PartialEq, Eq)]
pub enum RegError {
    /// The new key could not be written.
    NewKey,
    /// The edge's key is no PEM public key.
    EdgeKey(String),
    /// The edge's key in the registration is no base64.
    PinnedKey,
    /// The private key in the registration is no base64.
    PrivateKeyEncoding,
    /// The private key in the registration is no P-256 key.
    PrivateKey,
    /// The client certificate could not be made.
    Certificate,
    /// The service answered a removal with this status.
    Removal(u16),
}

impl RegError {
    /// The message for the user.
    pub open spec fn text(self) -> Seq<char> {
        match self {
            RegError::NewKey => "ECDSA 私钥 PKCS8 编码失败"@,
            RegError::EdgeKey(pem) => "解析边缘公钥失败: "@ + pem@,
            RegError::PinnedKey => "边缘公钥 base64 解码失败"@,
            RegError::PrivateKeyEncoding => "私钥 base64 解码失败"@,
            RegError::PrivateKey => "私钥 PKCS8 解析失败"@,
            RegError::Certificate => "自签客户端证书失败"@,
            RegError::Removal(status) => "API 注销返回 "@ + text::decimal(status as nat),
        }
    }

    /// The message for the user.
    pub fn message(&self) -> (s: String)
        ensures
            s@ == self.text(),
    {
        match self {
            RegError::NewKey => "ECDSA 私钥 PKCS8 编码失败".to_owned(),
            RegError::EdgeKey(pem) => {
                let mut out = text::chars_of("解析边缘公钥失败: ");
                text::push_str(&mut out, pem.as_str());
                text::string_of(out.as_slice())
            },
            RegError::PinnedKey => "边缘公钥 base64 解码失败".to_owned(),
            RegError::PrivateKeyEncoding => "私钥 base64 解码失败".to_owned(),
            RegError::PrivateKey => "私钥 PKCS8 解析失败".to_owned(),
            RegError::Certificate => "自签客户端证书失败".to_owned(),
            RegError::Removal(status) => {
                let mut out = text::chars_of("API 注销返回 ");
                text::push_decimal(&mut out, *status as u64);
                text::string_of(out.as_slice())
            },
        }
    }
}

// ---------------------------------------------------------------------------
// Requests

/// The status of a reply that succeeded.
pub open spec fn is_success_status(status: u16) -> bool {
    200 <= status < 300
}

/// Whether a reply succeeded.
pub fn is_success(status: u16) -> (r: bool)
    ensures
        r == is_success_status(status),
{
    200 <= status && status < 300
}

/// The public key of a throw-away secret.
pub fn random_wg_pubkey() -> (s: String)
    ensures
        exists|secret: Seq<u8>|
            secret.len() == 32 && s@ == b64::base64_text(#[trigger] keys::x25519_public(secret)),
{
    let secret = keys::random_secret();
    let public = keys::public_key(&secret);
    let s = b64::encode(&public);
    assert(secret@.len() == 32 && s@ == b64::base64_text(keys::x25519_public(secret@)));
    s
}

/// A serial number by chance.
pub fn random_serial() -> (s: String)
    ensures
        exists|b: Seq<u8>| b.len() == 8 && s@ == #[trigger] b64::base64_text(b),
{
    let b = system::random_bytes();
    let s = b64::encode(&b);
    assert(b@.len() == 8 && s@ == b64::base64_text(b@));
    s
}

/// The moment for the `tos` field, or a fixed one where the present one cannot
/// be written.
pub fn tos_or_default(now: Option<String>) -> (s: String)
    ensures
        s@ == match now {
            Some(t) => t@,
            None => "2024-01-01T00:00:00Z"@,
        },
{
    match now {
        Some(t) => t,
        None => "2024-01-01T00:00:00Z".to_owned(),
    }
}

/// The present moment for the `tos` field. Which moment it is depends on the
/// clock.
pub fn current_tos() -> (s: String)
    ensures
        system::is_rfc3339_utc(s@),
{
    proof {
        reveal_strlit("2024-01-01T00:00:00Z");
    }
    tos_or_default(system::rfc3339_now())
}

/// The first request for a key, a serial number and a moment.
pub fn register_request(key: String, serial_number: String, tos: String) -> (r: RegisterRequest)
    ensures
        r.key@ == key@,
        r.install_id@ == ""@,
        r.fcm_token@ == ""@,
        r.tos@ == tos@,
        r.model@ == "PC"@,
        r.serial_number@ == serial_number@,
        r.os_version@ == ""@,
        r.key_type@ == "curve25519"@,
        r.tunnel_type@ == "wireguard"@,
        r.locale@ == "en_US"@,
        r.warp_enabled,
{
    RegisterRequest {
        key,
        install_id: "".to_owned(),
        fcm_token: "".to_owned(),
        tos,
        model: "PC".to_owned(),
        serial_number,
        os_version: "".to_owned(),
        key_type: "curve25519".to_owned(),
        tunnel_type: "wireguard".to_owned(),
        locale: "en_US".to_owned(),
        warp_enabled: true,
    }
}

/// The first request, with a new throw-away key and serial number.
pub fn first_request() -> (r: RegisterRequest)
    ensures
        exists|secret: Seq<u8>|
            secret.len() == 32 && r.key@ == b64::base64_text(#[trigger] keys::x25519_public(secret)),
        exists|b: Seq<u8>| b.len() == 8 && r.serial_number@ == #[trigger] b64::base64_text(b),
        system::is_rfc3339_utc(r.tos@),
        r.install_id@ == ""@,
        r.fcm_token@ == ""@,
        r.model@ == "PC"@,
        r.os_version@ == ""@,
        r.key_type@ == "curve25519"@,
        r.tunnel_type@ == "wireguard"@,
        r.locale@ == "en_US"@,
        r.warp_enabled,
{
    register_request(random_wg_pubkey(), random_serial(), current_tos())
}

/// Where the first request goes.
pub open spec fn register_url_text() -> Seq<char> {
    "https://api.cloudflareclient.com/v0/reg"@
}

/// Where a device is changed or removed.
pub open spec fn device_url_text(id: Seq<char>) -> Seq<char> {
    "https://api.cloudflareclient.com/v0/reg/"@ + id
}

/// Where the first request goes.
pub fn register_url() -> (s: &'static str)
    ensures
        s@ == register_url_text(),
{
    "https://api.cloudflareclient.com/v0/reg"
}

/// Where a device is changed or removed.
pub fn device_url(id: &str) -> (s: String)
    ensures
        s@ == device_url_text(id@),
{
    let mut out = text::chars_of("https://api.cloudflareclient.com/v0/reg/");
    text::push_str(&mut out, id);
    text::string_of(out.as_slice())
}

/// The value of the `Authorization` header.
pub fn bearer(token: &str) -> (s: String)
    ensures
        s@ == "Bearer "@ + token@,
{
    let mut out = text::chars_of("Bearer ");
    text::push_str(&mut out, token);
    text::string_of(out.as_slice())
}

/// The public key that a drawn signing key has, if one was drawn.
pub open spec fn drawn_spki(drawn: Option<Vec<u8>>) -> Option<Seq<u8>> {
    match drawn {
        Some(pkcs8) => keys::p256_spki_of_pkcs8(pkcs8@),
        None => None,
    }
}

/// The key of the device, given the signing key that was drawn for it in PKCS #8
/// DER: that key, and its public key in SPKI DER.
pub fn device_key(drawn: Option<Vec<u8>>) -> (r: Result<(Vec<u8>, Vec<u8>), RegError>)
    ensures
        match drawn_spki(drawn) {
            Some(spki) => r matches Ok(k) && k.0@ == drawn->Some_0@ && k.1@ == spki,
            None => r == Err::<(Vec<u8>, Vec<u8>), RegError>(RegError::NewKey),
        },
{
    match drawn {
        None => Err(RegError::NewKey),
        Some(pkcs8) => match keys::spki_of_pkcs8(pkcs8.as_slice()) {
            None => Err(RegError::NewKey),
            Some(spki) => Ok((pkcs8, spki)),
        },
    }
}

/// A new key of the device: the signing key in PKCS #8 DER and its public key
/// in SPKI DER.
pub fn new_device_key() -> (r: Result<(Vec<u8>, Vec<u8>), RegError>)
    ensures
        match r {
            Ok(k) => keys::p256_spki_of_pkcs8(k.0@) == Some(k.1@),
            Err(e) => e == RegError::NewKey,
        },
{
    device_key(keys::random_signing_key())
}

/// The second request for a public key in SPKI DER.
pub fn enroll_request(spki: &[u8]) -> (r: EnrollRequest)
    ensures
        r.key@ == b64::base64_text(spki@),
        r.key_type@ == "secp256r1"@,
        r.tunnel_type@ == "masque"@,
{
    EnrollRequest {
        key: b64::encode(spki),
        key_type: "secp256r1".to_owned(),
        tunnel_type: "masque".to_owned(),
    }
}

// ---------------------------------------------------------------------------
// The registration

/// The host of an endpoint: what stands in brackets, else what stands before a
/// colon.
pub open spec fn host_of(s: Seq<char>) -> Seq<char> {
    let t = text::trimmed(s);
    let rest = t.skip(1);
    let close = text::first_at(rest, ']');
    if t.len() > 0 && t[0] == '[' && close < rest.len() {
        rest.take(close)
    } else {
        t.take(text::first_at(t, ':'))
    }
}

/// Takes the port and the brackets off an endpoint.
pub fn strip_host(s: &str) -> (out: String)
    ensures
        out@ == host_of(s@),
{
    let chars = text::chars_of(s);
    let t = text::trim(chars.as_slice());
    if t.len() > 0 && t[0] == '[' {
        let close = text::find_char(t.as_slice(), 1, ']');
        if close < t.len() {
            let host = text::part(t.as_slice(), 1, close);
            assert(host@ =~= t@.skip(1).take(close - 1));
            return text::string_of(host.as_slice());
        }
    }
    assert(t@.skip(0) =~= t@);
    let colon = text::find_char(t.as_slice(), 0, ':');
    let host = text::part(t.as_slice(), 0, colon);
    assert(host@ =~= t@.take(colon as int));
    text::string_of(host.as_slice())
}

/// The first peer of the second reply, if it has one.
pub open spec fn first_peer(r: RegResult) -> Option<EnrollPeer> {
    match r.config {
        Some(c) => if c.peers@.len() > 0 {
            Some(c.peers@[0])
        } else {
            None
        },
        None => None,
    }
}

/// The key of the first peer is there and is no PEM public key.
pub open spec fn edge_key_is_bad(r: RegResult) -> bool {
    first_peer(r) matches Some(p) && p.public_key@.len() > 0 && keys::p256_spki_of_pem(
        p.public_key@,
    ) is None
}

/// The registration holds what the replies say: the token of the first, all
/// else of the second. Edge address, ports and key are those of the first peer;
/// a port keeps its low sixteen bits.
pub open spec fn registration_holds(
    g: Registration,
    token: Seq<char>,
    r: RegResult,
    pkcs8: Seq<u8>,
) -> bool {
    &&& g.id@ == r.id@
    &&& g.token@ == token
    &&& g.account@ == r.account_id@
    &&& g.key_type@ == r.key_type@
    &&& g.tunnel_type@ == r.tunnel_type@
    &&& g.private_key@ == b64::base64_text(pkcs8)
    &&& match first_peer(r) {
        Some(p) => {
            &&& g.endpoint_v4@ == host_of(p.endpoint_v4@)
            &&& g.endpoint_v6@ == host_of(p.endpoint_v6@)
            &&& g.endpoint_ports@ == Seq::new(p.ports@.len(), |i: int| p.ports@[i] as u16)
            &&& g.peer_public_key@ == if p.public_key@.len() == 0 {
                Seq::empty()
            } else {
                b64::base64_text(keys::p256_spki_of_pem(p.public_key@)->Some_0)
            }
        },
        None => {
            &&& g.endpoint_v4@ == Seq::<char>::empty()
            &&& g.endpoint_v6@ == Seq::<char>::empty()
            &&& g.endpoint_ports@ == Seq::<u16>::empty()
            &&& g.peer_public_key@ == Seq::<char>::empty()
        },
    }
    &&& match r.config {
        Some(c) => g.assigned_ipv4@ == c.address_v4@ && g.assigned_ipv6@ == c.address_v6@,
        None => g.assigned_ipv4@ == Seq::<char>::empty() && g.assigned_ipv6@ == Seq::<
            char,
        >::empty(),
    }
}

fn low_ports(ports: &Vec<i64>) -> (out: Vec<u16>)
    ensures
        out@ == Seq::new(ports@.len(), |i: int| ports@[i] as u16),
{
    let mut out: Vec<u16> = Vec::new();
    let ghost whole = Seq::new(ports@.len(), |i: int| ports@[i] as u16);
    let mut i: usize = 0;
    while i < ports.len()
        invariant
            i <= ports@.len(),
            whole == Seq::new(ports@.len(), |i: int| ports@[i] as u16),
            out@ == whole.take(i as int),
        decreases ports@.len() - i,
    {
        out.push(
            #[verifier::truncate]
            (ports[i] as u16),
        );
        assert(out@ =~= whole.take(i + 1));
        i += 1;
    }
    assert(whole.take(i as int) =~= whole);
    out
}

/// Puts the registration together: `token` is that of the first reply, `reply`
/// the second reply, `pkcs8` the device's key.
pub fn finish_registration(token: &str, reply: &RegResult, pkcs8: &[u8]) -> (r: Result<
    Registration,
    RegError,
>)
    ensures
        match r {
            Ok(g) => !edge_key_is_bad(*reply) && registration_holds(g, token@, *reply, pkcs8@),
            Err(e) => edge_key_is_bad(*reply) && e.text() == "解析边缘公钥失败: "@ + first_peer(
                *reply,
            )->Some_0.public_key@,
        },
{
    let mut endpoint_v4: String = String::new();
    let mut endpoint_v6: String = String::new();
    let mut endpoint_ports: Vec<u16> = Vec::new();
    let mut peer_public_key: String = String::new();
    let mut assigned_ipv4: String = String::new();
    let mut assigned_ipv6: String = String::new();
    if let Some(config) = &reply.config {
        if config.peers.len() > 0 {
            let peer = &config.peers[0];
            endpoint_v4 = strip_host(peer.endpoint_v4.as_str());
            endpoint_v6 = strip_host(peer.endpoint_v6.as_str());
            endpoint_ports = low_ports(&peer.ports);
            if peer.public_key.as_str().unicode_len() > 0 {
                match keys::spki_of_pem(peer.public_key.as_str()) {
                    None => return Err(RegError::EdgeKey(peer.public_key.clone())),
                    Some(der) => {
                        peer_public_key = b64::encode(der.as_slice());
                    },
                }
            }
        }
        assigned_ipv4 = config.address_v4.clone();
        assigned_ipv6 = config.address_v6.clone();
    }
    Ok(
        Registration {
            id: reply.id.clone(),
            token: token.to_owned(),
            account: reply.account_id.clone(),
            key_type: reply.key_type.clone(),
            tunnel_type: reply.tunnel_type.clone(),
            private_key: b64::encode(pkcs8),
            endpoint_v4,
            endpoint_v6,
            endpoint_ports,
            peer_public_key,
            assigned_ipv4,
            assigned_ipv6,
        },
    )
}

// ---------------------------------------------------------------------------
// The credentials

/// The common name of a device's certificate.
pub open spec fn common_name_text(id: Seq<char>) -> Seq<char> {
    id + ".masque2.cloudflareclient.com"@
}

/// The common name of a device's certificate.
pub fn common_name(id: &str) -> (s: String)
    ensures
        s@ == common_name_text(id@),
{
    let mut out = text::chars_of(id);
    text::push_str(&mut out, ".masque2.cloudflareclient.com");
    text::string_of(out.as_slice())
}

/// What the key of a certificate is used for.
#[derive(Clone, Copy, Debug, PartialEq, Eq, Structural)]
pub enum KeyUse {
    DigitalSignature,
    KeyAgreement,
}

/// Which side of a TLS connection a certificate is for.
#[derive(Clone, Copy, Debug, PartialEq, Eq, Structural)]
pub enum Purpose {
    ClientAuth,
    ServerAuth,
}

/// What a certificate is for.
#[derive(Clone, Copy, Debug, PartialEq, Eq, Structural)]
pub struct CertUses {
    pub key: KeyUse,
    pub purpose: Purpose,
}

/// What the certificate of a device is for: signatures of a TLS client.
pub open spec fn device_uses() -> CertUses {
    CertUses { key: KeyUse::DigitalSignature, purpose: Purpose::ClientAuth }
}

/// What a certificate names.
#[derive(Clone, Debug, PartialEq, Eq)]
pub struct CertRequest {
    pub common_name: String,
    /// Seconds since the epoch.
    pub not_before: i64,
    /// Seconds since the epoch.
    pub not_after: i64,
    pub serial: u64,
    pub uses: CertUses,
}

/// What the certificate of a device names from `now` on, for a day; nothing
/// where its times cannot be named.
pub fn cert_request(id: &str, now: u64) -> (r: Option<CertRequest>)
    ensures
        match r {
            Some(c) => {
                &&& now + CERT_LIFETIME <= LAST_SECOND
                &&& c.common_name@ == common_name_text(id@)
                &&& c.not_before == now
                &&& c.not_after == now + CERT_LIFETIME
                &&& c.not_after - c.not_before == 24 * 60 * 60
                &&& c.serial == now
                &&& c.uses == device_uses()
            },
            None => now + CERT_LIFETIME > LAST_SECOND,
        },
{
    if now > (LAST_SECOND - CERT_LIFETIME) as u64 {
        return None;
    }
    Some(
        CertRequest {
            common_name: common_name(id),
            not_before: now as i64,
            not_after: now as i64 + CERT_LIFETIME,
            serial: now,
            uses: CertUses { key: KeyUse::DigitalSignature, purpose: Purpose::ClientAuth },
        },
    )
}

/// The key that a reader finds in the certificate is the public key of these
/// PKCS #8 DER bytes, if they are a P-256 signing key.
pub open spec fn shows_key(cert: Seq<u8>, pkcs8: Seq<u8>) -> bool {
    tls::certificate_key(cert) is Some && keys::p256_spki_of_pkcs8(pkcs8) is Some
        ==> tls::certificate_key(cert) == keys::p256_spki_of_pkcs8(pkcs8)
}

/// The part of a certificate that is signed, in DER, as
/// `rcgen::CertificateParams::self_signed` writes it: the serial number, the common
/// name of issuer and subject, the validity in seconds since the epoch, what it is for,
/// and the public key of the PKCS #8 DER bytes. It is no certificate of an authority.
pub uninterp spec fn signed_part(
    common_name: Seq<char>,
    not_before: i64,
    not_after: i64,
    serial: u64,
    uses: CertUses,
    pkcs8: Seq<u8>,
) -> Seq<u8>;

/// The bytes stand in the whole at this place.
pub open spec fn stands_at(part: Seq<u8>, whole: Seq<u8>, at: int) -> bool {
    &&& 0 <= at <= at + part.len() <= whole.len()
    &&& whole.subrange(at, at + part.len()) == part
}

/// The bytes stand somewhere in the whole.
pub open spec fn stands_in(part: Seq<u8>, whole: Seq<u8>) -> bool {
    exists|at: int| #[trigger] stands_at(part, whole, at)
}

/// The certificate of a device from `now` on, for the key in these PKCS #8 DER
/// bytes.
pub open spec fn is_device_cert(cert: Seq<u8>, id: Seq<char>, now: u64, pkcs8: Seq<u8>) -> bool {
    &&& now + CERT_LIFETIME <= LAST_SECOND
    &&& stands_in(
        signed_part(
            common_name_text(id),
            now as i64,
            (now + CERT_LIFETIME) as i64,
            now,
            device_uses(),
            pkcs8,
        ),
        cert,
    )
}

/// `rcgen::CertificateParams::self_signed`: a certificate in DER with the common
/// name, validity, serial number and uses asked for, signed with the key in these PKCS #8 DER bytes; nothing if the bytes are no
/// such key or signing fails. The public key of a P-256 key is written into it in
/// the form (SPKI, uncompressed point) that `p256` gives it. The part that is signed
/// stands in it as it was written. Whether signing succeeds, and the signature,
/// rest on chance, so nothing more is said of the bytes.
#[verifier::external_body]
fn self_signed_cert(asked: &CertRequest, pkcs8: &[u8]) -> (r: Option<Vec<u8>>)
    requires
        0 <= asked.not_before <= asked.not_after <= LAST_SECOND,
    ensures
        r matches Some(cert) ==> shows_key(cert@, pkcs8@) && stands_in(
            signed_part(
                asked.common_name@,
                asked.not_before,
                asked.not_after,
                asked.serial,
                asked.uses,
                pkcs8@,
            ),
            cert@,
        ),
{
    let key = KeyPair::try_from(pkcs8).ok()?;
    let mut params = CertificateParams::default();
    params.distinguished_name = DistinguishedName::new();
    params.distinguished_name.push(DnType::CommonName, asked.common_name.as_str());
    params.not_before = OffsetDateTime::from_unix_timestamp(asked.not_before).ok()?;
    params.not_after = OffsetDateTime::from_unix_timestamp(asked.not_after).ok()?;
    params.key_usages = vec![match asked.uses.key {
        KeyUse::DigitalSignature => Use::DigitalSignature, KeyUse::KeyAgreement => Use::KeyAgreement }];
    params.extended_key_usages = vec![match asked.uses.purpose {
        Purpose::ClientAuth => Side::ClientAuth, Purpose::ServerAuth => Side::ServerAuth }];
    params.serial_number = Some(asked.serial.into());
    params.self_signed(&key).ok().map(|cert| cert.der().to_vec())
}

/// The certificate of a device from `now` on.
fn client_cert(id: &str, pkcs8: &[u8], now: u64) -> (r: Option<Vec<u8>>)
    ensures
        now + CERT_LIFETIME > LAST_SECOND ==> r is None,
        r matches Some(cert) ==> shows_key(cert@, pkcs8@) && is_device_cert(
            cert@,
            id@,
            now,
            pkcs8@,
        ),
{
    match cert_request(id, now) {
        None => None,
        Some(asked) => self_signed_cert(&asked, pkcs8),
    }
}

/// The edge's key in a registration cannot be read.
pub open spec fn pinned_key_is_bad(g: Registration) -> bool {
    g.peer_public_key@.len() > 0 && b64::base64_bytes(g.peer_public_key@) is None
}

/// The key that the edge must show: empty if the registration has none.
pub open spec fn pinned_key(g: Registration) -> Seq<u8> {
    if g.peer_public_key@.len() == 0 {
        Seq::empty()
    } else {
        b64::base64_bytes(g.peer_public_key@)->Some_0
    }
}

/// Puts the credentials together, given the certificate if it could be made.
pub fn assemble_credentials(
    registration: Registration,
    key_der: Vec<u8>,
    cert: Option<Vec<u8>>,
) -> (r: Result<RegCredentials, RegError>)
    ensures
        match r {
            Ok(c) => {
                &&& cert is Some
                &&& !pinned_key_is_bad(registration)
                &&& c.registration == registration
                &&& c.client_cert_der == cert->Some_0
                &&& c.client_key_der == key_der
                &&& c.pinned_spki_der@ == pinned_key(registration)
            },
            Err(e) => if cert is None {
                e == RegError::Certificate
            } else {
                pinned_key_is_bad(registration) && e == RegError::PinnedKey
            },
        },
{
    let client_cert_der = match cert {
        None => return Err(RegError::Certificate),
        Some(c) => c,
    };
    let mut pinned_spki_der: Vec<u8> = Vec::new();
    if registration.peer_public_key.as_str().unicode_len() > 0 {
        match b64::decode(registration.peer_public_key.as_str()) {
            None => return Err(RegError::PinnedKey),
            Some(der) => {
                pinned_spki_der = der;
            },
        }
    }
    Ok(RegCredentials { registration, client_cert_der, client_key_der: key_der, pinned_spki_der })
}

/// Makes the credentials of a registration whose key is `key_der`.
pub fn build_credentials(registration: Registration, key_der: Vec<u8>) -> (r: Result<
    RegCredentials,
    RegError,
>)
    ensures
        match r {
            Ok(c) => {
                &&& !pinned_key_is_bad(registration)
                &&& c.registration == registration
                &&& c.client_key_der == key_der
                &&& shows_key(c.client_cert_der@, key_der@)
                &&& exists|now: u64| #[trigger]
                    is_device_cert(c.client_cert_der@, registration.id@, now, key_der@)
                &&& c.pinned_spki_der@ == pinned_key(registration)
            },
            Err(e) => e == RegError::Certificate || pinned_key_is_bad(registration) && e
                == RegError::PinnedKey,
        },
{
    let cert = client_cert(registration.id.as_str(), key_der.as_slice(), system::now_unix());
    assemble_credentials(registration, key_der, cert)
}

/// The credentials of a registration that was kept in a file: its key is read,
/// written again, and certified.
pub fn load(registration: Registration) -> (r: Result<RegCredentials, RegError>)
    ensures
        match b64::base64_bytes(registration.private_key@) {
            None => r == Err::<RegCredentials, RegError>(RegError::PrivateKeyEncoding),
            Some(pkcs8) => match keys::p256_pkcs8_again(pkcs8) {
                None => r == Err::<RegCredentials, RegError>(RegError::PrivateKey),
                Some(der) => match r {
                    Ok(c) => {
                        &&& !pinned_key_is_bad(registration)
                        &&& c.registration == registration
                        &&& c.client_key_der@ == der
                        &&& shows_key(c.client_cert_der@, pkcs8)
                        &&& exists|now: u64| #[trigger]
                            is_device_cert(c.client_cert_der@, registration.id@, now, der)
                        &&& c.pinned_spki_der@ == pinned_key(registration)
                    },
                    Err(e) => e == RegError::Certificate || pinned_key_is_bad(registration) && e
                        == RegError::PinnedKey,
                },
            },
        },
{
    let pkcs8 = match b64::decode(registration.private_key.as_str()) {
        None => return Err(RegError::PrivateKeyEncoding),
        Some(b) => b,
    };
    match keys::pkcs8_again(pkcs8.as_slice()) {
        None => Err(RegError::PrivateKey),
        Some(der) => {
            let ghost (id, again) = (registration.id@, der@);
            let r = build_credentials(registration, der);
            proof {
                if r is Ok {
                    let cert = r->Ok_0.client_cert_der@;
                    let now = choose|now: u64| #[trigger] is_device_cert(cert, id, now, again);
                    assert(is_device_cert(cert, id, now, again));
                }
            }
            r
        },
    }
}

/// The key of a finished registration reads back from what is kept of it.
pub proof fn lemma_private_key_read_back(
    g: Registration,
    token: Seq<char>,
    r: RegResult,
    pkcs8: Seq<u8>,
)
    requires
        registration_holds(g, token, r, pkcs8),
    ensures
        b64::base64_bytes(g.private_key@) == Some(pkcs8),
{
    b64::lemma_base64_read_back(pkcs8);
}

/// The certificate of a device shows the key that was enrolled for it.
pub proof fn lemma_certificate_shows_enrolled_key(
    pkcs8: Seq<u8>,
    spki: Seq<u8>,
    enrolled: Seq<char>,
    cert: Seq<u8>,
)
    requires
        keys::p256_spki_of_pkcs8(pkcs8) == Some(spki),
        enrolled == b64::base64_text(spki),
        shows_key(cert, pkcs8),
        tls::certificate_key(cert) is Some,
    ensures
        tls::certificate_key(cert) == b64::base64_bytes(enrolled),
{
    b64::lemma_base64_read_back(spki);
}

/// The edge's key of a finished registration is the one that is pinned.
pub proof fn lemma_edge_key_is_pinned(
    g: Registration,
    token: Seq<char>,
    r: RegResult,
    pkcs8: Seq<u8>,
)
    requires
        !edge_key_is_bad(r),
        registration_holds(g, token, r, pkcs8),
        first_peer(r) is Some,
        first_peer(r)->Some_0.public_key@.len() > 0,
    ensures
        !pinned_key_is_bad(g),
        pinned_key(g) == keys::p256_spki_of_pem(first_peer(r)->Some_0.public_key@)->Some_0,
{
    let der = keys::p256_spki_of_pem(first_peer(r)->Some_0.public_key@)->Some_0;
    b64::lemma_base64_read_back(der);
    if der.len() == 0 {
        assert(der =~= Seq::empty());
    }
}

// ---------------------------------------------------------------------------
// Removal

/// Where a device is removed; nothing without an identifier and a token.
pub fn removal_url(id: &str, token: &str) -> (r: Option<String>)
    ensures
        match r {
            Some(s) => id@.len() > 0 && token@.len() > 0 && s@ == device_url_text(id@),
            None => id@.len() == 0 || token@.len() == 0,
        },
{
    if id.unicode_len() == 0 || token.unicode_len() == 0 {
        return None;
    }
    Some(device_url(id))
}

/// Whether a removal succeeded, by the status of the reply.
pub fn removal_outcome(status: u16) -> (r: Result<(), RegError>)
    ensures
        r == if is_success_status(status) {
            Ok::<(), RegError>(())
        } else {
            Err(RegError::Removal(status))
        },
{
    if is_success(status) {
        Ok(())
    } else {
        Err(RegError::Removal(status))
    }
}

} // verus!
