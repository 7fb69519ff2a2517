use warp_socks::b64;
use warp_socks::outbound::masque::tls::{check_certificate, EdgeError};
use warp_socks::registration::masque::{
    assemble_credentials, bearer, build_credentials, cert_request, common_name, current_tos as masque_tos,
    device_key, device_url, enroll_request, finish_registration, first_request, is_success, load,
    new_device_key, register_request, register_url, removal_outcome, removal_url, strip_host,
    tos_or_default, CertUses, EnrollConfig, EnrollPeer, KeyUse, Purpose, RegError,
    RegResult, Registration,
};
use warp_socks::registration::teams::{
    alnum_of, current_tos, decide, ensure_v4_cidr, ensure_v6_cidr, normalize_token, random_alnum,
    reserved_bytes, summarize, write_wg_conf, AccountError, TeamsError, TeamsRegistrar, TeamsStep,
    WgAccount, WgAccountAddresses, WgAccountConfig, WgAccountEndpoint, WgAccountInterface,
    WgAccountPeer,
};

fn account() -> WgAccount {
    WgAccount {
        private_key: "priv".to_string(),
        config: WgAccountConfig {
            client_id: String::new(),
            peers: vec![WgAccountPeer {
                public_key: "peer-pub".to_string(),
                endpoint: WgAccountEndpoint { host: "default.example:2408".to_string() },
            }],
            interface: WgAccountInterface {
                addresses: WgAccountAddresses {
                    v4: "10.0.0.2".to_string(),
                    v6: "fd00::2".to_string(),
                },
            },
        },
    }
}

#[test]
fn normalize_token_strips_uri_wrapper() {
    assert_eq!(
        normalize_token("com.cloudflare.warp://register?token=abc123&other=1"),
        "abc123"
    );
    assert_eq!(normalize_token("plain-token"), "plain-token");
    assert_eq!(normalize_token("com.cloudflare.warp://register?token=abc123"), "abc123");
}

#[test]
fn reserved_bytes_from_client_id() {
    assert_eq!(reserved_bytes("AQID"), [1, 2, 3]);
    assert_eq!(reserved_bytes(""), [0, 0, 0]);
}

#[test]
fn write_wg_conf_rejects_missing_fields() {
    let account = WgAccount::default();
    assert!(write_wg_conf(&account, None).is_err());
}

#[test]
fn write_wg_conf_uses_override_endpoint() {
    let text = write_wg_conf(&account(), Some("1.2.3.4:2408")).unwrap();
    assert!(text.contains("Endpoint = 1.2.3.4:2408"));
    assert!(text.contains("Address = 10.0.0.2/32"));
    assert!(text.contains("Address = fd00::2/128"));
    assert!(text.contains("Reserved = 0,0,0"));
}

#[test]
fn configuration_names_what_is_missing() {
    let mut a = account();
    a.private_key.clear();
    assert_eq!(write_wg_conf(&a, None), Err(AccountError::PrivateKey));
    let mut a = account();
    a.config.peers.clear();
    assert_eq!(write_wg_conf(&a, None), Err(AccountError::Peer));
    let mut a = account();
    a.config.peers[0].public_key.clear();
    assert_eq!(write_wg_conf(&a, None), Err(AccountError::PeerPublicKey));
    let mut a = account();
    a.config.interface.addresses.v4.clear();
    assert_eq!(write_wg_conf(&a, None), Err(AccountError::Ipv4Address));
    let mut a = account();
    a.config.interface.addresses.v6.clear();
    assert_eq!(write_wg_conf(&a, None), Err(AccountError::Ipv6Address));
    assert!(write_wg_conf(&account(), None).unwrap().contains("Endpoint = default.example:2408"));
}

#[test]
fn reserved_bytes_of_other_identifiers() {
    assert_eq!(reserved_bytes("AQIDBA=="), [1, 2, 3]);
    assert_eq!(reserved_bytes("AQI="), [1, 2, 0]);
    assert_eq!(reserved_bytes("!"), [0, 0, 0]);
}

#[test]
fn prefix_lengths_are_added_where_missing() {
    assert_eq!(ensure_v4_cidr("10.0.0.2"), "10.0.0.2/32");
    assert_eq!(ensure_v4_cidr("10.0.0.2/24"), "10.0.0.2/24");
    assert_eq!(ensure_v6_cidr("fd00::2"), "fd00::2/128");
    assert_eq!(ensure_v6_cidr("fd00::2/64"), "fd00::2/64");
}

#[test]
fn registration_needs_a_token() {
    let none = TeamsRegistrar::new("  ", "account.json");
    assert_eq!(none.start().err(), Some(TeamsError::MissingToken));
    let mut some = TeamsRegistrar::new("com.cloudflare.warp://x?token=abc&y", "account.json");
    assert_eq!((some.retries, some.retry_delay), (2, 2));
    some.retries = 0;
    let session = some.start().unwrap();
    assert_eq!(session.token, "abc");
    assert_eq!(session.retries, 1);
    assert_eq!(session.install_id.len(), 22);
    assert_eq!(session.fcm_token.len(), 22 + 7 + 134);
    assert!(session.fcm_token.starts_with(&format!("{}:APA91b", session.install_id)));
    let secret: [u8; 32] = b64::decode(&session.private_key).unwrap().try_into().unwrap();
    let secret = boringtun::x25519::StaticSecret::from(secret);
    let public = boringtun::x25519::PublicKey::from(&secret);
    assert_eq!(b64::decode(&session.public_key).unwrap(), public.as_bytes().to_vec());
    let request = session.request("now".to_string());
    assert_eq!(request.key, session.public_key);
    assert_eq!(request.serial_number, session.install_id);
    assert_eq!((request.model.as_str(), request.locale.as_str()), ("PC", "zh_CN"));
    assert_eq!(request.tos, "now");
}

#[test]
fn replies_to_a_registration() {
    let mut session = TeamsRegistrar::new("t", "p").start().unwrap();
    let yes = "{\"account\": {\"id\": 1}}";
    assert_eq!(session.on_reply(Some(200), None, yes), TeamsStep::Accept);
    assert_eq!(
        session.on_reply(Some(401), None, "the token is expired"),
        TeamsStep::Fail(TeamsError::TokenExpired)
    );
    assert_eq!(session.on_reply(Some(200), None, "{\"account\": null}"), TeamsStep::RetryAfter(2));
    assert_eq!(session.attempt, 2);
    assert_eq!(
        session.on_reply(Some(200), None, "no json"),
        TeamsStep::Fail(TeamsError::RetriesExhausted)
    );
    let done = session.finish(account());
    assert_eq!(done.private_key, session.private_key);
    assert_eq!(done.config, account().config);
}

#[test]
fn waits_between_tries() {
    assert_eq!(decide(1, 3, 2, None, None, "", false), TeamsStep::RetryAfter(2));
    assert_eq!(decide(2, 3, 2, None, None, "", false), TeamsStep::RetryAfter(4));
    assert_eq!(decide(1, 3, 2, Some(429), Some(" 9 "), "", false), TeamsStep::RetryAfter(9));
    assert_eq!(decide(1, 3, 2, Some(429), Some("1"), "", false), TeamsStep::RetryAfter(2));
    assert_eq!(decide(1, 3, 2, Some(429), Some("soon"), "", false), TeamsStep::RetryAfter(2));
    assert_eq!(decide(3, 5, u64::MAX, None, None, "", false), TeamsStep::RetryAfter(u64::MAX));
    assert_eq!(
        decide(3, 3, 2, None, None, "", false),
        TeamsStep::Fail(TeamsError::RetriesExhausted)
    );
    assert_eq!(decide(3, 3, 2, Some(200), None, "", true), TeamsStep::Accept);
}

#[test]
fn identifiers_by_chance() {
    assert_eq!(alnum_of(&vec![0, 1]).len(), 2);
    let a = random_alnum(30);
    assert_eq!(a.len(), 30);
    assert!(a.chars().all(|c| c.is_ascii_alphanumeric()));
    assert_ne!(a, random_alnum(30));
}

#[test]
fn moments_in_words() {
    let tos = current_tos();
    assert!(tos.starts_with("20"));
    assert_eq!(&tos[10..11], "T");
    let masque = masque_tos();
    assert!(masque.starts_with("20") && masque.ends_with('Z'));
    assert_eq!(tos_or_default(None), "2024-01-01T00:00:00Z");
    assert_eq!(tos_or_default(Some("x".to_string())), "x");
}

#[test]
fn replies_are_summarized() {
    assert_eq!(summarize(" a\n b "), "a b");
    assert_eq!(summarize(&"x".repeat(300)).len(), 220);
}

fn reply(key: &str, ports: Vec<i64>) -> RegResult {
    RegResult {
        id: "dev".to_string(),
        token: String::new(),
        account_id: "acc".to_string(),
        key_type: "secp256r1".to_string(),
        tunnel_type: "masque".to_string(),
        config: Some(EnrollConfig {
            peers: vec![EnrollPeer {
                public_key: key.to_string(),
                endpoint_v4: "162.159.198.2:0".to_string(),
                endpoint_v6: "[2606:4700:103::2]:0".to_string(),
                ports,
            }],
            address_v4: "172.16.0.2".to_string(),
            address_v6: "2606::2".to_string(),
        }),
    }
}

#[test]
fn registration_is_finished_from_the_replies() {
    let (pkcs8, spki) = new_device_key().unwrap();
    let key = enroll_request(&spki).key;
    let pem = format!(
        "-----BEGIN PUBLIC KEY-----\n{}\n{}\n-----END PUBLIC KEY-----\n",
        &key[..64],
        &key[64..]
    );
    let g = finish_registration("tok", &reply(&pem, vec![443, 65537]), &pkcs8).unwrap();
    assert_eq!((g.id.as_str(), g.token.as_str(), g.account.as_str()), ("dev", "tok", "acc"));
    assert_eq!(g.endpoint_v4, "162.159.198.2");
    assert_eq!(g.endpoint_v6, "2606:4700:103::2");
    assert_eq!(g.endpoint_ports, vec![443, 1]);
    assert_eq!((g.assigned_ipv4.as_str(), g.assigned_ipv6.as_str()), ("172.16.0.2", "2606::2"));
    assert_eq!(b64::decode(&g.private_key).unwrap(), pkcs8);
    assert_eq!(b64::decode(&g.peer_public_key).unwrap(), spki);
    let bad = finish_registration("tok", &reply("nonsense", vec![]), &pkcs8).unwrap_err();
    assert_eq!(bad, RegError::EdgeKey("nonsense".to_string()));
    let keyless = finish_registration("tok", &reply("", vec![]), &pkcs8).unwrap();
    assert_eq!(keyless.peer_public_key, "");
    let mut none = reply("", vec![]);
    none.config = None;
    assert_eq!(finish_registration("tok", &none, &pkcs8).unwrap().endpoint_v4, "");
}

fn registered() -> (Registration, Vec<u8>, Vec<u8>) {
    let (pkcs8, spki) = new_device_key().unwrap();
    let g = finish_registration("tok", &reply("", vec![443]), &pkcs8).unwrap();
    (g, pkcs8, spki)
}

#[test]
fn credentials_show_the_key_of_the_device() {
    let (mut g, pkcs8, spki) = registered();
    g.peer_public_key = enroll_request(&spki).key;
    let creds = load(g.clone()).unwrap();
    assert_eq!(creds.registration, g);
    assert_eq!(creds.client_key_der, pkcs8);
    assert_eq!(creds.pinned_spki_der, spki);
    assert_eq!(check_certificate(&creds.client_cert_der, &spki), Ok(()));
    assert_eq!(check_certificate(&creds.client_cert_der, b"other"), Err(EdgeError::WrongKey));
    let built = build_credentials(g.clone(), pkcs8).unwrap();
    assert_eq!(check_certificate(&built.client_cert_der, &spki), Ok(()));
    let (_, cert) = x509_parser::parse_x509_certificate(&built.client_cert_der).unwrap();
    let name = format!("CN={}.masque2.cloudflareclient.com", g.id);
    assert_eq!(cert.subject().to_string(), name);
    assert_eq!(cert.issuer().to_string(), name);
    let validity = cert.validity();
    assert_eq!(validity.not_after.timestamp() - validity.not_before.timestamp(), 86_400);
    assert_eq!(cert.serial.to_string(), validity.not_before.timestamp().to_string());
    let usage = cert.key_usage().unwrap().unwrap().value;
    assert!(usage.digital_signature() && !usage.key_agreement() && !usage.key_cert_sign());
    let purpose = cert.extended_key_usage().unwrap().unwrap().value;
    assert!(purpose.client_auth && !purpose.server_auth);
    assert!(cert.basic_constraints().unwrap().is_none());
}

#[test]
fn certificate_names_the_device_for_a_day() {
    let c = cert_request("dev", 1_700_000_000).unwrap();
    assert_eq!(c.common_name, "dev.masque2.cloudflareclient.com");
    assert_eq!((c.not_before, c.not_after), (1_700_000_000, 1_700_086_400));
    assert_eq!(c.serial, 1_700_000_000);
    let uses = CertUses { key: KeyUse::DigitalSignature, purpose: Purpose::ClientAuth };
    assert_eq!(c.uses, uses);
    assert!(cert_request("dev", 253_402_214_399).is_some());
    assert!(cert_request("dev", 253_402_214_400).is_none());
}

#[test]
fn credentials_that_cannot_be_read() {
    let (g, pkcs8, _) = registered();
    let with = |private_key: &str, peer: &str| {
        let mut r = g.clone();
        r.private_key = private_key.to_string();
        r.peer_public_key = peer.to_string();
        load(r).unwrap_err()
    };
    assert_eq!(with("!", ""), RegError::PrivateKeyEncoding);
    assert_eq!(with("AAAA", ""), RegError::PrivateKey);
    assert_eq!(with(&g.private_key, "!"), RegError::PinnedKey);
    assert_eq!(assemble_credentials(g, pkcs8, None).unwrap_err(), RegError::Certificate);
    assert_eq!(RegError::PrivateKey.message(), "私钥 PKCS8 解析失败");
    assert_eq!(RegError::EdgeKey("x".to_string()).message(), "解析边缘公钥失败: x");
    assert_eq!(RegError::PinnedKey.message(), "边缘公钥 base64 解码失败");
    assert_eq!(RegError::Certificate.message(), "自签客户端证书失败");
    assert_eq!(RegError::PrivateKeyEncoding.message(), "私钥 base64 解码失败");
    assert_eq!(RegError::NewKey.message(), "ECDSA 私钥 PKCS8 编码失败");
}

#[test]
fn requests_for_a_device() {
    let r = first_request();
    assert_eq!(b64::decode(&r.key).unwrap().len(), 32);
    assert_eq!(b64::decode(&r.serial_number).unwrap().len(), 8);
    assert_ne!(r.key, first_request().key);
    assert_eq!((r.model.as_str(), r.locale.as_str()), ("PC", "en_US"));
    assert_eq!((r.key_type.as_str(), r.tunnel_type.as_str()), ("curve25519", "wireguard"));
    assert!(r.warp_enabled);
    let fixed = register_request("k".to_string(), "s".to_string(), "t".to_string());
    assert_eq!((fixed.key.as_str(), fixed.serial_number.as_str(), fixed.tos.as_str()), ("k", "s", "t"));
    assert_eq!(register_url(), "https://api.cloudflareclient.com/v0/reg");
    assert_eq!(device_url("d"), "https://api.cloudflareclient.com/v0/reg/d");
    assert_eq!(bearer("t"), "Bearer t");
    assert_eq!(common_name("d"), "d.masque2.cloudflareclient.com");
    assert!(is_success(200) && is_success(299) && !is_success(300) && !is_success(199));
    assert_eq!(removal_url("d", "t").as_deref(), Some("https://api.cloudflareclient.com/v0/reg/d"));
    assert_eq!(removal_url("", "t"), None);
    assert_eq!(removal_url("d", ""), None);
    let e = enroll_request(b"\x01\x02\x03");
    assert_eq!((e.key.as_str(), e.key_type.as_str(), e.tunnel_type.as_str()), ("AQID", "secp256r1", "masque"));
}

#[test]
fn hosts_of_endpoints() {
    assert_eq!(strip_host(" 1.2.3.4:500 "), "1.2.3.4");
    assert_eq!(strip_host("[::1]:0"), "::1");
    assert_eq!(strip_host("h"), "h");
    assert_eq!(strip_host("[::1"), "[");
}

#[test]
fn a_drawn_key_is_the_key_of_the_device() {
    let (pkcs8, spki) = new_device_key().unwrap();
    assert_eq!(device_key(Some(pkcs8.clone())), Ok((pkcs8, spki)));
    assert_eq!(device_key(Some(vec![1, 2, 3])), Err(RegError::NewKey));
    assert_eq!(device_key(None), Err(RegError::NewKey));
}

#[test]
fn a_refused_removal_is_an_error() {
    assert_eq!(removal_outcome(200), Ok(()));
    assert_eq!(removal_outcome(204), Ok(()));
    assert_eq!(removal_outcome(404), Err(RegError::Removal(404)));
    assert_eq!(RegError::Removal(404).message(), "API 注销返回 404");
}
