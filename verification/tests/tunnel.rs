use warp_socks::addr::{IpAddr, SocketAddr};
use warp_socks::config::{names_to_resolve, parse_wg_conf, Resolution, WgConfError, WgConfig};
use warp_socks::registration::teams::{
    write_wg_conf, WgAccount, WgAccountAddresses, WgAccountConfig, WgAccountEndpoint,
    WgAccountInterface, WgAccountPeer,
};
use warp_socks::tunnel::{
    cleared, decoy_header, handshake_step, inbound, outbound, patch_reserved, strip_reserved,
    exhausted, HandshakeStep, Inbound, ProtocolError, Trick, TunnOutput, WgCore,
};

const KEY: &str = "AAECAwQFBgcICQoLDA0ODxAREhMUFRYXGBkaGxwdHh8=";

fn conf(lines: &[&str]) -> String {
    lines.join("\n")
}

fn full() -> Vec<String> {
    vec![
        "[Interface]".to_string(),
        format!("PrivateKey = {KEY}"),
        "Address = 172.16.0.2/32".to_string(),
        "Address = 2001:db8::2/128".to_string(),
        "Reserved = 1, 2 ,3".to_string(),
        "[Peer]".to_string(),
        format!(" PublicKey={KEY} "),
        "Endpoint = 1.2.3.4:2408".to_string(),
        "Unknown = x".to_string(),
    ]
}

fn without(key: &str) -> String {
    full().into_iter().filter(|l| !l.contains(key)).collect::<Vec<String>>().join("\n")
}

#[test]
fn configurations_are_read() {
    let c = parse_wg_conf(&full().join("\n"), &vec![]).unwrap();
    let mut key = [0; 32];
    for i in 0..32 {
        key[i] = i as u8;
    }
    let mut v6 = [0; 16];
    v6[..4].copy_from_slice(&[0x20, 0x01, 0x0d, 0xb8]);
    v6[15] = 2;
    assert_eq!(
        c,
        WgConfig {
            private_key: key,
            peer_public_key: key,
            endpoint: SocketAddr::new(IpAddr::V4([1, 2, 3, 4]), 2408),
            reserved: [1, 2, 3],
            address_v4: [172, 16, 0, 2],
            address_v6: v6,
        }
    );
}

#[test]
fn configurations_that_lack_something() {
    for (key, error) in [
        ("PrivateKey", WgConfError::MissingPrivateKey),
        ("PublicKey", WgConfError::MissingPublicKey),
        ("Endpoint", WgConfError::MissingEndpoint),
        ("172.16", WgConfError::MissingIpv4Address),
        ("2001:db8", WgConfError::MissingIpv6Address),
    ] {
        assert_eq!(parse_wg_conf(&without(key), &vec![]), Err(error));
    }
    assert_eq!(parse_wg_conf(&without("Reserved"), &vec![]).unwrap().reserved, [0, 0, 0]);
}

#[test]
fn settings_that_cannot_be_read() {
    let err = |line: &str| parse_wg_conf(&conf(&[line]), &vec![]).unwrap_err();
    assert_eq!(err("PrivateKey = !"), WgConfError::KeyEncoding("!".to_string()));
    assert_eq!(err("PublicKey = AQID"), WgConfError::KeyLength(3));
    assert_eq!(err("Reserved = 1,2"), WgConfError::ReservedShape("1,2".to_string()));
    assert_eq!(err("Reserved = 1,2,256"), WgConfError::ReservedNumber("1,2,256".to_string()));
    assert_eq!(err("Address = x/32"), WgConfError::Address("x/32".to_string()));
    assert_eq!(err("Endpoint = h:1"), WgConfError::EndpointUnresolved("h:1".to_string()));
    for (line, message) in [
        ("PrivateKey = !", "base64 解码失败: !"),
        ("PublicKey = AQID", "key 长度应为32字节，实际 3"),
        ("Reserved = 1,2", "Reserved 字段格式错误: 1,2"),
        ("Reserved = 1,2,256", "Reserved 解析失败: 1,2,256"),
        ("Address = x/32", "Address 解析失败: x/32: invalid IP address syntax"),
        ("Endpoint = h:1", "Endpoint 解析失败: h:1"),
        ("", "wg0.conf 缺少 PrivateKey"),
    ] {
        assert_eq!(err(line).message(), message);
    }
    assert_eq!(
        WgConfError::EndpointWithoutAddress("h:1".to_string()).message(),
        "Endpoint 无法解析为地址: h:1"
    );
    assert_eq!(WgConfError::MissingPublicKey.message(), "wg0.conf 缺少 [Peer] PublicKey");
    assert_eq!(WgConfError::MissingEndpoint.message(), "wg0.conf 缺少 Endpoint");
    assert_eq!(WgConfError::MissingIpv4Address.message(), "wg0.conf 缺少 IPv4 Address");
    assert_eq!(WgConfError::MissingIpv6Address.message(), "wg0.conf 缺少 IPv6 Address");
}

#[test]
fn disguises_have_names() {
    assert_eq!(Trick::named("none"), Some(Trick::Off));
    assert_eq!(Trick::named("t1"), Some(Trick::T1));
    assert_eq!(Trick::named("t2"), Some(Trick::T2));
    assert_eq!(Trick::named("T1"), None);
}

#[test]
fn names_of_endpoints_are_resolved_in_order() {
    let text = conf(&["Endpoint = a:1", "Endpoint = 1.2.3.4:5", "Endpoint = b:2"]);
    assert_eq!(names_to_resolve(&text), vec!["a:1", "b:2"]);
    let named = format!("{}\nEndpoint = h:1", full().join("\n"));
    let found = SocketAddr::new(IpAddr::V4([9, 9, 9, 9]), 1);
    assert_eq!(parse_wg_conf(&named, &vec![Resolution::Found(found)]).unwrap().endpoint, found);
    assert_eq!(
        parse_wg_conf(&named, &vec![Resolution::Nothing]),
        Err(WgConfError::EndpointWithoutAddress("h:1".to_string()))
    );
    assert_eq!(
        parse_wg_conf(&named, &vec![Resolution::Failed]),
        Err(WgConfError::EndpointUnresolved("h:1".to_string()))
    );
}

#[test]
fn written_configurations_are_read_back() {
    let account = WgAccount {
        private_key: KEY.to_string(),
        config: WgAccountConfig {
            client_id: "BAUG".to_string(),
            peers: vec![WgAccountPeer {
                public_key: KEY.to_string(),
                endpoint: WgAccountEndpoint { host: "h:1".to_string() },
            }],
            interface: WgAccountInterface {
                addresses: WgAccountAddresses {
                    v4: "10.0.0.2".to_string(),
                    v6: "fd00::2".to_string(),
                },
            },
        },
    };
    let text = write_wg_conf(&account, Some("[2001:db8::9]:2408")).unwrap();
    let c = parse_wg_conf(&text, &vec![]).unwrap();
    assert_eq!(c.reserved, [4, 5, 6]);
    assert_eq!(c.address_v4, [10, 0, 0, 2]);
    assert_eq!(c.endpoint.to_text(), "[2001:db8::9]:2408");
    let mut account = account;
    account.config.interface.addresses.v4 = "10.0.0.2/24".to_string();
    account.config.interface.addresses.v6 = "fd00::2/64".to_string();
    let text = write_wg_conf(&account, Some("[2001:db8::9]:2408")).unwrap();
    assert_eq!(parse_wg_conf(&text, &vec![]).unwrap(), c);
}

#[test]
fn reserved_bytes_are_set_and_cleared() {
    let mut p = vec![4, 0, 0, 0, 9];
    patch_reserved(&mut p, &[1, 2, 3]);
    assert_eq!(p, vec![4, 1, 2, 3, 9]);
    strip_reserved(&mut p);
    assert_eq!(p, vec![4, 0, 0, 0, 9]);
    for mut other in [vec![5, 0, 0, 0], vec![0, 7, 7, 7], vec![1, 2, 3]] {
        let before = other.clone();
        patch_reserved(&mut other, &[1, 2, 3]);
        assert_eq!(other, before);
    }
    assert_eq!(cleared(vec![1, 9, 9, 9]), Some(vec![1, 0, 0, 0]));
    assert_eq!(cleared(vec![1; 2049]), None);
    assert!(cleared(vec![1; 2048]).is_some());
}

#[test]
fn outcomes_of_the_protocol() {
    let r = [1, 2, 3];
    assert_eq!(inbound(TunnOutput::Done, &r), Inbound::Idle);
    assert_eq!(inbound(TunnOutput::Failed, &r), Inbound::Idle);
    assert_eq!(
        inbound(TunnOutput::ToNetwork(vec![1, 0, 0, 0]), &r),
        Inbound::Send(vec![1, 1, 2, 3])
    );
    assert_eq!(inbound(TunnOutput::ToTunnel(vec![4, 0]), &r), Inbound::Deliver(vec![4, 0]));
    assert_eq!(
        outbound(TunnOutput::ToNetwork(vec![1, 0, 0, 0]), false, &r),
        Ok(Some(vec![1, 1, 2, 3]))
    );
    assert_eq!(outbound(TunnOutput::Done, true, &r), Ok(None));
    assert_eq!(outbound(TunnOutput::Done, false, &r), Err(ProtocolError));
    assert_eq!(outbound(TunnOutput::Failed, true, &r), Err(ProtocolError));
    assert_eq!(outbound(TunnOutput::ToTunnel(vec![]), true, &r), Err(ProtocolError));
}

#[test]
fn handshakes_end_in_time() {
    assert_eq!(handshake_step(0, 10, false), HandshakeStep::Pump);
    assert_eq!(handshake_step(9, 10, true), HandshakeStep::Established);
    assert_eq!(handshake_step(10, 10, true), HandshakeStep::TimedOut);
}

fn ends() -> (WgCore, WgCore) {
    let (a, b) = ([1; 32], [2; 32]);
    let public = |k: [u8; 32]| {
        let secret = boringtun::x25519::StaticSecret::from(k);
        *boringtun::x25519::PublicKey::from(&secret).as_bytes()
    };
    let config = |own: [u8; 32], peer: [u8; 32]| WgConfig {
        private_key: own,
        peer_public_key: public(peer),
        endpoint: SocketAddr::new(IpAddr::V4([127, 0, 0, 1]), 1),
        reserved: [7, 8, 9],
        address_v4: [10, 0, 0, 1],
        address_v6: [0; 16],
    };
    (WgCore::new(&config(a, b), Trick::Off), WgCore::new(&config(b, a), Trick::Off))
}

fn ip_packet() -> Vec<u8> {
    let mut p = vec![0u8; 28];
    p[0] = 0x45;
    p[3] = 28;
    p[8] = 64;
    p[9] = 17;
    p[12..16].copy_from_slice(&[10, 0, 0, 1]);
    p[16..20].copy_from_slice(&[10, 0, 0, 2]);
    p
}

#[test]
fn packets_go_through_a_tunnel() {
    let (mut a, mut b) = ends();
    assert_eq!(a.handshake_step(0, 10), HandshakeStep::Pump);
    let first = a.initiate().unwrap();
    assert_eq!(&first[..4], &[1, 7, 8, 9]);
    assert_eq!(first.len(), 148);
    let second = match b.on_network(first) {
        Inbound::Send(p) => p,
        _ => panic!("an answer to the handshake"),
    };
    assert_eq!(&second[..4], &[2, 7, 8, 9]);
    let third = match a.on_network(second) {
        Inbound::Send(p) => p,
        _ => panic!("a keepalive"),
    };
    assert_eq!(&third[..4], &[4, 7, 8, 9]);
    assert_eq!(a.handshake_step(0, 10), HandshakeStep::Established);
    assert_eq!(b.on_network(third), Inbound::Idle);
    assert_eq!(a.drain(), Inbound::Idle);
    let wrapped = a.on_packet(&ip_packet()).unwrap().unwrap();
    assert_eq!(&wrapped[..4], &[4, 7, 8, 9]);
    assert_eq!(wrapped.len(), 60);
    assert_ne!(&wrapped[16..], &ip_packet()[..]);
    assert_eq!(b.on_network(wrapped), Inbound::Deliver(ip_packet()));
    assert_eq!(b.on_network(vec![9; 60]), Inbound::Idle);
    assert_eq!(b.on_network(vec![1; 147]), Inbound::Idle);
    assert_eq!(a.on_packet(&[0; 2017]), Err(ProtocolError));
    assert_eq!(a.on_tick(), None);
}

#[test]
fn only_a_response_to_its_own_handshake_completes_it() {
    let (mut a, mut b) = ends();
    let first = a.initiate().unwrap();
    let second = match b.on_network(first.clone()) {
        Inbound::Send(p) => p,
        _ => panic!("an answer to the handshake"),
    };
    assert_eq!(b.on_network(first), Inbound::Idle);
    let mut other = second.clone();
    other[20] ^= 1;
    assert_eq!(a.on_network(other), Inbound::Idle);
    assert_eq!(a.handshake_step(0, 10), HandshakeStep::Pump);
    assert!(matches!(a.on_network(second.clone()), Inbound::Send(p) if p.len() == 32));
    assert_eq!(a.handshake_step(0, 10), HandshakeStep::Established);
    assert_eq!(a.on_network(second), Inbound::Idle);
    assert_eq!(a.handshake_step(0, 10), HandshakeStep::Established);
}

#[test]
fn numbers_that_ran_out_are_dropped() {
    let (mut a, _) = ends();
    let mut message = vec![0u8; 32];
    message[0] = 4;
    assert!(!exhausted(&message));
    message[8..16].copy_from_slice(&(u64::MAX - 1024).to_le_bytes());
    assert!(!exhausted(&message));
    message[8..16].copy_from_slice(&(u64::MAX - 1023).to_le_bytes());
    assert!(exhausted(&message));
    message[8..16].copy_from_slice(&u64::MAX.to_le_bytes());
    assert!(exhausted(&message));
    assert!(!exhausted(&message[..31]));
    message[1..4].copy_from_slice(&[7, 8, 9]);
    assert_eq!(a.on_network(message), Inbound::Idle);
}

#[test]
fn packets_wait_for_a_session() {
    let (mut a, mut b) = ends();
    assert_eq!(a.drain(), Inbound::Idle);
    let first = a.on_packet(&ip_packet()).unwrap().unwrap();
    assert_eq!(&first[..4], &[1, 7, 8, 9]);
    assert_eq!(first.len(), 148);
    assert_eq!(a.on_packet(&[0; 10]), Ok(None));
    assert_eq!(a.initiate(), Err(ProtocolError));
    let second = match b.on_network(first) {
        Inbound::Send(p) => p,
        _ => panic!("an answer to the handshake"),
    };
    assert!(matches!(a.on_network(second), Inbound::Send(p) if p.len() == 32));
    match a.drain() {
        Inbound::Send(p) => assert_eq!(b.on_network(p), Inbound::Deliver(ip_packet())),
        _ => panic!("the packet that came first"),
    }
    assert!(matches!(a.on_network(vec![]), Inbound::Send(p) if p.len() == 42));
    assert_eq!(a.drain(), Inbound::Idle);
    assert_eq!(&a.initiate().unwrap()[..4], &[1, 7, 8, 9]);
}

#[test]
fn a_packet_that_waits_goes_behind_the_others_without_a_session() {
    let (mut a, mut b) = ends();
    let first = a.on_packet(&ip_packet()).unwrap().unwrap();
    assert_eq!(a.on_packet(&[0; 10]), Ok(None));
    assert_eq!(a.drain(), Inbound::Idle);
    let second = match b.on_network(first) {
        Inbound::Send(p) => p,
        _ => panic!("an answer to the handshake"),
    };
    assert!(matches!(a.on_network(second), Inbound::Send(_)));
    assert!(matches!(a.drain(), Inbound::Send(p) if p.len() == 42));
    assert!(matches!(a.drain(), Inbound::Send(p) if p.len() == 60));
}

#[test]
fn decoys_disguise_a_handshake() {
    let (a, _) = ends();
    assert!(a.decoys().is_empty());
    let config = WgConfig {
        private_key: [1; 32],
        peer_public_key: [2; 32],
        endpoint: SocketAddr::new(IpAddr::V4([127, 0, 0, 1]), 1),
        reserved: [0; 3],
        address_v4: [0; 4],
        address_v6: [0; 16],
    };
    for (trick, header) in [(Trick::T1, 0), (Trick::T2, 18)] {
        let decoys = WgCore::new(&config, trick).decoys();
        assert!(decoys.len() >= 20 && decoys.len() <= 50);
        for d in &decoys {
            assert!(d.packet.len() >= header + 10 && d.packet.len() <= header + 120);
            assert_eq!(&d.packet[..header], &decoys[0].packet[..header]);
            assert!(d.delay_ms >= 80 && d.delay_ms <= 150);
        }
    }
    assert_eq!(
        decoy_header(1, &[9; 8]),
        vec![0xde, 0, 0, 0, 1, 8, 9, 9, 9, 9, 9, 9, 9, 9, 0, 0, 0x44, 0xd0]
    );
}
