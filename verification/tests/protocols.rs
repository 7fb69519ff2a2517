use warp_socks::addr::{
    ipv4_from, ipv6_from, parse_ip, parse_socket_addr, same_addr, same_ip, IpAddr, SocketAddr,
};
use warp_socks::b64;
use warp_socks::dns::{
    encode_dns_query, kept_for, parse_dns_response, read_record, skip_name, to_lower, DnsCache,
    DnsError, Lookup, LookupStep, RecordType,
};
use warp_socks::http::{eq_ignore_case, find_header, RequestHead};
use warp_socks::http_proxy::{
    forwarded_request, parse_target, read_request as read_http, request_from, split_host_port,
    HeadStep, Target, TargetError,
};
use warp_socks::outbound::{describe, same_host, Host};
use warp_socks::socks4;
use warp_socks::socks5::{
    decode_udp_header, encode_udp_header, read_greeting, read_request, reply, reply_with_addr,
    Greeting, Request, Socks5Error, UdpAssociation, UdpStep, MAX_TARGETS,
};
use warp_socks::table::TextTable;
use warp_socks::text;
use warp_socks::wire;

fn chars(s: &str) -> Vec<char> {
    s.chars().collect()
}

fn addr(s: &str) -> SocketAddr {
    parse_socket_addr(&chars(s)).unwrap()
}

fn domain(s: &str) -> Host {
    Host::Domain(s.to_string())
}

#[test]
fn addresses_are_read_and_written() {
    for s in [
        "127.0.0.1:1080",
        "255.255.255.255:65535",
        "[::]:0",
        "[::1]:1",
        "[2001:db8::10]:1080",
        "[1:2:3:4:5:6:7:8]:9",
        "[1:0:0:2::]:9",
        "[::ffff:1.2.3.4]:9",
        "[fe80::1%3]:9",
    ] {
        assert_eq!(addr(s).to_text(), s);
    }
    for s in [
        "", "1.2.3.4", "1.2.3:80", "1.2.3.256:80", "01.2.3.4:80", "1.2.3.4:65536", "::1:80",
        "[::1]", "[::1]:", "[1::2::3]:1", "[12345::]:1", "[1:2:3:4:5:6:7:8:9]:1", "[g::]:1",
    ] {
        assert!(parse_socket_addr(&chars(s)).is_none());
    }
    assert_eq!(parse_ip(&chars("1.2.3.4")), Some(IpAddr::V4([1, 2, 3, 4])));
    assert_eq!(parse_ip(&chars("x")), None);
    assert!(same_ip(&addr("1.2.3.4:1").ip, &addr("1.2.3.4:2").ip));
    assert!(!same_addr(&addr("1.2.3.4:1"), &addr("1.2.3.4:2")));
    assert_eq!(ipv4_from(&[9, 1, 2, 3, 4], 1), IpAddr::V4([1, 2, 3, 4]));
    assert_eq!(ipv6_from(&[7; 17], 1), IpAddr::V6([7; 16]));
}

#[test]
fn greetings() {
    assert_eq!(read_greeting(&[]), Greeting::NeedMore(2));
    assert_eq!(read_greeting(&[5, 2, 2]), Greeting::NeedMore(1));
    assert_eq!(read_greeting(&[5, 2, 2, 0]), Greeting::Accept(vec![5, 0]));
    assert_eq!(read_greeting(&[4, 1]), Greeting::Refuse(None, Socks5Error::Version(4)));
    assert_eq!(
        read_greeting(&[5, 1, 2]),
        Greeting::Refuse(Some(vec![5, 0xff]), Socks5Error::NoMethod)
    );
}

#[test]
fn requests() {
    let ip = Host::Ip(IpAddr::V4([1, 2, 3, 4]));
    assert_eq!(read_request(&[5, 1, 0, 1, 1, 2, 3, 4, 0, 80], true), Request::Connect(ip, 80));
    assert_eq!(read_request(&[5, 1, 0, 1, 1, 2, 3, 4, 0], true), Request::NeedMore(1));
    assert_eq!(read_request(&[5, 1], true), Request::NeedMore(2));
    let mut named = vec![5, 1, 0, 3, 1, b'h', 1, 0xbb];
    assert_eq!(read_request(&named, true), Request::Connect(domain("h"), 443));
    named[5] = 0xff;
    assert_eq!(
        read_request(&named, true),
        Request::Refuse(Some(reply(4)), Socks5Error::DomainEncoding)
    );
    // A literal address in a domain field is an address.
    let mut literal = vec![5, 1, 0, 3, 7];
    literal.extend_from_slice(b"1.2.3.4");
    literal.extend_from_slice(&[0, 80]);
    assert_eq!(
        read_request(&literal, true),
        Request::Connect(Host::Ip(IpAddr::V4([1, 2, 3, 4])), 80)
    );
    let mut v6 = vec![5, 1, 0, 4];
    v6.extend_from_slice(&[0; 15]);
    v6.extend_from_slice(&[1, 0, 80]);
    let mut one = [0; 16];
    one[15] = 1;
    assert_eq!(read_request(&v6, true), Request::Connect(Host::Ip(IpAddr::V6(one)), 80));
    assert_eq!(
        read_request(&[4, 1, 0, 1], true),
        Request::Refuse(None, Socks5Error::Version(4))
    );
    assert_eq!(
        read_request(&[5, 2, 0, 1], true),
        Request::Refuse(Some(reply(7)), Socks5Error::Command(2))
    );
    assert_eq!(
        read_request(&[5, 1, 0, 9], true),
        Request::Refuse(Some(reply(8)), Socks5Error::AddressType(9))
    );
    let udp = [5, 3, 0, 1, 0, 0, 0, 0, 0, 0];
    assert_eq!(read_request(&udp, true), Request::Associate);
    assert_eq!(
        read_request(&udp, false),
        Request::Refuse(Some(reply(7)), Socks5Error::UdpUnsupported)
    );
    assert_eq!(reply(0), vec![5, 0, 0, 1, 0, 0, 0, 0, 0, 0]);
    assert_eq!(reply_with_addr(0, &addr("1.2.3.4:258")), vec![5, 0, 0, 1, 1, 2, 3, 4, 1, 2]);
}

#[test]
fn datagram_headers_are_read_back() {
    for s in ["1.2.3.4:80", "[2001:db8::1]:65535"] {
        let a = addr(s);
        let mut buf = encode_udp_header(&a);
        let len = buf.len();
        buf.extend_from_slice(b"payload");
        assert_eq!(decode_udp_header(&buf), Some((Host::Ip(a.ip), a.port, len)));
    }
    assert_eq!(decode_udp_header(&[0, 0, 1, 1, 1, 2, 3, 4, 0, 80]), None);
    assert_eq!(decode_udp_header(&[0, 0, 0]), None);
    assert_eq!(
        decode_udp_header(&[0, 0, 0, 3, 1, b'h', 0, 80, 9]),
        Some((domain("h"), 80, 8))
    );
}

fn datagram(target: &str, payload: u8) -> Vec<u8> {
    let mut buf = encode_udp_header(&addr(target));
    buf.push(payload);
    buf
}

#[test]
fn associations_keep_one_channel_for_each_target() {
    let mut a = UdpAssociation::new();
    let client = addr("127.0.0.1:5000");
    let other = addr("127.0.0.1:5001");
    let target = Host::Ip(IpAddr::V4([1, 2, 3, 4]));
    assert_eq!(
        a.on_datagram(&client, &datagram("1.2.3.4:53", 1)),
        UdpStep::Open(0, target, 53, vec![1])
    );
    assert_eq!(a.on_datagram(&client, &datagram("1.2.3.4:53", 2)), UdpStep::Forward(0, vec![2]));
    assert_eq!(a.on_datagram(&other, &datagram("1.2.3.4:53", 3)), UdpStep::Ignore);
    assert_eq!(a.on_datagram(&client, &[0, 0, 0]), UdpStep::Ignore);
    assert!(matches!(a.on_datagram(&client, &datagram("1.2.3.4:54", 4)), UdpStep::Open(1, _, 54, _)));
    a.on_closed(0);
    assert!(matches!(a.on_datagram(&client, &datagram("9.9.9.9:9", 5)), UdpStep::Open(0, _, 9, _)));
    let (to, packet) = a.to_client(&addr("1.2.3.4:54"), b"x").unwrap();
    assert_eq!(to, client);
    assert_eq!(packet, [encode_udp_header(&addr("1.2.3.4:54")), b"x".to_vec()].concat());
    assert!(UdpAssociation::new().to_client(&other, b"x").is_none());
}

#[test]
fn associations_are_bounded() {
    let mut a = UdpAssociation::new();
    let client = addr("127.0.0.1:5000");
    for port in 0..MAX_TARGETS {
        let step = a.on_datagram(&client, &datagram(&format!("1.2.3.4:{}", port + 1), 0));
        assert!(matches!(step, UdpStep::Open(_, _, _, _)));
    }
    assert_eq!(a.on_datagram(&client, &datagram("1.2.3.4:999", 0)), UdpStep::Ignore);
    a.on_closed(7);
    assert!(matches!(a.on_datagram(&client, &datagram("1.2.3.4:999", 0)), UdpStep::Open(7, _, _, _)));
}

#[test]
fn socks4_requests() {
    let connect = [4, 1, 0, 80, 1, 2, 3, 4, b'u', 0];
    assert_eq!(
        socks4::read_request(&connect),
        socks4::Request::Connect(Host::Ip(IpAddr::V4([1, 2, 3, 4])), 80)
    );
    assert_eq!(socks4::read_request(&connect[..9]), socks4::Request::NeedMore(1));
    assert_eq!(socks4::read_request(&[4]), socks4::Request::NeedMore(1));
    let named = [4, 1, 1, 0xbb, 0, 0, 0, 1, 0, b'h', 0];
    assert_eq!(socks4::read_request(&named), socks4::Request::Connect(domain("h"), 443));
    assert_eq!(socks4::read_request(&named[..10]), socks4::Request::NeedMore(1));
    assert_eq!(
        socks4::read_request(&[4, 2]),
        socks4::Request::Refuse(vec![0, 0x5b, 0, 0, 0, 0, 0, 0], 2)
    );
    assert_eq!(socks4::reply(0x5a), vec![0, 0x5a, 0, 0, 0, 0, 0, 0]);
}

#[test]
fn http_requests() {
    let raw = b"GET http://h/p HTTP/1.0\r\nHOST: h\r\nA: b\r\n\r\nbody".to_vec();
    let request = match read_http(raw.clone()) {
        HeadStep::Complete(p) => p,
        _ => panic!("a whole head"),
    };
    assert_eq!((request.method.as_str(), request.path.as_str()), ("GET", "http://h/p"));
    assert!(request.version_1_0);
    assert_eq!(request.host_header.as_deref(), Some("h"));
    assert_eq!(request.head_len, raw.len() - 4);
    assert_eq!(
        forwarded_request(&request, "/p").unwrap(),
        b"GET /p HTTP/1.0\r\nHOST: h\r\nA: b\r\n\r\nbody".to_vec()
    );
    assert_eq!(read_http(b"GET / HT".to_vec()), HeadStep::NeedMore);
    assert_eq!(read_http(b"\x00\r\n\r\n".to_vec()), HeadStep::Malformed);
    assert_eq!(read_http(vec![b'a'; 16385]), HeadStep::TooLarge);
    let head = RequestHead {
        method: None,
        path: Some("/".to_string()),
        version: Some(1),
        headers: vec![],
        size: 1,
    };
    let p = request_from(head, vec![0]);
    assert_eq!((p.method.as_str(), p.version_1_0, p.host_header), ("", false, None));
}

fn target(host: &str, port: u16, path: &str) -> Result<Target, TargetError> {
    Ok(Target { host: host.to_string(), port, origin_form_path: path.to_string() })
}

#[test]
fn http_targets() {
    assert_eq!(parse_target("connect", "h:443", None), target("h", 443, ""));
    assert_eq!(parse_target("CONNECT", "[::1]:443", None), target("::1", 443, ""));
    assert_eq!(
        parse_target("CONNECT", "h", None),
        Err(TargetError::ConnectTarget("h".to_string()))
    );
    assert_eq!(parse_target("GET", "http://h:8080/a/b", None), target("h", 8080, "/a/b"));
    assert_eq!(parse_target("GET", "https://h", None), target("h", 443, "/"));
    assert_eq!(parse_target("GET", "/a", Some("h:81")), target("h", 81, "/a"));
    assert_eq!(parse_target("GET", "/a", Some("h")), target("h", 80, "/a"));
    assert_eq!(parse_target("GET", "/a", None), Err(TargetError::MissingHost));
    assert_eq!(target("1.2.3.4", 1, "").unwrap().to_host(), Host::Ip(IpAddr::V4([1, 2, 3, 4])));
    assert_eq!(split_host_port("h:80"), Some(("h".to_string(), 80)));
    assert_eq!(split_host_port("h:x"), None);
    assert!(eq_ignore_case("Host", "hOST") && !eq_ignore_case("a", "ab"));
    let headers = vec![("A".to_string(), vec![1]), ("a".to_string(), vec![2])];
    assert_eq!(find_header(&headers, "a"), Some(&vec![1]));
    assert_eq!(find_header(&headers, "b"), None);
}

#[test]
fn hosts() {
    assert_eq!(Host::parse("h"), domain("h"));
    assert_eq!(Host::parse("::1").copy(), Host::parse("0::1"));
    assert!(same_host(&domain("h"), &domain("h")) && !same_host(&domain("h"), &domain("i")));
    assert_eq!(describe(&domain("h"), 80), "h:80");
    assert_eq!(describe(&Host::parse("::1"), 80), "::1:80");
}

fn response(id: u16, records: &[(u16, u32, &[u8])]) -> Vec<u8> {
    let mut msg = encode_dns_query(id, "h.", RecordType::A.qtype());
    msg[7] = records.len() as u8;
    for (rtype, ttl, data) in records {
        msg.extend_from_slice(&[0xc0, 0x0c]);
        msg.extend_from_slice(&rtype.to_be_bytes());
        msg.extend_from_slice(&[0, 1]);
        msg.extend_from_slice(&ttl.to_be_bytes());
        msg.extend_from_slice(&(data.len() as u16).to_be_bytes());
        msg.extend_from_slice(data);
    }
    msg
}

#[test]
fn dns_messages() {
    assert_eq!(
        encode_dns_query(0x1234, "h.x", 28),
        vec![0x12, 0x34, 1, 0, 0, 1, 0, 0, 0, 0, 0, 0, 1, b'h', 1, b'x', 0, 0, 28, 0, 1]
    );
    let msg = response(7, &[(5, 1, b"\x00"), (1, 60, &[1, 2, 3, 4]), (28, 90, &[7; 16])]);
    let (ips, ttl) = parse_dns_response(&msg, 7).unwrap();
    assert_eq!(ips, vec![IpAddr::V4([1, 2, 3, 4]), IpAddr::V6([7; 16])]);
    assert_eq!(ttl, 60);
    assert_eq!(parse_dns_response(&msg, 8), Err(DnsError::WrongId(8, 7)));
    assert_eq!(parse_dns_response(&[0; 3], 0), Err(DnsError::Short(3)));
    assert!(parse_dns_response(&msg[..msg.len() - 1], 7).is_err());
    assert_eq!(skip_name(&[1, b'h', 0], 0), Ok(3));
    assert_eq!(skip_name(&[0xc0, 0x0c], 0), Ok(2));
    assert_eq!(skip_name(&[9, b'h'], 0), Err(DnsError::NameOutside));
    assert_eq!(skip_name(&[0xc0], 0), Err(DnsError::PointerOutside));
    let record = read_record(&[0, 0, 1, 0, 1, 0, 0, 0, 9, 0, 4, 1, 2, 3, 4], 0).unwrap();
    assert_eq!((record.addr, record.ttl, record.end), (Some(IpAddr::V4([1, 2, 3, 4])), 9, 15));
    assert_eq!(read_record(&[0, 0, 1], 0).err(), Some(DnsError::AnswerHeader));
    assert_eq!(
        read_record(&[0, 0, 1, 0, 1, 0, 0, 0, 9, 0, 4, 1], 0).err(),
        Some(DnsError::AnswerData)
    );
}

#[test]
fn dns_answers_are_kept() {
    let ip = vec![IpAddr::V4([1, 2, 3, 4])];
    let mut cache = DnsCache::new();
    cache.put("Host", RecordType::A, ip.clone(), 60, 1000);
    assert_eq!(cache.get("hOST", RecordType::A, 60_999), Some(ip.clone()));
    assert_eq!(cache.get("host", RecordType::Aaaa, 1000), None);
    assert_eq!(cache.get("host", RecordType::A, 61_000), None);
    assert_eq!((kept_for(1), kept_for(60), kept_for(9999)), (5000, 60_000, 300_000));
    assert_eq!(to_lower("AbZ"), "abz");
    // A full cache drops what counts no longer.
    for i in 0..501 {
        cache.put(&format!("n{i}"), RecordType::A, ip.clone(), 60, 0);
    }
    cache.put("late", RecordType::A, ip.clone(), 60, 100_000);
    assert_eq!(cache.get("n0", RecordType::A, 0), None);
    assert_eq!(cache.get("late", RecordType::A, 100_000), Some(ip));
}

#[test]
fn dns_lookups() {
    let l = Lookup::with_id(7, "h", RecordType::A, 5000);
    assert_eq!(l.query, encode_dns_query(7, "h", 1));
    assert_eq!(l.wait_at(0), LookupStep::Wait(1200));
    assert_eq!(l.wait_at(4900), LookupStep::Wait(100));
    assert_eq!(l.wait_at(5000), LookupStep::TimedOut);
    assert_eq!(l.on_silence(1200), LookupStep::Resend);
    assert_eq!(l.on_silence(5000), LookupStep::TimedOut);
    let good = response(7, &[(1, 60, &[1, 2, 3, 4])]);
    assert_eq!(l.on_datagram(true, &good), Some((vec![IpAddr::V4([1, 2, 3, 4])], 60)));
    assert_eq!(l.on_datagram(false, &good), None);
    assert_eq!(l.on_datagram(true, &response(8, &[(1, 60, &[1, 2, 3, 4])])), None);
    assert_eq!(l.on_datagram(true, &response(7, &[])), None);
    let random = Lookup::start("h", RecordType::Aaaa, 1);
    assert_eq!(random.query, encode_dns_query(random.id, "h", 28));
}

#[test]
fn base64_texts() {
    assert_eq!(b64::decode("AQID"), Some(vec![1, 2, 3]));
    assert_eq!(b64::decode(""), Some(vec![]));
    assert_eq!(b64::decode("AQI"), None);
    assert_eq!(b64::decode("A QID"), None);
}

#[test]
fn tables_of_texts() {
    let mut t: TextTable<u8> = TextTable::new();
    t.insert("a", 1);
    t.insert("b", 2);
    t.insert("a", 3);
    assert_eq!(t.len(), 2);
    assert_eq!(t.get("a"), Some(&3));
    assert_eq!(t.at(0), (&"b".to_string(), &2));
    t.remove("b");
    t.remove("c");
    assert_eq!(t.get("b"), None);
    t.remove_at(0);
    assert_eq!(t.len(), 0);
}

fn strings(v: Vec<Vec<char>>) -> Vec<String> {
    v.iter().map(|c| text::string_of(c)).collect()
}

#[test]
fn texts_are_taken_apart() {
    assert_eq!(strings(text::split(&chars("a,,b"), ',')), vec!["a", "", "b"]);
    assert_eq!(strings(text::lines(&chars("a\r\n\nb\r"))), vec!["a", "", "b\r"]);
    assert_eq!(strings(text::split_whitespace(&chars(" a \u{3000}b\t"))), vec!["a", "b"]);
    assert_eq!(text::trim(&chars("\u{a0} x\n")), chars("x"));
    assert_eq!(text::find_char(&chars("abca"), 1, 'a'), 3);
    assert_eq!(text::find_last_char(&chars("abca"), 'a'), Some(3));
    assert_eq!(text::find_last(&chars("xyxy"), "xy"), Some(2));
    assert_eq!(text::find_last(&chars("xyxy"), "z"), None);
    assert_eq!(text::parse_up_to(&chars("+007"), 10), Some(7));
    assert_eq!(text::parse_up_to(&chars("11"), 10), None);
    assert_eq!(text::parse_up_to(&chars("+"), 10), None);
    assert_eq!(text::summarize(" a \n b ", 2), "a ");
    let mut out = Vec::new();
    text::push_decimal(&mut out, 120);
    assert_eq!(out, chars("120"));
}

#[test]
fn numbers_on_the_wire() {
    let mut out = Vec::new();
    wire::push_u16(&mut out, 0x0102);
    wire::push_u32(&mut out, 0x0304_0506);
    wire::push_u64(&mut out, 7);
    assert_eq!(out, vec![1, 2, 3, 4, 5, 6, 0, 0, 0, 0, 0, 0, 0, 7]);
    assert_eq!(wire::read_u16(&out, 0), 0x0102);
    assert_eq!(wire::read_u32(&out, 2), 0x0304_0506);
    assert_eq!(wire::find_byte(&out, 3, 5), 4);
    assert_eq!(wire::find_bytes(&out, &[4, 5]), Some(3));
    assert_eq!(wire::find_bytes(&out, &[9]), None);
    assert_eq!(wire::bytes_of(&out, 1, 3), vec![2, 3]);
    assert!(wire::same_bytes(&[1], &[1]) && !wire::same_bytes(&[1], &[2]));
}
