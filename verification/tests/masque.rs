use warp_socks::addr::IpAddr;
use warp_socks::dns::{DnsError, RecordType};
use warp_socks::http::ResponseHead;
use warp_socks::outbound::masque::doh::{
    attempt, build_http_request, build_query, parse_answer, read_body, read_http_response,
    DohCache, DohError, DohRead,
};
use warp_socks::outbound::masque::huffman;
use warp_socks::outbound::masque::qpack::{
    control_stream_prelude, data_frame, decode_headers, decode_integer, encode_connect_request,
    encode_integer, headers_frame, read_frame, read_varint, varint_len, write_varint,
};
use warp_socks::outbound::masque::tls::{check_certificate, check_key, EdgeError};
use warp_socks::outbound::masque::{
    after_open, after_wait, authority, colo_note, connect_request, edge_addrs, first_step,
    read_reply, read_response, take_tunnelled, ConnectError, ConnectRead, OpenStep,
    CONNECT_STREAM_TIMEOUT,
};
use warp_socks::registration::masque::Registration;

fn hex(s: &str) -> Vec<u8> {
    let s: String = s.chars().filter(|c| !c.is_whitespace()).collect();
    s.as_bytes()
        .chunks(2)
        .map(|c| u8::from_str_radix(std::str::from_utf8(c).unwrap(), 16).unwrap())
        .collect()
}

fn registration(v4: &str, v6: &str, ports: Vec<u16>) -> Registration {
    Registration {
        id: "id".to_string(),
        token: "t".to_string(),
        account: String::new(),
        key_type: String::new(),
        tunnel_type: String::new(),
        private_key: String::new(),
        endpoint_v4: v4.to_string(),
        endpoint_v6: v6.to_string(),
        endpoint_ports: ports,
        peer_public_key: String::new(),
        assigned_ipv4: String::new(),
        assigned_ipv6: String::new(),
    }
}

#[test]
fn build_query_encodes_labels_and_qtype() {
    let msg = build_query("cloudflare.com", 1).unwrap();
    assert_eq!(&msg[..6], &[0x00, 0x00, 0x01, 0x00, 0x00, 0x01]);
    // label "cloudflare"(10) + "com"(3) + root(0)
    assert_eq!(msg[12], 10);
    assert_eq!(&msg[13..23], b"cloudflare");
    assert_eq!(msg[23], 3);
    assert_eq!(&msg[24..27], b"com");
    assert_eq!(msg[27], 0);
    assert_eq!(&msg[28..30], &[0x00, 0x01]); // QTYPE=A
    assert_eq!(&msg[30..32], &[0x00, 0x01]); // QCLASS=IN
}

#[test]
fn parse_answer_extracts_first_a_record() {
    let mut msg = build_query("example.com", 1).unwrap();
    msg[6] = 0x00;
    msg[7] = 0x01; // ANCOUNT = 1
    msg.extend_from_slice(&[0xc0, 0x0c]);
    msg.extend_from_slice(&[0x00, 0x01]); // TYPE A
    msg.extend_from_slice(&[0x00, 0x01]); // CLASS IN
    msg.extend_from_slice(&300u32.to_be_bytes()); // TTL
    msg.extend_from_slice(&[0x00, 0x04]); // RDLENGTH
    msg.extend_from_slice(&[93, 184, 216, 34]); // RDATA

    let (ip, ttl) = parse_answer(&msg).unwrap();
    assert_eq!(ip, IpAddr::V4([93, 184, 216, 34]));
    assert_eq!(ttl, 300);
}

#[test]
fn http_request_has_matching_content_length() {
    let body = vec![1u8, 2, 3];
    let req = build_http_request(&body);
    let text = String::from_utf8(req.clone()).unwrap();
    assert!(text.starts_with("POST /dns-query HTTP/1.1\r\n"));
    assert!(text.contains("content-length: 3\r\n"));
    assert!(req.ends_with(&body));
}

#[test]
fn encode_method_connect_is_indexed_static_15() {
    let req = encode_connect_request("example.com:443", "tkn");
    assert_eq!(&req[..3], &[0x00, 0x00, 0xCF]);
}

#[test]
fn encode_authority_matches_rfc_b1_pattern() {
    let req = encode_connect_request("example.com:443", "x");
    let auth_value = b"example.com:443";
    let mut expect = vec![0x00, 0x00, 0xCF];
    expect.push(0x50);
    expect.push(auth_value.len() as u8);
    expect.extend_from_slice(auth_value);
    assert_eq!(&req[..expect.len()], &expect[..]);
}

#[test]
fn encode_authorization_uses_static_84_never_indexed() {
    let req = encode_connect_request("h:1", "abc");
    let auth_idx =
        req.windows(2).position(|w| w == [0x7F, 0x45]).expect("应有 authorization 编码");
    assert_eq!(req[auth_idx + 2], 3); // len=3
    assert_eq!(&req[auth_idx + 3..auth_idx + 6], b"abc");
}

#[test]
fn headers_frame_wraps_with_type_1() {
    let payload = [0x00, 0x00, 0xCF];
    let f = headers_frame(&payload);
    assert_eq!(f[0], 0x01); // HEADERS type
    assert_eq!(f[1], 3); // length varint
    assert_eq!(&f[2..], &payload);
}

#[test]
fn data_frame_wraps_with_type_0() {
    let payload = [1u8, 2, 3];
    let f = data_frame(&payload);
    assert_eq!(f[0], 0x00); // DATA type
    assert_eq!(f[1], 3); // length varint
    assert_eq!(&f[2..], &payload);
}

#[test]
fn control_stream_prelude_is_settings() {
    let p = control_stream_prelude();
    assert_eq!(p[0], 0x00); // control stream type
    assert_eq!(p[1], 0x04); // SETTINGS frame type
    assert_eq!(p[2], 0x00); // length 0
}

#[test]
fn decode_status_200_indexed() {
    let resp = [0x00, 0x00, 0xD9];
    assert_eq!(decode_headers(&resp).unwrap().status, 200);
}

#[test]
fn decode_status_404_indexed() {
    let resp = [0x00, 0x00, 0xDB]; // #27 = 404
    assert_eq!(decode_headers(&resp).unwrap().status, 404);
}

#[test]
fn decode_headers_extracts_colo_from_real_response() {
    let resp = hex(
        "0000d92f0324ab781d95ad49523a3f8508a57db6bf2f0224ab781d95ac43d07f\
         83cf0fe72d24ab24a3a796640db6196429630000d32db446a42942d0000000000f",
    );
    let headers = decode_headers(&resp).unwrap();
    assert_eq!(headers.status, 200);
    assert_eq!(headers.colo.as_deref(), Some("LAX"));
}

#[test]
fn varint_roundtrip() {
    let mut buf = Vec::new();
    write_varint(&mut buf, 25);
    assert_eq!(read_varint(&buf), Some((25, 1)));

    let mut buf = Vec::new();
    write_varint(&mut buf, 15293);
    assert_eq!(read_varint(&buf), Some((15293, 2)));
}

#[test]
fn varints_of_every_length() {
    for (n, len) in [
        (0u64, 1usize),
        (63, 1),
        (64, 2),
        (16383, 2),
        (16384, 4),
        ((1 << 30) - 1, 4),
        (1 << 30, 8),
        ((1 << 62) - 1, 8),
    ] {
        let mut buf = Vec::new();
        write_varint(&mut buf, n);
        assert_eq!(buf.len(), len);
        assert_eq!(varint_len(buf[0]), len);
        assert_eq!(read_varint(&buf), Some((n, len)));
        assert_eq!(read_varint(&buf[..len - 1]), None);
    }
    let mut buf = Vec::new();
    write_varint(&mut buf, 494_878_333);
    assert_eq!(buf, vec![0x9d, 0x7f, 0x3e, 0x7d]);
}

#[test]
fn prefix_integers() {
    let mut out = Vec::new();
    encode_integer(&mut out, 1337, 5, 0);
    assert_eq!(out, vec![0x1f, 0x9a, 0x0a]);
    assert_eq!(decode_integer(&out, 0, 5), Ok((1337, 3)));
    let mut out = Vec::new();
    encode_integer(&mut out, 10, 5, 0x40);
    assert_eq!(out, vec![0x4a]);
    assert_eq!(decode_integer(&out, 0, 5), Ok((10, 1)));
    assert!(decode_integer(&[0x1f], 0, 5).is_err());
    assert!(decode_integer(&[], 0, 5).is_err());
}

#[test]
fn frames_are_read_back() {
    let mut buf = data_frame(b"abc");
    buf.extend_from_slice(&headers_frame(b"x"));
    let f = read_frame(&buf).unwrap();
    assert_eq!((f.kind, f.payload.as_slice(), f.size), (0, b"abc".as_slice(), 5));
    let f = read_frame(&buf[5..]).unwrap();
    assert_eq!((f.kind, f.payload.as_slice(), f.size), (1, b"x".as_slice(), 3));
    assert!(read_frame(&buf[..4]).is_none());
    assert!(read_frame(&[]).is_none());
}

#[test]
fn huffman_texts() {
    // The examples of RFC 7541, appendix C.4.
    assert_eq!(huffman::decode(&hex("f1e3c2e5f23a6ba0ab90f4ff")).unwrap(), b"www.example.com");
    assert_eq!(huffman::decode(&hex("a8eb10649cbf")).unwrap(), b"no-cache");
    assert_eq!(huffman::decode(&hex("25a849e95ba97d7f")).unwrap(), b"custom-key");
    assert_eq!(huffman::decode(&hex("25a849e95bb8e8b4bf")).unwrap(), b"custom-value");
    assert_eq!(huffman::decode(&[]).unwrap(), b"");
    // Padding of a whole byte, padding that is not all ones, and the end code.
    assert!(huffman::decode(&[0xff]).is_err());
    assert!(huffman::decode(&[0x00]).is_err());
    assert!(huffman::decode(&hex("ffffffff")).is_err());
}

#[test]
fn responses_of_the_edge() {
    let ok = headers_frame(&[0x00, 0x00, 0xD9]);
    assert_eq!(read_response(&ok), ConnectRead::Open(None, ok.len()));
    assert_eq!(read_response(&ok[..2]), ConnectRead::NeedMore);
    let mut skipped = vec![0x21, 0x01, 0xff];
    skipped.extend_from_slice(&ok);
    assert_eq!(read_response(&skipped), ConnectRead::Open(None, skipped.len()));
    let refused = headers_frame(&[0x00, 0x00, 0xDB]);
    assert_eq!(read_response(&refused), ConnectRead::Failed(ConnectError::Refused(404)));
    let mut noise = Vec::new();
    for _ in 0..8 {
        noise.extend_from_slice(&[0x21, 0x00]);
    }
    assert_eq!(read_response(&noise), ConnectRead::Failed(ConnectError::NoResponse));
    assert!(matches!(read_reply(&[0x00, 0x00]), Err(ConnectError::BadResponse(_))));
    assert!(matches!(read_reply(&[]), Err(ConnectError::BadResponse(_))));
}

#[test]
fn requests_and_notes() {
    let request = connect_request("h:1", "abc");
    assert_eq!(request, headers_frame(&encode_connect_request("h:1", "abc")));
    assert_eq!(authority(IpAddr::V4([1, 2, 3, 4]), 443), "1.2.3.4:443");
    assert_eq!(authority(IpAddr::V6([0; 16]), 443), "[::]:443");
    assert_eq!(colo_note("LAX"), "colo=LAX");
    assert_eq!(CONNECT_STREAM_TIMEOUT, 53);
}

#[test]
fn tunnelled_bytes_are_taken_from_whole_frames() {
    let mut buf = data_frame(b"ab");
    buf.extend_from_slice(&[0x21, 0x01, 0xff]);
    buf.extend_from_slice(&data_frame(b"cd"));
    let whole = buf.len();
    buf.extend_from_slice(&[0x00, 0x05, 1]);
    assert_eq!(take_tunnelled(&buf), (b"abcd".to_vec(), whole));
    assert_eq!(take_tunnelled(&[]), (vec![], 0));
}

#[test]
fn edge_addresses_in_order() {
    let texts = |r: &Registration| -> Vec<String> {
        edge_addrs(r).iter().map(|a| a.to_text()).collect()
    };
    assert_eq!(
        texts(&registration("1.2.3.4", "::1", vec![443, 500, 1701])),
        vec![
            "1.2.3.4:500",
            "1.2.3.4:1701",
            "1.2.3.4:443",
            "[::1]:500",
            "[::1]:1701",
            "[::1]:443"
        ]
    );
    assert_eq!(texts(&registration("1.2.3.4", "", vec![])), vec!["1.2.3.4:443"]);
    assert_eq!(texts(&registration("1.2.3.4", "x", vec![500])), vec!["1.2.3.4:500"]);
    assert!(texts(&registration("", "", vec![443])).is_empty());
}

#[test]
fn streams_are_opened_with_one_reconnection() {
    assert_eq!(first_step(false), OpenStep::Open);
    assert_eq!(first_step(true), OpenStep::Reconnect);
    assert_eq!(after_open(true, false), OpenStep::Done);
    assert_eq!(after_open(false, false), OpenStep::Reconnect);
    assert_eq!(after_open(false, true), OpenStep::Fail);
    assert_eq!(after_open(true, true), OpenStep::Done);
    assert_eq!(after_wait(1, 1), OpenStep::Dial);
    assert_eq!(after_wait(1, 2), OpenStep::Open);
}

#[test]
fn queries_with_bad_labels() {
    assert_eq!(build_query("a..b", 1), Err(DohError::Label(String::new())));
    assert_eq!(build_query("", 1), Err(DohError::Label(String::new())));
    let query = build_query("example.com..", 28).unwrap();
    assert_eq!(query.len(), "example.com".len() + 18);
    assert_eq!(build_query("example.com", 28), Ok(query));
    let long = "x".repeat(64);
    assert_eq!(build_query(&long, 1), Err(DohError::Label(long.clone())));
    assert!(build_query(&"x".repeat(63), 1).is_ok());
}

#[test]
fn answers_that_cannot_be_read() {
    assert_eq!(parse_answer(&[0; 5]), Err(DohError::Message(DnsError::Short(5))));
    assert_eq!(parse_answer(&[0; 12]), Err(DohError::NoAddress));
    let mut msg = vec![0; 12];
    msg[7] = 1;
    assert!(matches!(parse_answer(&msg), Err(DohError::Message(_))));
}

#[test]
fn http_responses() {
    let ok = b"HTTP/1.1 200 OK\r\nContent-Length: 3\r\n\r\nabcd";
    assert_eq!(read_http_response(ok), DohRead::Body(b"abc".to_vec()));
    assert_eq!(read_http_response(&ok[..ok.len() - 2]), DohRead::NeedBody);
    assert_eq!(read_http_response(&ok[..20]), DohRead::NeedHead);
    assert_eq!(
        read_http_response(b"HTTP/1.1 500 No\r\n\r\n"),
        DohRead::Failed(DohError::Status(500))
    );
    assert_eq!(
        read_http_response(b"HTTP/1.1 200 OK\r\n\r\n"),
        DohRead::Failed(DohError::NoLength)
    );
    assert_eq!(read_http_response(b"garbage\r\n\r\n"), DohRead::Failed(DohError::BadHead));
    assert_eq!(
        read_http_response(&vec![b'x'; 8193]),
        DohRead::Failed(DohError::HeadTooLarge)
    );
    let head = ResponseHead {
        code: Some(200),
        headers: vec![("content-length".to_string(), b" 2 ".to_vec())],
    };
    assert_eq!(read_body(b"abc", Some(head)), DohRead::Body(b"ab".to_vec()));
    assert_eq!(read_body(b"abc", None), DohRead::Failed(DohError::BadHead));
}

#[test]
fn resolved_names_are_kept_within_bounds() {
    let ip = IpAddr::V4([1, 2, 3, 4]);
    let mut cache = DohCache::new();
    assert_eq!(cache.cached("h", 0), None);
    cache.store("h", ip, 1, 1000);
    assert_eq!(cache.cached("h", 5999), Some(ip));
    assert_eq!(cache.cached("h", 6000), None);
    cache.store("h", ip, 100_000, 0);
    assert_eq!(cache.cached("h", 299_999), Some(ip));
    assert_eq!(cache.cached("h", 300_000), None);
}

#[test]
fn resolvers_are_tried_in_order() {
    assert_eq!(attempt(0), Some((RecordType::A, "162.159.36.1:443")));
    assert_eq!(attempt(1), Some((RecordType::A, "162.159.46.1:443")));
    assert_eq!(attempt(2), Some((RecordType::Aaaa, "162.159.36.1:443")));
    assert_eq!(attempt(3), Some((RecordType::Aaaa, "162.159.46.1:443")));
    assert_eq!(attempt(4), None);
}

#[test]
fn keys_of_the_edge() {
    assert_eq!(check_key(None, b"k"), Err(EdgeError::BadCertificate));
    assert_eq!(check_key(Some(b"x".to_vec()), b"k"), Err(EdgeError::WrongKey));
    assert_eq!(check_key(Some(b"k".to_vec()), b"k"), Ok(()));
    assert_eq!(check_certificate(b"no certificate", b"k"), Err(EdgeError::BadCertificate));
}
