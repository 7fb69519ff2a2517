//! Reading `wg0.conf`.
//!
//! Settings that the tunnel fixes by itself (DNS, MTU, keepalive) are neither
//! written nor read.

use crate::addr;
use crate::addr::{IpAddr, SocketAddr};
use crate::b64;
use crate::text;
use vstd::prelude::*;

verus! {

/// A tunnel as its configuration file describes it.
#[derive(Clone, Debug, PartialEq, Eq)]
pub struct WgConfig {
    pub private_key: [u8; 32],
    pub peer_public_key: [u8; 32],
    pub endpoint: SocketAddr,
    pub reserved: [u8; 3],
    pub address_v4: [u8; 4],
    pub address_v6: [u8; 16],
}

/// Why a configuration was refused.
#[derive(Clone, Debug, PartialEq, Eq)]
pub enum WgConfError {
    KeyEncoding(String),
    KeyLength(usize),
    EndpointUnresolved(String),
    EndpointWithoutAddress(String),
    ReservedShape(String),
    ReservedNumber(String),
    Address(String),
    MissingPrivateKey,
    MissingPublicKey,
    MissingEndpoint,
    MissingIpv4Address,
    MissingIpv6Address,
}

impl WgConfError {
    /// The message for the user.
    pub open spec fn text(self) -> Seq<char> {
        match self {
            WgConfError::KeyEncoding(s) => "base64 解码失败: "@ + s@,
            WgConfError::KeyLength(n) => "key 长度应为32字节，实际 "@ + text::decimal(n as nat),
            WgConfError::EndpointUnresolved(s) => "Endpoint 解析失败: "@ + s@,
            WgConfError::EndpointWithoutAddress(s) => "Endpoint 无法解析为地址: "@ + s@,
            WgConfError::ReservedShape(s) => "Reserved 字段格式错误: "@ + s@,
            WgConfError::ReservedNumber(s) => "Reserved 解析失败: "@ + s@,
            WgConfError::Address(s) => "Address 解析失败: "@ + s@ + ": invalid IP address syntax"@,
            WgConfError::MissingPrivateKey => "wg0.conf 缺少 PrivateKey"@,
            WgConfError::MissingPublicKey => "wg0.conf 缺少 [Peer] PublicKey"@,
            WgConfError::MissingEndpoint => "wg0.conf 缺少 Endpoint"@,
            WgConfError::MissingIpv4Address => "wg0.conf 缺少 IPv4 Address"@,
            WgConfError::MissingIpv6Address => "wg0.conf 缺少 IPv6 Address"@,
        }
    }

    /// The message for the user.
    pub fn message(&self) -> (out: String)
        ensures
            out@ == self.text(),
    {
        let mut out: Vec<char> = Vec::new();
        match self {
            WgConfError::KeyEncoding(s) => {
                text::push_str(&mut out, "base64 解码失败: ");
                text::push_str(&mut out, s.as_str());
            },
            WgConfError::KeyLength(n) => {
                text::push_str(&mut out, "key 长度应为32字节，实际 ");
                text::push_decimal(&mut out, *n as u64);
            },
            WgConfError::EndpointUnresolved(s) => {
                text::push_str(&mut out, "Endpoint 解析失败: ");
                text::push_str(&mut out, s.as_str());
            },
            WgConfError::EndpointWithoutAddress(s) => {
                text::push_str(&mut out, "Endpoint 无法解析为地址: ");
                text::push_str(&mut out, s.as_str());
            },
            WgConfError::ReservedShape(s) => {
                text::push_str(&mut out, "Reserved 字段格式错误: ");
                text::push_str(&mut out, s.as_str());
            },
            WgConfError::ReservedNumber(s) => {
                text::push_str(&mut out, "Reserved 解析失败: ");
                text::push_str(&mut out, s.as_str());
            },
            WgConfError::Address(s) => {
                text::push_str(&mut out, "Address 解析失败: ");
                text::push_str(&mut out, s.as_str());
                text::push_str(&mut out, ": invalid IP address syntax");
            },
            WgConfError::MissingPrivateKey => text::push_str(&mut out, "wg0.conf 缺少 PrivateKey"),
            WgConfError::MissingPublicKey => text::push_str(&mut out, "wg0.conf 缺少 [Peer] PublicKey"),
            WgConfError::MissingEndpoint => text::push_str(&mut out, "wg0.conf 缺少 Endpoint"),
            WgConfError::MissingIpv4Address => text::push_str(&mut out, "wg0.conf 缺少 IPv4 Address"),
            WgConfError::MissingIpv6Address => text::push_str(&mut out, "wg0.conf 缺少 IPv6 Address"),
        }
        assert(out@ =~= self.text());
        text::string_of(out.as_slice())
    }
}

/// `WgConfError` with texts as character sequences.
pub enum WgConfFault {
    KeyEncoding(Seq<char>),
    KeyLength(nat),
    EndpointUnresolved(Seq<char>),
    EndpointWithoutAddress(Seq<char>),
    ReservedShape(Seq<char>),
    ReservedNumber(Seq<char>),
    Address(Seq<char>),
    MissingPrivateKey,
    MissingPublicKey,
    MissingEndpoint,
    MissingIpv4Address,
    MissingIpv6Address,
}

impl View for WgConfError {
    type V = WgConfFault;

    open spec fn view(&self) -> WgConfFault {
        match self {
            WgConfError::KeyEncoding(s) => WgConfFault::KeyEncoding(s@),
            WgConfError::KeyLength(n) => WgConfFault::KeyLength(*n as nat),
            WgConfError::EndpointUnresolved(s) => WgConfFault::EndpointUnresolved(s@),
            WgConfError::EndpointWithoutAddress(s) => WgConfFault::EndpointWithoutAddress(s@),
            WgConfError::ReservedShape(s) => WgConfFault::ReservedShape(s@),
            WgConfError::ReservedNumber(s) => WgConfFault::ReservedNumber(s@),
            WgConfError::Address(s) => WgConfFault::Address(s@),
            WgConfError::MissingPrivateKey => WgConfFault::MissingPrivateKey,
            WgConfError::MissingPublicKey => WgConfFault::MissingPublicKey,
            WgConfError::MissingEndpoint => WgConfFault::MissingEndpoint,
            WgConfError::MissingIpv4Address => WgConfFault::MissingIpv4Address,
            WgConfError::MissingIpv6Address => WgConfFault::MissingIpv6Address,
        }
    }
}

/// What the resolver said of a name: an error, no address, or the first
/// address.
#[derive(Clone, Copy, Debug, PartialEq, Eq)]
pub enum Resolution {
    Failed,
    Nothing,
    Found(SocketAddr),
}

/// An address as octets, port and scope.
pub type AddrParts = (Seq<u8>, u16, u32);

/// The parts of a socket address.
pub open spec fn parts_of(a: SocketAddr) -> AddrParts {
    (a.ip@, a.port, a.scope_id)
}

/// What has been read so far, and how many names were looked up for it.
pub struct Draft {
    pub private_key: Option<Seq<u8>>,
    pub peer_public_key: Option<Seq<u8>>,
    pub endpoint: Option<AddrParts>,
    pub reserved: Seq<u8>,
    pub address_v4: Option<Seq<u8>>,
    pub address_v6: Option<Seq<u8>>,
    pub names: nat,
}

/// Nothing has been read; the reserved bytes default to zero.
pub open spec fn empty_draft() -> Draft {
    Draft {
        private_key: None,
        peer_public_key: None,
        endpoint: None,
        reserved: seq![0u8, 0, 0],
        address_v4: None,
        address_v6: None,
        names: 0,
    }
}

/// The key and the value of a line `key = value`.
pub open spec fn setting_of(line: Seq<char>) -> Option<(Seq<char>, Seq<char>)> {
    let t = text::trimmed(line);
    let i = text::first_at(t, '=');
    if i < t.len() {
        Some((text::trimmed(t.take(i)), text::trimmed(t.skip(i + 1))))
    } else {
        None
    }
}

/// The 32 bytes of a key in base64.
pub open spec fn key_bytes(value: Seq<char>) -> Result<Seq<u8>, WgConfFault> {
    match b64::base64_bytes(text::trimmed(value)) {
        None => Err(WgConfFault::KeyEncoding(value)),
        Some(b) => if b.len() == 32 {
            Ok(b)
        } else {
            Err(WgConfFault::KeyLength(b.len()))
        },
    }
}

/// The three reserved bytes, written as decimal numbers with commas.
pub open spec fn reserved_of(value: Seq<char>) -> Result<Seq<u8>, WgConfFault> {
    let p = text::split_at_char(value, ',');
    if p.len() != 3 {
        Err(WgConfFault::ReservedShape(value))
    } else {
        match (
            text::parsed_up_to(text::trimmed(p[0]), 255),
            text::parsed_up_to(text::trimmed(p[1]), 255),
            text::parsed_up_to(text::trimmed(p[2]), 255),
        ) {
            (Some(a), Some(b), Some(c)) => Ok(seq![a as u8, b as u8, c as u8]),
            _ => Err(WgConfFault::ReservedNumber(value)),
        }
    }
}

/// The address of `address/prefix`.
pub open spec fn address_of(value: Seq<char>) -> Result<Seq<u8>, WgConfFault> {
    match addr::ip_octets(text::trimmed(text::split_at_char(value, '/')[0])) {
        Some(o) => Ok(o),
        None => Err(WgConfFault::Address(value)),
    }
}

/// The address of an endpoint that is no literal address, as the `n`-th answer
/// of the resolver gives it.
pub open spec fn resolved_endpoint(
    value: Seq<char>,
    answers: Seq<Resolution>,
    n: nat,
) -> Result<AddrParts, WgConfFault> {
    if n >= answers.len() {
        Err(WgConfFault::EndpointUnresolved(value))
    } else {
        match answers[n as int] {
            Resolution::Failed => Err(WgConfFault::EndpointUnresolved(value)),
            Resolution::Nothing => Err(WgConfFault::EndpointWithoutAddress(value)),
            Resolution::Found(a) => Ok(parts_of(a)),
        }
    }
}

/// What a line adds to the draft: a later setting replaces an earlier one, and
/// lines that are no known setting are passed over.
pub open spec fn with_line(d: Draft, line: Seq<char>, answers: Seq<Resolution>) -> Result<
    Draft,
    WgConfFault,
> {
    match setting_of(line) {
        None => Ok(d),
        Some((key, value)) => if key == "PrivateKey"@ {
            match key_bytes(value) {
                Ok(b) => Ok(Draft { private_key: Some(b), ..d }),
                Err(e) => Err(e),
            }
        } else if key == "PublicKey"@ {
            match key_bytes(value) {
                Ok(b) => Ok(Draft { peer_public_key: Some(b), ..d }),
                Err(e) => Err(e),
            }
        } else if key == "Endpoint"@ {
            match addr::socket_parts(value) {
                Some(a) => Ok(Draft { endpoint: Some(a), ..d }),
                None => match resolved_endpoint(value, answers, d.names) {
                    Ok(a) => Ok(Draft { endpoint: Some(a), names: d.names + 1, ..d }),
                    Err(e) => Err(e),
                },
            }
        } else if key == "Reserved"@ {
            match reserved_of(value) {
                Ok(b) => Ok(Draft { reserved: b, ..d }),
                Err(e) => Err(e),
            }
        } else if key == "Address"@ {
            match address_of(value) {
                Ok(o) => if o.len() == 4 {
                    Ok(Draft { address_v4: Some(o), ..d })
                } else {
                    Ok(Draft { address_v6: Some(o), ..d })
                },
                Err(e) => Err(e),
            }
        } else {
            Ok(d)
        },
    }
}

/// What the lines say, in order; the first line that cannot be read decides.
pub open spec fn draft_of(lines: Seq<Seq<char>>, answers: Seq<Resolution>) -> Result<
    Draft,
    WgConfFault,
>
    decreases lines.len(),
{
    if lines.len() == 0 {
        Ok(empty_draft())
    } else {
        match draft_of(lines.drop_last(), answers) {
            Err(e) => Err(e),
            Ok(d) => with_line(d, lines.last(), answers),
        }
    }
}

/// The first setting that is missing.
pub open spec fn first_missing(d: Draft) -> Option<WgConfFault> {
    if d.private_key is None {
        Some(WgConfFault::MissingPrivateKey)
    } else if d.peer_public_key is None {
        Some(WgConfFault::MissingPublicKey)
    } else if d.endpoint is None {
        Some(WgConfFault::MissingEndpoint)
    } else if d.address_v4 is None {
        Some(WgConfFault::MissingIpv4Address)
    } else if d.address_v6 is None {
        Some(WgConfFault::MissingIpv6Address)
    } else {
        None
    }
}

/// The text is refused with `fault`.
pub open spec fn conf_fault(s: Seq<char>, answers: Seq<Resolution>) -> Option<WgConfFault> {
    match draft_of(text::lines_of(s), answers) {
        Err(e) => Some(e),
        Ok(d) => first_missing(d),
    }
}

/// The configuration holds what the text says.
pub open spec fn conf_holds(c: WgConfig, s: Seq<char>, answers: Seq<Resolution>) -> bool {
    draft_of(text::lines_of(s), answers) matches Ok(d) && {
        &&& d.private_key == Some(c.private_key@)
        &&& d.peer_public_key == Some(c.peer_public_key@)
        &&& d.endpoint == Some(parts_of(c.endpoint))
        &&& d.reserved == c.reserved@
        &&& d.address_v4 == Some(c.address_v4@)
        &&& d.address_v6 == Some(c.address_v6@)
    }
}

/// The name that a line asks the resolver for: the value of an endpoint that
/// is no literal address.
pub open spec fn name_of_line(line: Seq<char>) -> Option<Seq<char>> {
    match setting_of(line) {
        Some((key, value)) => if key == "Endpoint"@ && addr::socket_parts(value) is None {
            Some(value)
        } else {
            None
        },
        None => None,
    }
}

/// The names that the lines ask the resolver for, in order.
pub open spec fn names_of(lines: Seq<Seq<char>>) -> Seq<Seq<char>>
    decreases lines.len(),
{
    if lines.len() == 0 {
        Seq::empty()
    } else {
        match name_of_line(lines.last()) {
            Some(name) => names_of(lines.drop_last()).push(name),
            None => names_of(lines.drop_last()),
        }
    }
}

struct Reading {
    private_key: Option<[u8; 32]>,
    peer_public_key: Option<[u8; 32]>,
    endpoint: Option<SocketAddr>,
    reserved: [u8; 3],
    address_v4: Option<[u8; 4]>,
    address_v6: Option<[u8; 16]>,
    names: usize,
}

spec fn octets_opt<const N: usize>(a: Option<[u8; N]>) -> Option<Seq<u8>> {
    match a {
        Some(x) => Some(x@),
        None => None,
    }
}

spec fn parts_opt(a: Option<SocketAddr>) -> Option<AddrParts> {
    match a {
        Some(x) => Some(parts_of(x)),
        None => None,
    }
}

impl Reading {
    spec fn draft(&self) -> Draft {
        Draft {
            private_key: octets_opt(self.private_key),
            peer_public_key: octets_opt(self.peer_public_key),
            endpoint: parts_opt(self.endpoint),
            reserved: self.reserved@,
            address_v4: octets_opt(self.address_v4),
            address_v6: octets_opt(self.address_v6),
            names: self.names as nat,
        }
    }
}

fn take_32(v: &Vec<u8>) -> (a: [u8; 32])
    requires
        v@.len() == 32,
    ensures
        a@ == v@,
{
    let mut a: [u8; 32] = [0; 32];
    let mut i: usize = 0;
    while i < 32
        invariant
            i <= 32,
            v@.len() == 32,
            forall|k: int| 0 <= k < i ==> a@[k] == v@[k],
        decreases 32 - i,
    {
        a[i] = v[i];
        i += 1;
    }
    assert(a@ =~= v@);
    a
}

fn decode_key(value: &[char]) -> (r: Result<[u8; 32], WgConfError>)
    ensures
        match key_bytes(value@) {
            Ok(b) => r matches Ok(k) && k@ == b,
            Err(f) => r matches Err(e) && e@ == f,
        },
{
    let t = text::trim(value);
    let s = text::string_of(t.as_slice());
    match b64::decode(s.as_str()) {
        None => Err(WgConfError::KeyEncoding(text::string_of(value))),
        Some(b) => if b.len() == 32 {
            Ok(take_32(&b))
        } else {
            Err(WgConfError::KeyLength(b.len()))
        },
    }
}

fn parse_reserved(value: &[char]) -> (r: Result<[u8; 3], WgConfError>)
    ensures
        match reserved_of(value@) {
            Ok(b) => r matches Ok(k) && k@ == b,
            Err(f) => r matches Err(e) && e@ == f,
        },
{
    let p = text::split(value, ',');
    assert(text::pieces(p@).len() == p@.len());
    if p.len() != 3 {
        return Err(WgConfError::ReservedShape(text::string_of(value)));
    }
    assert(text::pieces(p@)[0] == p@[0]@ && text::pieces(p@)[1] == p@[1]@ && text::pieces(p@)[2]
        == p@[2]@);
    let a = text::trim(p[0].as_slice());
    let b = text::trim(p[1].as_slice());
    let c = text::trim(p[2].as_slice());
    match (
        text::parse_up_to(a.as_slice(), 255),
        text::parse_up_to(b.as_slice(), 255),
        text::parse_up_to(c.as_slice(), 255),
    ) {
        (Some(a), Some(b), Some(c)) => {
            let k: [u8; 3] = [a as u8, b as u8, c as u8];
            assert(k@ =~= seq![a as u8, b as u8, c as u8]);
            Ok(k)
        },
        _ => Err(WgConfError::ReservedNumber(text::string_of(value))),
    }
}

fn parse_address(value: &[char]) -> (r: Result<IpAddr, WgConfError>)
    ensures
        match address_of(value@) {
            Ok(o) => r matches Ok(ip) && ip@ == o,
            Err(f) => r matches Err(e) && e@ == f,
        },
{
    let p = text::split(value, '/');
    assert(text::pieces(p@)[0] == p@[0]@);
    let t = text::trim(p[0].as_slice());
    match addr::parse_ip(t.as_slice()) {
        Some(ip) => Ok(ip),
        None => Err(WgConfError::Address(text::string_of(value))),
    }
}

fn read_setting(line: &[char]) -> (r: Option<(Vec<char>, Vec<char>)>)
    ensures
        match setting_of(line@) {
            Some((k, v)) => r matches Some(x) && x.0@ == k && x.1@ == v,
            None => r is None,
        },
{
    let t = text::trim(line);
    assert(t@.skip(0) =~= t@);
    let i = text::find_char(t.as_slice(), 0, '=');
    if i >= t.len() {
        return None;
    }
    let left = text::part(t.as_slice(), 0, i);
    let right = text::part(t.as_slice(), i + 1, t.len());
    assert(left@ =~= t@.take(i as int));
    assert(right@ =~= t@.skip(i + 1));
    Some((text::trim(left.as_slice()), text::trim(right.as_slice())))
}

fn read_line(st: &mut Reading, line: &[char], answers: &Vec<Resolution>) -> (r: Result<
    (),
    WgConfError,
>)
    requires
        old(st).names <= answers@.len(),
    ensures
        match with_line(old(st).draft(), line@, answers@) {
            Ok(d) => r is Ok && final(st).draft() == d,
            Err(f) => r matches Err(e) && e@ == f,
        },
        final(st).names <= answers@.len(),
{
    let (key, value) = match read_setting(line) {
        None => return Ok(()),
        Some(x) => x,
    };
    if text::is_text(key.as_slice(), "PrivateKey") {
        match decode_key(value.as_slice()) {
            Err(e) => return Err(e),
            Ok(k) => st.private_key = Some(k),
        }
    } else if text::is_text(key.as_slice(), "PublicKey") {
        match decode_key(value.as_slice()) {
            Err(e) => return Err(e),
            Ok(k) => st.peer_public_key = Some(k),
        }
    } else if text::is_text(key.as_slice(), "Endpoint") {
        match addr::parse_socket_addr(value.as_slice()) {
            Some(a) => st.endpoint = Some(a),
            None => {
                if st.names >= answers.len() {
                    return Err(
                        WgConfError::EndpointUnresolved(text::string_of(value.as_slice())),
                    );
                }
                match answers[st.names] {
                    Resolution::Failed => return Err(
                        WgConfError::EndpointUnresolved(text::string_of(value.as_slice())),
                    ),
                    Resolution::Nothing => return Err(
                        WgConfError::EndpointWithoutAddress(text::string_of(value.as_slice())),
                    ),
                    Resolution::Found(a) => {
                        st.endpoint = Some(a);
                        st.names = st.names + 1;
                    },
                }
            },
        }
    } else if text::is_text(key.as_slice(), "Reserved") {
        match parse_reserved(value.as_slice()) {
            Err(e) => return Err(e),
            Ok(k) => st.reserved = k,
        }
    } else if text::is_text(key.as_slice(), "Address") {
        match parse_address(value.as_slice()) {
            Err(e) => return Err(e),
            Ok(IpAddr::V4(o)) => st.address_v4 = Some(o),
            Ok(IpAddr::V6(o)) => st.address_v6 = Some(o),
        }
    }
    Ok(())
}

/// Reads the text of `wg0.conf`. `answers` are the resolver's answers for the
/// names that `names_to_resolve` lists, in that order; a missing answer counts
/// as a failed look-up.
pub fn parse_wg_conf(s: &str, answers: &Vec<Resolution>) -> (r: Result<WgConfig, WgConfError>)
    ensures
        match conf_fault(s@, answers@) {
            Some(f) => r matches Err(e) && e@ == f,
            None => r matches Ok(c) && conf_holds(c, s@, answers@),
        },
{
    let chars = text::chars_of(s);
    let lines = text::lines(chars.as_slice());
    let ghost all = text::pieces(lines@);
    let mut st = Reading {
        private_key: None,
        peer_public_key: None,
        endpoint: None,
        reserved: [0, 0, 0],
        address_v4: None,
        address_v6: None,
        names: 0,
    };
    proof {
        assert(st.reserved@ =~= seq![0u8, 0, 0]);
        assert(all.take(0) =~= Seq::empty());
    }
    let mut i: usize = 0;
    while i < lines.len()
        invariant
            i <= lines@.len(),
            all == text::pieces(lines@),
            all == text::lines_of(s@),
            st.names <= answers@.len(),
            draft_of(all.take(i as int), answers@) == Ok::<Draft, WgConfFault>(st.draft()),
        decreases lines@.len() - i,
    {
        let ghost before = st.draft();
        assert(all.take(i + 1).drop_last() =~= all.take(i as int));
        assert(all.take(i + 1).last() == lines@[i as int]@);
        match read_line(&mut st, lines[i].as_slice(), answers) {
            Err(e) => {
                proof {
                    lemma_draft_error(all, answers@, i + 1, e@);
                }
                return Err(e);
            },
            Ok(()) => {},
        }
        i += 1;
    }
    assert(all.take(i as int) =~= all);
    let private_key = match st.private_key {
        None => return Err(WgConfError::MissingPrivateKey),
        Some(k) => k,
    };
    let peer_public_key = match st.peer_public_key {
        None => return Err(WgConfError::MissingPublicKey),
        Some(k) => k,
    };
    let endpoint = match st.endpoint {
        None => return Err(WgConfError::MissingEndpoint),
        Some(a) => a,
    };
    let address_v4 = match st.address_v4 {
        None => return Err(WgConfError::MissingIpv4Address),
        Some(a) => a,
    };
    let address_v6 = match st.address_v6 {
        None => return Err(WgConfError::MissingIpv6Address),
        Some(a) => a,
    };
    Ok(
        WgConfig {
            private_key,
            peer_public_key,
            endpoint,
            reserved: st.reserved,
            address_v4,
            address_v6,
        },
    )
}

proof fn lemma_draft_error(lines: Seq<Seq<char>>, answers: Seq<Resolution>, n: int, f: WgConfFault)
    requires
        0 <= n <= lines.len(),
        draft_of(lines.take(n), answers) == Err::<Draft, WgConfFault>(f),
    ensures
        draft_of(lines, answers) == Err::<Draft, WgConfFault>(f),
    decreases lines.len() - n,
{
    if n < lines.len() {
        assert(lines.take(n + 1).drop_last() =~= lines.take(n));
        lemma_draft_error(lines, answers, n + 1, f);
    } else {
        assert(lines.take(n) =~= lines);
    }
}

/// The names that the text asks the resolver for, in order.
pub fn names_to_resolve(s: &str) -> (out: Vec<String>)
    ensures
        text::texts(out@) == names_of(text::lines_of(s@)),
{
    let chars = text::chars_of(s);
    let lines = text::lines(chars.as_slice());
    let ghost all = text::pieces(lines@);
    let mut out: Vec<String> = Vec::new();
    let mut i: usize = 0;
    assert(all.take(0) =~= Seq::empty());
    assert(text::texts(out@) =~= Seq::empty());
    while i < lines.len()
        invariant
            i <= lines@.len(),
            all == text::pieces(lines@),
            text::texts(out@) == names_of(all.take(i as int)),
        decreases lines@.len() - i,
    {
        assert(all.take(i + 1).drop_last() =~= all.take(i as int));
        assert(all.take(i + 1).last() == lines@[i as int]@);
        if let Some((key, value)) = read_setting(lines[i].as_slice()) {
            if text::is_text(key.as_slice(), "Endpoint") && addr::parse_socket_addr(
                value.as_slice(),
            ).is_none() {
                let name = text::string_of(value.as_slice());
                let ghost before = text::texts(out@);
                out.push(name);
                assert(text::texts(out@) =~= before.push(name@));
            }
        }
        i += 1;
    }
    assert(all.take(i as int) =~= all);
    out
}

} // verus!
