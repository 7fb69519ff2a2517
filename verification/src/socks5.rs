//! SOCKS5 (RFC 1928) without authentication: CONNECT and UDP ASSOCIATE.
//!
//! An association serves many targets: each gets a channel of its own, up to a
//! limit. Only the first source that sends to an association is its client.

use crate::addr;
use crate::addr::{IpAddr, SocketAddr};
use crate::outbound;
use crate::outbound::{Host, HostView};
use crate::text;
use crate::wire;
use vstd::prelude::*;
use vstd::utf8::*;

verus! {

pub const VERSION: u8 = 0x05;

pub const REP_SUCCEEDED: u8 = 0x00;

pub const REP_HOST_UNREACHABLE: u8 = 0x04;

pub const REP_CMD_NOT_SUPPORTED: u8 = 0x07;

pub const REP_ATYP_NOT_SUPPORTED: u8 = 0x08;

pub const CMD_CONNECT: u8 = 0x01;

pub const CMD_UDP_ASSOCIATE: u8 = 0x03;

pub const ATYP_V4: u8 = 0x01;

pub const ATYP_NAME: u8 = 0x03;

pub const ATYP_V6: u8 = 0x04;

/// Active targets of one association.
pub const MAX_TARGETS: usize = 64;

/// Seconds that the channel to a target may take to come up.
pub const TARGET_SETUP_TIMEOUT: u64 = 10;

/// Seconds without traffic after which the channel to a target is released.
pub const TARGET_IDLE_TIMEOUT: u64 = 120;

// ---------------------------------------------------------------------------
// Replies

/// A reply without an address.
pub open spec fn plain_reply(rep: u8) -> Seq<u8> {
    seq![0x05u8, rep, 0x00, 0x01, 0, 0, 0, 0, 0, 0]
}

/// An address type and an address with its port.
pub open spec fn addr_bytes(octets: Seq<u8>, port: u16) -> Seq<u8> {
    seq![
        if octets.len() == 4 {
            ATYP_V4
        } else {
            ATYP_V6
        },
    ] + octets + wire::be_bytes(port as nat, 2)
}

/// A reply with an address.
pub open spec fn addr_reply(rep: u8, octets: Seq<u8>, port: u16) -> Seq<u8> {
    seq![0x05u8, rep, 0x00] + addr_bytes(octets, port)
}

/// A reply without an address.
pub fn reply(rep: u8) -> (out: Vec<u8>)
    ensures
        out@ == plain_reply(rep),
{
    let mut out: Vec<u8> = Vec::new();
    out.push(0x05);
    out.push(rep);
    out.push(0x00);
    out.push(0x01);
    out.push(0);
    out.push(0);
    out.push(0);
    out.push(0);
    out.push(0);
    out.push(0);
    assert(out@ =~= plain_reply(rep));
    out
}

fn push_addr(out: &mut Vec<u8>, a: &SocketAddr)
    ensures
        final(out)@ == old(out)@ + addr_bytes(a.ip@, a.port),
{
    if a.ip.is_ipv4() {
        out.push(ATYP_V4);
    } else {
        out.push(ATYP_V6);
    }
    let o = a.ip.octets();
    wire::push_bytes(out, o.as_slice());
    wire::push_u16(out, a.port);
    assert(out@ =~= old(out)@ + addr_bytes(a.ip@, a.port));
}

/// A reply with an address.
pub fn reply_with_addr(rep: u8, a: &SocketAddr) -> (out: Vec<u8>)
    ensures
        out@ == addr_reply(rep, a.ip@, a.port),
{
    let mut out: Vec<u8> = Vec::new();
    out.push(0x05);
    out.push(rep);
    out.push(0x00);
    push_addr(&mut out, a);
    assert(out@ =~= addr_reply(rep, a.ip@, a.port));
    out
}

// ---------------------------------------------------------------------------
// Negotiation

/// Why a client is turned away.
#[derive(Clone, Copy, Debug, PartialEq, Eq, Structural)]
pub enum Socks5Error {
    /// The client speaks another version.
    Version(u8),
    /// The client insists on authentication.
    NoMethod,
    Command(u8),
    AddressType(u8),
    /// The domain is no UTF-8.
    DomainEncoding,
    /// The way out carries no datagrams.
    UdpUnsupported,
}

/// What the bytes of a greeting, as far as they have come, call for.
#[derive(Debug, PartialEq, Eq)]
pub enum Greeting {
    /// At least this many bytes are still to come.
    NeedMore(usize),
    /// Turn the client away, after this answer if there is one.
    Refuse(Option<Vec<u8>>, Socks5Error),
    /// Answer, and go on with the request.
    Accept(Vec<u8>),
}

/// What the bytes of a greeting call for, in terms of sequences: how many more,
/// or the answer and the error, if any.
pub enum GreetingView {
    NeedMore(int),
    Refuse(Option<Seq<u8>>, Socks5Error),
    Accept(Seq<u8>),
}

impl View for Greeting {
    type V = GreetingView;

    open spec fn view(&self) -> GreetingView {
        match self {
            Greeting::NeedMore(n) => GreetingView::NeedMore(*n as int),
            Greeting::Refuse(Some(b), e) => GreetingView::Refuse(Some(b@), *e),
            Greeting::Refuse(None, e) => GreetingView::Refuse(None, *e),
            Greeting::Accept(b) => GreetingView::Accept(b@),
        }
    }
}

/// A greeting is a version, the number of methods, and the methods; the method
/// without authentication must be among them.
pub open spec fn greeting_of(buf: Seq<u8>) -> GreetingView {
    if buf.len() < 2 {
        GreetingView::NeedMore(2 - buf.len())
    } else if buf[0] != VERSION {
        GreetingView::Refuse(None, Socks5Error::Version(buf[0]))
    } else if buf.len() < 2 + buf[1] {
        GreetingView::NeedMore(2 + buf[1] - buf.len())
    } else if buf.subrange(2, 2 + buf[1]).contains(0x00u8) {
        GreetingView::Accept(seq![0x05u8, 0x00])
    } else {
        GreetingView::Refuse(Some(seq![0x05u8, 0xff]), Socks5Error::NoMethod)
    }
}

/// Reads a greeting.
pub fn read_greeting(buf: &[u8]) -> (r: Greeting)
    ensures
        r@ == greeting_of(buf@),
{
    if buf.len() < 2 {
        return Greeting::NeedMore(2 - buf.len());
    }
    if buf[0] != VERSION {
        return Greeting::Refuse(None, Socks5Error::Version(buf[0]));
    }
    let end: usize = 2 + buf[1] as usize;
    if buf.len() < end {
        return Greeting::NeedMore(end - buf.len());
    }
    let ghost methods = buf@.subrange(2, end as int);
    let mut i: usize = 2;
    while i < end
        invariant
            2 <= i <= end <= buf@.len(),
            buf@[0] == VERSION,
            end == 2 + buf@[1],
            methods == buf@.subrange(2, end as int),
            forall|k: int| 2 <= k < i ==> buf@[k] != 0x00,
        decreases end - i,
    {
        if buf[i] == 0x00 {
            assert(methods[i - 2] == 0x00);
            let mut out: Vec<u8> = Vec::new();
            out.push(0x05);
            out.push(0x00);
            assert(out@ =~= seq![0x05u8, 0x00]);
            return Greeting::Accept(out);
        }
        i += 1;
    }
    assert(!methods.contains(0x00u8)) by {
        if methods.contains(0x00u8) {
            let k = choose|k: int| 0 <= k < methods.len() && methods[k] == 0x00u8;
            assert(buf@[k + 2] == 0x00);
        }
    }
    let mut out: Vec<u8> = Vec::new();
    out.push(0x05);
    out.push(0xff);
    assert(out@ =~= seq![0x05u8, 0xff]);
    Greeting::Refuse(Some(out), Socks5Error::NoMethod)
}

// ---------------------------------------------------------------------------
// Addresses

/// The address field at `pos`, of type `atyp`, and what follows it.
pub enum Field {
    /// At least this many bytes are missing.
    Short(int),
    /// A literal address, its port, and the end of the field.
    Addr(Seq<u8>, u16, int),
    /// The bytes of a name, a port, and the end of the field.
    Name(Seq<u8>, u16, int),
    /// No such type of address.
    Unknown,
}

/// The address field at `pos`: four or sixteen octets, or a size and a name;
/// then a port.
pub open spec fn field_at(buf: Seq<u8>, pos: int, atyp: u8) -> Field {
    if atyp == ATYP_V4 {
        if buf.len() < pos + 6 {
            Field::Short(pos + 6 - buf.len())
        } else {
            Field::Addr(
                buf.subrange(pos, pos + 4),
                wire::be_value(buf.subrange(pos + 4, pos + 6)) as u16,
                pos + 6,
            )
        }
    } else if atyp == ATYP_V6 {
        if buf.len() < pos + 18 {
            Field::Short(pos + 18 - buf.len())
        } else {
            Field::Addr(
                buf.subrange(pos, pos + 16),
                wire::be_value(buf.subrange(pos + 16, pos + 18)) as u16,
                pos + 18,
            )
        }
    } else if atyp == ATYP_NAME {
        if buf.len() < pos + 1 {
            Field::Short(1)
        } else {
            let len = buf[pos] as int;
            if buf.len() < pos + 1 + len + 2 {
                Field::Short(pos + 1 + len + 2 - buf.len())
            } else {
                Field::Name(
                    buf.subrange(pos + 1, pos + 1 + len),
                    wire::be_value(buf.subrange(pos + 1 + len, pos + 3 + len)) as u16,
                    pos + 3 + len,
                )
            }
        }
    } else {
        Field::Unknown
    }
}

enum FieldRead {
    Short(usize),
    Addr(IpAddr, u16, usize),
    Name(Vec<u8>, u16, usize),
    Unknown,
}

spec fn read_matches(r: FieldRead, f: Field) -> bool {
    match r {
        FieldRead::Short(n) => f == Field::Short(n as int) && n > 0,
        FieldRead::Addr(ip, port, end) => f == Field::Addr(ip@, port, end as int),
        FieldRead::Name(name, port, end) => f == Field::Name(name@, port, end as int),
        FieldRead::Unknown => f == Field::Unknown,
    }
}

fn read_field(buf: &[u8], pos: usize, atyp: u8) -> (r: FieldRead)
    requires
        pos <= buf@.len(),
        pos <= 4,
    ensures
        read_matches(r, field_at(buf@, pos as int, atyp)),
        r matches FieldRead::Addr(_, _, end) ==> pos < end <= buf@.len(),
        r matches FieldRead::Name(_, _, end) ==> pos < end <= buf@.len(),
{
    if atyp == ATYP_V4 {
        if buf.len() < pos + 6 {
            return FieldRead::Short(pos + 6 - buf.len());
        }
        FieldRead::Addr(addr::ipv4_from(buf, pos), wire::read_u16(buf, pos + 4), pos + 6)
    } else if atyp == ATYP_V6 {
        if buf.len() < pos + 18 {
            return FieldRead::Short(pos + 18 - buf.len());
        }
        FieldRead::Addr(addr::ipv6_from(buf, pos), wire::read_u16(buf, pos + 16), pos + 18)
    } else if atyp == ATYP_NAME {
        if buf.len() < pos + 1 {
            return FieldRead::Short(1);
        }
        let start: usize = pos + 1;
        let end: usize = start + buf[pos] as usize;
        if buf.len() < end + 2 {
            return FieldRead::Short(end + 2 - buf.len());
        }
        FieldRead::Name(wire::bytes_of(buf, start, end), wire::read_u16(buf, end), end + 2)
    } else {
        FieldRead::Unknown
    }
}

// ---------------------------------------------------------------------------
// Requests

/// What the bytes of a request, as far as they have come, call for.
#[derive(Debug, PartialEq, Eq)]
pub enum Request {
    /// At least this many bytes are still to come.
    NeedMore(usize),
    /// Turn the client away, after this answer if there is one.
    Refuse(Option<Vec<u8>>, Socks5Error),
    /// Connect to this target.
    Connect(Host, u16),
    /// Open an association. The address that came with it is only a hint, and
    /// is not used.
    Associate,
}

/// `Request` in terms of sequences.
pub enum RequestView {
    NeedMore(int),
    Refuse(Option<Seq<u8>>, Socks5Error),
    Connect(HostView, u16),
    Associate,
}

impl View for Request {
    type V = RequestView;

    open spec fn view(&self) -> RequestView {
        match self {
            Request::NeedMore(n) => RequestView::NeedMore(*n as int),
            Request::Refuse(Some(b), e) => RequestView::Refuse(Some(b@), *e),
            Request::Refuse(None, e) => RequestView::Refuse(None, *e),
            Request::Connect(h, port) => RequestView::Connect(h@, *port),
            Request::Associate => RequestView::Associate,
        }
    }
}

/// An association is opened only where the way out carries datagrams.
pub open spec fn association(supports_udp: bool) -> RequestView {
    if supports_udp {
        RequestView::Associate
    } else {
        RequestView::Refuse(Some(plain_reply(REP_CMD_NOT_SUPPORTED)), Socks5Error::UdpUnsupported)
    }
}

/// A request is a version, a command, a reserved byte, and an address field.
/// A command or a type of address that is not served is answered so; a name
/// that is no UTF-8 is answered as an unreachable host.
pub open spec fn request_of(buf: Seq<u8>, supports_udp: bool) -> RequestView {
    if buf.len() < 4 {
        RequestView::NeedMore(4 - buf.len())
    } else if buf[0] != VERSION {
        RequestView::Refuse(None, Socks5Error::Version(buf[0]))
    } else if buf[1] != CMD_CONNECT && buf[1] != CMD_UDP_ASSOCIATE {
        RequestView::Refuse(
            Some(plain_reply(REP_CMD_NOT_SUPPORTED)),
            Socks5Error::Command(buf[1]),
        )
    } else {
        match field_at(buf, 4, buf[3]) {
            Field::Unknown => RequestView::Refuse(
                Some(plain_reply(REP_ATYP_NOT_SUPPORTED)),
                Socks5Error::AddressType(buf[3]),
            ),
            Field::Short(n) => RequestView::NeedMore(n),
            Field::Addr(o, port, _) => if buf[1] == CMD_UDP_ASSOCIATE {
                association(supports_udp)
            } else {
                RequestView::Connect(HostView::Ip(o), port)
            },
            Field::Name(name, port, _) => if buf[1] == CMD_UDP_ASSOCIATE {
                association(supports_udp)
            } else if valid_utf8(name) {
                RequestView::Connect(outbound::host_of_text(decode_utf8(name)), port)
            } else {
                RequestView::Refuse(
                    Some(plain_reply(REP_HOST_UNREACHABLE)),
                    Socks5Error::DomainEncoding,
                )
            },
        }
    }
}

/// Reads a request. `supports_udp` says whether the way out carries datagrams.
pub fn read_request(buf: &[u8], supports_udp: bool) -> (r: Request)
    ensures
        r@ == request_of(buf@, supports_udp),
{
    if buf.len() < 4 {
        return Request::NeedMore(4 - buf.len());
    }
    if buf[0] != VERSION {
        return Request::Refuse(None, Socks5Error::Version(buf[0]));
    }
    if buf[1] != CMD_CONNECT && buf[1] != CMD_UDP_ASSOCIATE {
        return Request::Refuse(Some(reply(REP_CMD_NOT_SUPPORTED)), Socks5Error::Command(buf[1]));
    }
    let field = read_field(buf, 4, buf[3]);
    match field {
        FieldRead::Unknown => Request::Refuse(
            Some(reply(REP_ATYP_NOT_SUPPORTED)),
            Socks5Error::AddressType(buf[3]),
        ),
        FieldRead::Short(n) => Request::NeedMore(n),
        FieldRead::Addr(ip, port, _) => if buf[1] == CMD_UDP_ASSOCIATE {
            if supports_udp {
                Request::Associate
            } else {
                Request::Refuse(Some(reply(REP_CMD_NOT_SUPPORTED)), Socks5Error::UdpUnsupported)
            }
        } else {
            Request::Connect(Host::Ip(ip), port)
        },
        FieldRead::Name(name, port, _) => if buf[1] == CMD_UDP_ASSOCIATE {
            if supports_udp {
                Request::Associate
            } else {
                Request::Refuse(Some(reply(REP_CMD_NOT_SUPPORTED)), Socks5Error::UdpUnsupported)
            }
        } else {
            match text::utf8_text(name) {
                Some(s) => Request::Connect(Host::parse(s.as_str()), port),
                None => Request::Refuse(
                    Some(reply(REP_HOST_UNREACHABLE)),
                    Socks5Error::DomainEncoding,
                ),
            }
        },
    }
}

// ---------------------------------------------------------------------------
// Datagrams

/// What the header of a datagram says: host, port, and where the payload
/// begins. Fragments are not served.
pub open spec fn udp_header(buf: Seq<u8>) -> Option<(HostView, u16, int)> {
    if buf.len() < 4 || buf[2] != 0x00 {
        None
    } else {
        match field_at(buf, 4, buf[3]) {
            Field::Addr(o, port, end) => Some((HostView::Ip(o), port, end)),
            Field::Name(name, port, end) => if valid_utf8(name) {
                Some((outbound::host_of_text(decode_utf8(name)), port, end))
            } else {
                None
            },
            _ => None,
        }
    }
}

/// The header of a datagram from an address.
pub open spec fn udp_header_bytes(octets: Seq<u8>, port: u16) -> Seq<u8> {
    seq![0x00u8, 0x00, 0x00] + addr_bytes(octets, port)
}

/// Reads the header of a datagram.
pub fn decode_udp_header(buf: &[u8]) -> (r: Option<(Host, u16, usize)>)
    ensures
        match udp_header(buf@) {
            Some((h, port, end)) => r matches Some(x) && x.0@ == h && x.1 == port && x.2 == end,
            None => r is None,
        },
        r matches Some(x) ==> x.2 <= buf@.len(),
{
    if buf.len() < 4 || buf[2] != 0x00 {
        return None;
    }
    match read_field(buf, 4, buf[3]) {
        FieldRead::Addr(ip, port, end) => Some((Host::Ip(ip), port, end)),
        FieldRead::Name(name, port, end) => match text::utf8_text(name) {
            Some(s) => Some((Host::parse(s.as_str()), port, end)),
            None => None,
        },
        _ => None,
    }
}

/// Writes the header of a datagram from an address.
pub fn encode_udp_header(target: &SocketAddr) -> (out: Vec<u8>)
    ensures
        out@ == udp_header_bytes(target.ip@, target.port),
{
    let mut out: Vec<u8> = Vec::new();
    out.push(0x00);
    out.push(0x00);
    out.push(0x00);
    push_addr(&mut out, target);
    assert(out@ =~= udp_header_bytes(target.ip@, target.port));
    out
}

/// A header that was written is read as the address it was written from, and
/// the payload follows it.
pub proof fn lemma_udp_header_read_back(octets: Seq<u8>, port: u16, payload: Seq<u8>)
    requires
        octets.len() == 4 || octets.len() == 16,
    ensures
        udp_header(udp_header_bytes(octets, port) + payload) == Some(
            (HostView::Ip(octets), port, udp_header_bytes(octets, port).len() as int),
        ),
        (udp_header_bytes(octets, port) + payload).skip(
            udp_header_bytes(octets, port).len() as int,
        ) == payload,
{
    let head = udp_header_bytes(octets, port);
    let buf = head + payload;
    let n = octets.len() as int;
    let p = wire::be_bytes(port as nat, 2);
    wire::lemma_be_bytes_len(port as nat, 2);
    assert(vstd::arithmetic::power::pow(256, 2) == 65536) by {
        reveal(vstd::arithmetic::power::pow);
        reveal_with_fuel(vstd::arithmetic::power::pow, 3);
    }
    wire::lemma_be_read_back(port as nat, 2);
    assert(buf.subrange(4, 4 + n) =~= octets);
    assert(buf.subrange(4 + n, 6 + n) =~= p);
    assert(buf.skip(head.len() as int) =~= payload);
}

// ---------------------------------------------------------------------------
// Associations

/// A target of an association, and the number of its channel.
#[derive(Debug, PartialEq, Eq)]
pub struct UdpTarget {
    pub channel: usize,
    pub host: Host,
    pub port: u16,
}

/// The datagram side of an association: its client, once it is known, and its
/// active targets.
#[derive(Debug, PartialEq, Eq)]
pub struct UdpAssociation {
    pub client: Option<SocketAddr>,
    pub targets: Vec<UdpTarget>,
}

/// What a datagram calls for.
#[derive(Debug, PartialEq, Eq)]
pub enum UdpStep {
    /// Drop it.
    Ignore,
    /// Send the payload on a channel.
    Forward(usize, Vec<u8>),
    /// Open a channel to a target, and send the payload on it.
    Open(usize, Host, u16, Vec<u8>),
}

/// `t` is the target `h` and `port`.
pub open spec fn is_target(t: UdpTarget, h: HostView, port: u16) -> bool {
    t.host@ == h && t.port == port
}

/// Some active target is `h` and `port`.
pub open spec fn has_target(ts: Seq<UdpTarget>, h: HostView, port: u16) -> bool {
    exists|i: int| 0 <= i < ts.len() && is_target(#[trigger] ts[i], h, port)
}

/// Some active target uses this channel.
pub open spec fn has_channel(ts: Seq<UdpTarget>, channel: usize) -> bool {
    exists|i: int| 0 <= i < ts.len() && (#[trigger] ts[i]).channel == channel
}

/// The targets without the one on this channel.
pub open spec fn without_channel(ts: Seq<UdpTarget>, channel: usize) -> Seq<UdpTarget>
    decreases ts.len(),
{
    if ts.len() == 0 {
        Seq::empty()
    } else if ts.last().channel == channel {
        without_channel(ts.drop_last(), channel)
    } else {
        without_channel(ts.drop_last(), channel).push(ts.last())
    }
}

/// No more targets than the limit, no target twice, no channel twice, and
/// channels are numbered below the limit.
pub open spec fn targets_ok(ts: Seq<UdpTarget>) -> bool {
    &&& ts.len() <= MAX_TARGETS
    &&& forall|i: int| 0 <= i < ts.len() ==> (#[trigger] ts[i]).channel < MAX_TARGETS
    &&& forall|i: int, j: int|
        0 <= i < j < ts.len() ==> (#[trigger] ts[i]).channel != (#[trigger] ts[j]).channel
    &&& forall|i: int, j: int|
        0 <= i < j < ts.len() ==> !((#[trigger] ts[i]).host@ == (#[trigger] ts[j]).host@
            && ts[i].port == ts[j].port)
}

/// A source may send to the association: nobody has yet, or it is the client.
pub open spec fn is_client(a: UdpAssociation, from: SocketAddr) -> bool {
    match a.client {
        None => true,
        Some(c) => addr::equal_addrs(c, from),
    }
}

/// What a datagram does to an association and calls for.
pub open spec fn datagram_step(
    before: UdpAssociation,
    after: UdpAssociation,
    step: UdpStep,
    from: SocketAddr,
    buf: Seq<u8>,
) -> bool {
    if !is_client(before, from) {
        step == UdpStep::Ignore && after == before
    } else {
        &&& after.client is Some
        &&& addr::equal_addrs(after.client->Some_0, from)
        &&& match udp_header(buf) {
            None => step == UdpStep::Ignore && after.targets == before.targets,
            Some((h, port, end)) => if has_target(before.targets@, h, port) {
                &&& after.targets == before.targets
                &&& step matches UdpStep::Forward(channel, payload)
                &&& payload@ == buf.skip(end)
                &&& exists|i: int|
                    0 <= i < before.targets@.len() && is_target(
                        #[trigger] before.targets@[i],
                        h,
                        port,
                    ) && before.targets@[i].channel == channel
            } else if before.targets@.len() >= MAX_TARGETS {
                step == UdpStep::Ignore && after.targets == before.targets
            } else {
                &&& step matches UdpStep::Open(channel, host, p, payload)
                &&& host@ == h
                &&& p == port
                &&& payload@ == buf.skip(end)
                &&& channel < MAX_TARGETS
                &&& !has_channel(before.targets@, channel)
                &&& after.targets@.len() == before.targets@.len() + 1
                &&& after.targets@.drop_last() == before.targets@
                &&& after.targets@.last().channel == channel
                &&& is_target(after.targets@.last(), h, port)
            },
        }
    }
}

/// With fewer targets than the limit, some channel below the limit is free.
proof fn lemma_free_channel(ts: Seq<UdpTarget>)
    requires
        ts.len() < MAX_TARGETS,
    ensures
        exists|c: usize| c < MAX_TARGETS && !has_channel(ts, c),
{
    if forall|c: usize| c < MAX_TARGETS ==> has_channel(ts, c) {
        let used = Seq::new(ts.len(), |i: int| ts[i].channel as int);
        let range = vstd::set_lib::set_int_range(0, MAX_TARGETS as int);
        vstd::set_lib::lemma_int_range(0, MAX_TARGETS as int);
        used.lemma_cardinality_of_set();
        assert forall|c: int| range.contains(c) implies used.to_set().contains(c) by {
            assert(has_channel(ts, c as usize));
            let i = choose|i: int| 0 <= i < ts.len() && (#[trigger] ts[i]).channel == c as usize;
            assert(used[i] == c);
            assert(used.contains(c));
        }
        assert(range.subset_of(used.to_set()));
        vstd::set_lib::lemma_len_subset(range, used.to_set());
        assert(false);
    }
}

proof fn lemma_without_channel(ts: Seq<UdpTarget>, channel: usize)
    ensures
        without_channel(ts, channel).len() <= ts.len(),
        forall|i: int|
            0 <= i < without_channel(ts, channel).len() ==> exists|k: int|
                i <= k < ts.len() && #[trigger] ts[k] == (#[trigger] without_channel(
                    ts,
                    channel,
                )[i]) && ts[k].channel != channel,
    decreases ts.len(),
{
    if ts.len() > 0 {
        let t = ts.drop_last();
        lemma_without_channel(t, channel);
        let w = without_channel(t, channel);
        let r = without_channel(ts, channel);
        assert forall|i: int| 0 <= i < r.len() implies exists|k: int|
            i <= k < ts.len() && #[trigger] ts[k] == (#[trigger] r[i]) && ts[k].channel
                != channel by {
            if i < w.len() {
                assert(r[i] == w[i]);
                let k = choose|k: int|
                    i <= k < t.len() && #[trigger] t[k] == w[i] && t[k].channel != channel;
                assert(ts[k] == t[k]);
            } else {
                assert(ts[ts.len() - 1] == r[i]);
            }
        }
    }
}

/// Releasing a channel keeps the targets in order: none is there twice, and
/// none of those left uses the channel.
pub proof fn lemma_release_keeps_ok(ts: Seq<UdpTarget>, channel: usize)
    requires
        targets_ok(ts),
    ensures
        targets_ok(without_channel(ts, channel)),
        !has_channel(without_channel(ts, channel), channel),
    decreases ts.len(),
{
    if ts.len() > 0 {
        let t = ts.drop_last();
        assert(targets_ok(t)) by {
            assert forall|i: int, j: int| 0 <= i < j < t.len() implies !((#[trigger] t[i]).host@ == (
            #[trigger] t[j]).host@ && t[i].port == t[j].port) by {
                assert(t[i] == ts[i] && t[j] == ts[j]);
            }
            assert forall|i: int, j: int| 0 <= i < j < t.len() implies (#[trigger] t[i]).channel != (
            #[trigger] t[j]).channel by {
                assert(t[i] == ts[i] && t[j] == ts[j]);
            }
            assert forall|i: int| 0 <= i < t.len() implies (#[trigger] t[i]).channel
                < MAX_TARGETS by {
                assert(t[i] == ts[i]);
            }
        }
        lemma_release_keeps_ok(t, channel);
        lemma_without_channel(t, channel);
        let w = without_channel(t, channel);
        let r = without_channel(ts, channel);
        if ts.last().channel != channel {
            let n = ts.len() - 1;
            assert forall|i: int, j: int| 0 <= i < j < r.len() implies (#[trigger] r[i]).channel != (
            #[trigger] r[j]).channel && !(r[i].host@ == r[j].host@ && r[i].port == r[j].port) by {
                assert(r[i] == w[i]);
                if j < w.len() {
                    assert(r[j] == w[j]);
                } else {
                    let k = choose|k: int|
                        i <= k < t.len() && #[trigger] t[k] == w[i] && t[k].channel != channel;
                    assert(ts[k] == t[k]);
                    assert(r[j] == ts[n]);
                }
            }
            assert forall|i: int| 0 <= i < r.len() implies (#[trigger] r[i]).channel
                < MAX_TARGETS && r[i].channel != channel by {
                if i < w.len() {
                    assert(r[i] == w[i]);
                } else {
                    assert(r[i] == ts[n]);
                }
            }
        }
    }
}

proof fn lemma_without_none(ts: Seq<UdpTarget>, channel: usize)
    requires
        forall|k: int| 0 <= k < ts.len() ==> (#[trigger] ts[k]).channel != channel,
    ensures
        without_channel(ts, channel) == ts,
    decreases ts.len(),
{
    if ts.len() > 0 {
        let t = ts.drop_last();
        assert forall|k: int| 0 <= k < t.len() implies (#[trigger] t[k]).channel != channel by {
            assert(t[k] == ts[k]);
        }
        lemma_without_none(t, channel);
        assert(ts[ts.len() - 1].channel != channel);
        assert(t.push(ts.last()) =~= ts);
    }
}

/// Without the one target on a channel, the others are left as they stand.
pub proof fn lemma_without_one(ts: Seq<UdpTarget>, channel: usize, i: int)
    requires
        0 <= i < ts.len(),
        ts[i].channel == channel,
        forall|k: int| 0 <= k < ts.len() && k != i ==> (#[trigger] ts[k]).channel != channel,
    ensures
        without_channel(ts, channel) == ts.remove(i),
    decreases ts.len(),
{
    let t = ts.drop_last();
    let n = ts.len() - 1;
    assert forall|k: int| 0 <= k < t.len() && k != i implies (#[trigger] t[k]).channel
        != channel by {
        assert(t[k] == ts[k]);
    }
    if i == n {
        lemma_without_none(t, channel);
        assert(ts.remove(i) =~= t);
    } else {
        lemma_without_one(t, channel, i);
        assert(ts[n].channel != channel);
        assert(t.remove(i).push(ts.last()) =~= ts.remove(i));
    }
}

fn find_target(ts: &Vec<UdpTarget>, host: &Host, port: u16) -> (r: Option<usize>)
    ensures
        match r {
            Some(c) => exists|i: int|
                0 <= i < ts@.len() && is_target(#[trigger] ts@[i], host@, port) && ts@[i].channel
                    == c,
            None => !has_target(ts@, host@, port),
        },
        r is Some == has_target(ts@, host@, port),
{
    let mut i: usize = 0;
    while i < ts.len()
        invariant
            i <= ts@.len(),
            forall|k: int| 0 <= k < i ==> !is_target(#[trigger] ts@[k], host@, port),
        decreases ts@.len() - i,
    {
        if ts[i].port == port && outbound::same_host(&ts[i].host, host) {
            assert(is_target(ts@[i as int], host@, port));
            return Some(ts[i].channel);
        }
        i += 1;
    }
    None
}

fn uses_channel(ts: &Vec<UdpTarget>, channel: usize) -> (r: bool)
    ensures
        r == has_channel(ts@, channel),
{
    let mut i: usize = 0;
    while i < ts.len()
        invariant
            i <= ts@.len(),
            forall|k: int| 0 <= k < i ==> (#[trigger] ts@[k]).channel != channel,
        decreases ts@.len() - i,
    {
        if ts[i].channel == channel {
            assert(ts@[i as int].channel == channel);
            return true;
        }
        i += 1;
    }
    false
}

fn free_channel(ts: &Vec<UdpTarget>) -> (c: usize)
    requires
        ts@.len() < MAX_TARGETS,
    ensures
        c < MAX_TARGETS,
        !has_channel(ts@, c),
{
    let mut c: usize = 0;
    proof {
        lemma_free_channel(ts@);
    }
    let ghost free = choose|c: usize| c < MAX_TARGETS && !has_channel(ts@, c);
    while uses_channel(ts, c)
        invariant
            c <= free < MAX_TARGETS,
            !has_channel(ts@, free),
        decreases free - c,
    {
        c += 1;
    }
    c
}

impl UdpAssociation {
    /// The association is in order.
    pub open spec fn ok(&self) -> bool {
        targets_ok(self.targets@)
    }

    /// An association that nobody has sent to.
    pub fn new() -> (a: Self)
        ensures
            a.ok(),
            a.client is None,
            a.targets@.len() == 0,
    {
        UdpAssociation { client: None, targets: Vec::new() }
    }

    /// Takes a datagram from `from`.
    pub fn on_datagram(&mut self, from: &SocketAddr, buf: &[u8]) -> (step: UdpStep)
        requires
            old(self).ok(),
        ensures
            final(self).ok(),
            datagram_step(*old(self), *final(self), step, *from, buf@),
    {
        match &self.client {
            None => {},
            Some(c) => {
                if !addr::same_addr(c, from) {
                    return UdpStep::Ignore;
                }
            },
        }
        if self.client.is_none() {
            self.client = Some(*from);
        }
        let (host, port, end) = match decode_udp_header(buf) {
            None => return UdpStep::Ignore,
            Some(x) => x,
        };
        let payload = wire::bytes_of(buf, end, buf.len());
        assert(payload@ =~= buf@.skip(end as int));
        match find_target(&self.targets, &host, port) {
            Some(c) => UdpStep::Forward(c, payload),
            None => {
                if self.targets.len() >= MAX_TARGETS {
                    return UdpStep::Ignore;
                }
                let channel = free_channel(&self.targets);
                let ghost before = self.targets@;
                self.targets.push(UdpTarget { channel, host: host.copy(), port });
                proof {
                    let after = self.targets@;
                    let n = before.len() as int;
                    assert(after.drop_last() =~= before);
                    assert forall|i: int, j: int| 0 <= i < j < after.len() implies (
                    #[trigger] after[i]).channel != (#[trigger] after[j]).channel && !(
                    after[i].host@ == after[j].host@ && after[i].port == after[j].port) by {
                        assert(after[i] == before[i]);
                        if j < n {
                            assert(after[j] == before[j]);
                        } else {
                            assert(before[i].channel != channel);
                            assert(!is_target(before[i], host@, port));
                        }
                    }
                    assert forall|i: int| 0 <= i < after.len() implies (
                    #[trigger] after[i]).channel < MAX_TARGETS by {
                        if i < n {
                            assert(after[i] == before[i]);
                        }
                    }
                }
                UdpStep::Open(channel, host, port, payload)
            },
        }
    }

    /// Releases the target of a channel that has closed.
    pub fn on_closed(&mut self, channel: usize)
        requires
            old(self).ok(),
        ensures
            final(self).ok(),
            final(self).client == old(self).client,
            final(self).targets@ == without_channel(old(self).targets@, channel),
    {
        let ghost all = self.targets@;
        proof {
            lemma_release_keeps_ok(all, channel);
        }
        let mut i: usize = 0;
        while i < self.targets.len()
            invariant
                i <= self.targets@.len(),
                self.targets@ == all,
                all == old(self).targets@,
                targets_ok(without_channel(all, channel)),
                self.client == old(self).client,
                targets_ok(all),
                forall|k: int| 0 <= k < i ==> (#[trigger] all[k]).channel != channel,
            decreases self.targets@.len() - i,
        {
            if self.targets[i].channel == channel {
                proof {
                    lemma_without_one(all, channel, i as int);
                }
                let _released = self.targets.remove(i);
                return;
            }
            i += 1;
        }
        proof {
            lemma_without_none(all, channel);
        }
    }

    /// Wraps what a target sent for the client, once there is one.
    pub fn to_client(&self, from: &SocketAddr, payload: &[u8]) -> (r: Option<
        (SocketAddr, Vec<u8>),
    >)
        ensures
            match self.client {
                Some(c) => r matches Some(x) && x.0 == c && x.1@ == udp_header_bytes(
                    from.ip@,
                    from.port,
                ) + payload@,
                None => r is None,
            },
    {
        match self.client {
            Some(c) => {
                let mut out = encode_udp_header(from);
                wire::push_bytes(&mut out, payload);
                Some((c, out))
            },
            None => None,
        }
    }
}

} // verus!
