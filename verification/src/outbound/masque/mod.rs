//! MASQUE: a QUIC connection to the edge, on which every target gets an HTTP/3
//! CONNECT stream of its own.

pub mod doh;
pub mod huffman;
pub mod qpack;
pub mod tls;

use crate::addr;
use crate::addr::{IpAddr, SocketAddr};
use crate::registration::masque::Registration;
use crate::text;
use crate::wire;
use vstd::prelude::*;
use vstd::utf8::*;

verus! {

/// The server name that the edge is asked for.
pub const SNI: &'static str = "consumer-masque-proxy.cloudflareclient.com";

/// Seconds for dialling the edge.
pub const DIAL_TIMEOUT: u64 = 8;

/// Seconds for sending a request.
pub const EXCHANGE_TIMEOUT: u64 = 15;

/// Seconds for one try to open a stream.
pub const OPEN_TIMEOUT: u64 = 10;

/// Seconds for setting up the control stream.
pub const CONTROL_STREAM_TIMEOUT: u64 = 10;

/// Seconds for opening a stream with a reconnection in between.
pub const OPEN_RETRY_BUDGET: u64 = OPEN_TIMEOUT * 2 + DIAL_TIMEOUT + CONTROL_STREAM_TIMEOUT;

/// Seconds for a stream to be open and connected.
pub const CONNECT_STREAM_TIMEOUT: u64 = OPEN_RETRY_BUDGET + EXCHANGE_TIMEOUT;

/// Seconds that the edge may go on sending after the client has stopped.
pub const DRAIN_GRACE: u64 = 30;

/// Bytes that are relayed at a time.
pub const RELAY_BUF: usize = 65536;

/// Frames that are looked at for the response to a request.
pub const MAX_SKIPPED_FRAMES: usize = 8;

/// The port that is tried last.
pub const LAST_PORT: u16 = 443;

// ---------------------------------------------------------------------------
// Where the edge is

/// The ports other than the last one, in order.
pub open spec fn other_ports(ports: Seq<u16>) -> Seq<u16>
    decreases ports.len(),
{
    if ports.len() == 0 {
        Seq::empty()
    } else if ports.last() == LAST_PORT {
        other_ports(ports.drop_last())
    } else {
        other_ports(ports.drop_last()).push(ports.last())
    }
}

/// The ports to try: the last one is moved to the end, and stands in where
/// there are none.
pub open spec fn port_order(ports: Seq<u16>) -> Seq<u16> {
    if ports.len() == 0 || ports.contains(LAST_PORT) {
        other_ports(ports).push(LAST_PORT)
    } else {
        other_ports(ports)
    }
}

/// The addresses of a host on these ports; none unless it is a literal address.
pub open spec fn addrs_on(host: Seq<char>, ports: Seq<u16>) -> Seq<(Seq<u8>, u16, u32)> {
    match addr::ip_octets(host) {
        Some(o) => Seq::new(ports.len(), |i: int| (o, ports[i], 0u32)),
        None => Seq::empty(),
    }
}

/// Octets, ports and scopes of socket addresses.
pub open spec fn endpoints(v: Seq<SocketAddr>) -> Seq<(Seq<u8>, u16, u32)> {
    Seq::new(v.len(), |i: int| (v[i].ip@, v[i].port, v[i].scope_id))
}

fn order_ports(ports: &Vec<u16>) -> (out: Vec<u16>)
    ensures
        out@ == port_order(ports@),
{
    let mut out: Vec<u16> = Vec::new();
    let mut found: bool = ports.len() == 0;
    let mut i: usize = 0;
    assert(ports@.take(0) =~= Seq::empty());
    while i < ports.len()
        invariant
            i <= ports@.len(),
            out@ == other_ports(ports@.take(i as int)),
            found == (ports@.len() == 0 || ports@.take(i as int).contains(LAST_PORT)),
        decreases ports@.len() - i,
    {
        let ghost before = ports@.take(i as int);
        assert(ports@.take(i + 1).drop_last() =~= before);
        assert(ports@.take(i + 1) =~= before.push(ports@[i as int]));
        if ports[i] == LAST_PORT {
            assert(ports@.take(i + 1)[i as int] == LAST_PORT);
            found = true;
        } else {
            out.push(ports[i]);
            proof {
                let now = ports@.take(i + 1);
                if now.contains(LAST_PORT) {
                    let k = choose|k: int| 0 <= k < now.len() && now[k] == LAST_PORT;
                    assert(before[k] == LAST_PORT);
                }
                if before.contains(LAST_PORT) {
                    let k = choose|k: int| 0 <= k < before.len() && before[k] == LAST_PORT;
                    assert(now[k] == LAST_PORT);
                }
            }
        }
        i += 1;
    }
    assert(ports@.take(i as int) =~= ports@);
    if found {
        out.push(LAST_PORT);
    }
    out
}

fn push_addrs(out: &mut Vec<SocketAddr>, host: &str, ports: &Vec<u16>)
    ensures
        endpoints(final(out)@) == endpoints(old(out)@) + addrs_on(host@, ports@),
{
    let chars = text::chars_of(host);
    match addr::parse_ip(chars.as_slice()) {
        None => {
            assert(endpoints(out@) =~= endpoints(old(out)@) + addrs_on(host@, ports@));
        },
        Some(ip) => {
            let ghost whole = addrs_on(host@, ports@);
            let ghost start = endpoints(out@);
            let mut i: usize = 0;
            assert(start =~= start + whole.take(0));
            while i < ports.len()
                invariant
                    i <= ports@.len(),
                    whole == Seq::new(ports@.len(), |i: int| (ip@, ports@[i], 0u32)),
                    endpoints(out@) == start + whole.take(i as int),
                decreases ports@.len() - i,
            {
                let ghost before = endpoints(out@);
                out.push(SocketAddr::new(ip, ports[i]));
                assert(endpoints(out@) =~= before.push((ip@, ports@[i as int], 0u32)));
                assert(whole.take(i + 1) =~= whole.take(i as int).push((ip@, ports@[i as int], 0u32)));
                assert(endpoints(out@) =~= start + whole.take(i + 1));
                i += 1;
            }
            assert(whole.take(i as int) =~= whole);
        },
    }
}

/// The addresses of the edge, to be dialled all at once.
pub fn edge_addrs(reg: &Registration) -> (out: Vec<SocketAddr>)
    ensures
        endpoints(out@) == addrs_on(reg.endpoint_v4@, port_order(reg.endpoint_ports@)) + addrs_on(
            reg.endpoint_v6@,
            port_order(reg.endpoint_ports@),
        ),
{
    let ports = order_ports(&reg.endpoint_ports);
    let mut out: Vec<SocketAddr> = Vec::new();
    assert(endpoints(out@) =~= Seq::empty());
    push_addrs(&mut out, reg.endpoint_v4.as_str(), &ports);
    push_addrs(&mut out, reg.endpoint_v6.as_str(), &ports);
    assert(endpoints(out@) =~= addrs_on(reg.endpoint_v4@, ports@) + addrs_on(
        reg.endpoint_v6@,
        ports@,
    ));
    out
}

// ---------------------------------------------------------------------------
// The CONNECT exchange

/// Why the edge did not connect.
#[derive(Clone, Copy, Debug, PartialEq, Eq)]
pub enum ConnectError {
    /// Too many frames came before the response.
    NoResponse,
    /// The response cannot be read; the text says why.
    BadResponse(&'static str),
    /// The edge refused with this status.
    Refused(u16),
}

/// `ConnectError` with its text as a sequence.
pub enum ConnectFault {
    NoResponse,
    BadResponse(Seq<char>),
    Refused(u16),
}

impl View for ConnectError {
    type V = ConnectFault;

    open spec fn view(&self) -> ConnectFault {
        match self {
            ConnectError::NoResponse => ConnectFault::NoResponse,
            ConnectError::BadResponse(s) => ConnectFault::BadResponse(s@),
            ConnectError::Refused(n) => ConnectFault::Refused(*n),
        }
    }
}

/// What the bytes behind a request, as far as they have come, call for.
#[derive(Debug, PartialEq, Eq)]
pub enum ConnectRead {
    NeedMore,
    Failed(ConnectError),
    /// The tunnel is open, where the edge landed if it said so, and how many
    /// bytes the response took.
    Open(Option<String>, usize),
}

/// The first HEADERS frame among at most `left` frames: nothing while it may
/// still come, or its payload and the bytes up to its end.
pub enum HeadersFound {
    NotYet,
    TooMany,
    Payload(Seq<u8>, int),
}

/// Looks for the HEADERS frame; frames of other types carry no meaning here and
/// are passed over.
pub open spec fn find_headers(buf: Seq<u8>, pos: int, left: nat) -> HeadersFound
    decreases left,
{
    if left == 0 {
        HeadersFound::TooMany
    } else {
        match qpack::frame_at(buf.skip(pos)) {
            None => HeadersFound::NotYet,
            Some((kind, payload, size)) => if kind == qpack::FRAME_HEADERS {
                HeadersFound::Payload(payload, pos + size)
            } else {
                find_headers(buf, pos + size, (left - 1) as nat)
            },
        }
    }
}

/// What the payload of the response says: where the edge landed, or why there
/// is no tunnel.
pub open spec fn reply_of(payload: Seq<u8>) -> Result<Option<Seq<char>>, ConnectFault> {
    match qpack::section_lines(payload) {
        Err(msg) => Err(ConnectFault::BadResponse(msg)),
        Ok(lines) => match qpack::last_status(lines) {
            None => Err(ConnectFault::BadResponse("响应头中未找到 :status"@)),
            Some(status) => if status != 200 {
                Err(ConnectFault::Refused(status))
            } else {
                Ok(qpack::last_colo(lines))
            },
        },
    }
}

/// Reads the payload of a response.
pub fn read_reply(payload: &[u8]) -> (r: Result<Option<String>, ConnectError>)
    ensures
        match reply_of(payload@) {
            Ok(colo) => r matches Ok(x) && crate::http::string_opt(x) == colo,
            Err(f) => r matches Err(e) && e@ == f,
        },
{
    match qpack::decode_headers(payload) {
        Err(msg) => Err(ConnectError::BadResponse(msg)),
        Ok(h) => if h.status != 200 {
            Err(ConnectError::Refused(h.status))
        } else {
            Ok(h.colo)
        },
    }
}

/// Reads the bytes that have come behind a request.
pub fn read_response(buf: &[u8]) -> (r: ConnectRead)
    ensures
        match find_headers(buf@, 0, MAX_SKIPPED_FRAMES as nat) {
            HeadersFound::NotYet => r == ConnectRead::NeedMore,
            HeadersFound::TooMany => r == ConnectRead::Failed(ConnectError::NoResponse),
            HeadersFound::Payload(payload, end) => match reply_of(payload) {
                Ok(colo) => r matches ConnectRead::Open(x, used) && crate::http::string_opt(x)
                    == colo && used == end && used <= buf@.len(),
                Err(f) => r matches ConnectRead::Failed(e) && e@ == f,
            },
        },
{
    let mut pos: usize = 0;
    let mut left: usize = MAX_SKIPPED_FRAMES;
    while left > 0
        invariant
            pos <= buf@.len(),
            find_headers(buf@, 0, MAX_SKIPPED_FRAMES as nat) == find_headers(
                buf@,
                pos as int,
                left as nat,
            ),
        decreases left,
    {
        let rest = vstd::slice::slice_subrange(buf, pos, buf.len());
        assert(rest@ =~= buf@.skip(pos as int));
        match qpack::read_frame(rest) {
            None => return ConnectRead::NeedMore,
            Some(frame) => {
                if frame.kind == qpack::FRAME_HEADERS {
                    return match read_reply(frame.payload.as_slice()) {
                        Ok(colo) => ConnectRead::Open(colo, pos + frame.size),
                        Err(e) => ConnectRead::Failed(e),
                    };
                }
                pos = pos + frame.size;
            },
        }
        left -= 1;
    }
    ConnectRead::Failed(ConnectError::NoResponse)
}

/// The request for a target: a HEADERS frame with a CONNECT.
pub fn connect_request(authority: &str, token: &str) -> (out: Vec<u8>)
    ensures
        out@ == qpack::frame_bytes(
            qpack::FRAME_HEADERS,
            qpack::connect_section(encode_utf8(authority@), encode_utf8(token@)),
        ),
{
    let section = qpack::encode_connect_request(authority, token);
    qpack::headers_frame(section.as_slice())
}

/// The authority of a target: its address, in brackets where it is IPv6, and
/// its port.
pub fn authority(ip: IpAddr, port: u16) -> (s: String)
    ensures
        s@ == addr::socket_text(ip@, port, 0),
{
    SocketAddr::new(ip, port).to_text()
}

/// What logs show of where the edge landed.
pub fn colo_note(colo: &str) -> (s: String)
    ensures
        s@ == "colo="@ + colo@,
{
    let mut out = text::chars_of("colo=");
    text::push_str(&mut out, colo);
    text::string_of(out.as_slice())
}

// ---------------------------------------------------------------------------
// Tunnelled bytes

/// The tunnelled bytes of the whole frames from `pos` on, and where the last of
/// them ends. Frames other than DATA frames carry none.
pub open spec fn tunnelled(buf: Seq<u8>, pos: int) -> (Seq<u8>, int)
    decreases
            if pos < buf.len() {
                buf.len() - pos
            } else {
                0
            },
{
    match qpack::frame_at(buf.skip(pos)) {
        None => (Seq::empty(), pos),
        Some((kind, payload, size)) => if size <= 0 || pos >= buf.len() {
            (Seq::empty(), pos)
        } else {
            let (more, end) = tunnelled(buf, pos + size);
            (
                if kind == qpack::FRAME_DATA {
                    payload + more
                } else {
                    more
                },
                end,
            )
        },
    }
}

/// Takes the tunnelled bytes out of the whole frames in `buf`, and says how many
/// bytes those frames took.
pub fn take_tunnelled(buf: &[u8]) -> (r: (Vec<u8>, usize))
    ensures
        (r.0@, r.1 as int) == tunnelled(buf@, 0),
        r.1 <= buf@.len(),
{
    let mut out: Vec<u8> = Vec::new();
    let mut pos: usize = 0;
    proof {
        assert(out@ + tunnelled(buf@, 0).0 =~= tunnelled(buf@, 0).0);
    }
    while pos < buf.len()
        invariant
            pos <= buf@.len(),
            tunnelled(buf@, 0) == (out@ + tunnelled(buf@, pos as int).0, tunnelled(
                buf@,
                pos as int,
            ).1),
        decreases buf@.len() - pos,
    {
        let rest = vstd::slice::slice_subrange(buf, pos, buf.len());
        assert(rest@ =~= buf@.skip(pos as int));
        match qpack::read_frame(rest) {
            None => {
                assert(out@ + Seq::<u8>::empty() =~= out@);
                return (out, pos);
            },
            Some(frame) => {
                let ghost before = out@;
                let ghost more = tunnelled(buf@, pos + frame.size).0;
                if frame.kind == qpack::FRAME_DATA {
                    wire::push_bytes(&mut out, frame.payload.as_slice());
                    assert(before + (frame.payload@ + more) =~= out@ + more);
                }
                pos = pos + frame.size;
            },
        }
    }
    proof {
        assert(buf@.skip(pos as int).len() == 0);
        assert(out@ + Seq::<u8>::empty() =~= out@);
    }
    (out, pos)
}

/// Bytes that were framed are the first that come out of the frames.
pub proof fn lemma_tunnelled_read_back(payload: Seq<u8>, after: Seq<u8>)
    requires
        payload.len() < 0x4000_0000_0000_0000,
    ensures
        ({
            let frame = qpack::frame_bytes(qpack::FRAME_DATA, payload);
            let buf = frame + after;
            let (more, end) = tunnelled(buf, frame.len() as int);
            tunnelled(buf, 0) == (payload + more, end)
        }),
{
    let frame = qpack::frame_bytes(qpack::FRAME_DATA, payload);
    let buf = frame + after;
    qpack::lemma_frame_read_back(qpack::FRAME_DATA, payload, after);
    qpack::lemma_varint_read_back(qpack::FRAME_DATA, Seq::empty());
    assert(buf.skip(0) =~= buf);
    assert(frame.len() > 0);
}

/// Chunks one after the other, each in a DATA frame of its own.
pub open spec fn framed(chunks: Seq<Seq<u8>>) -> Seq<u8>
    decreases chunks.len(),
{
    if chunks.len() == 0 {
        Seq::empty()
    } else {
        qpack::frame_bytes(qpack::FRAME_DATA, chunks[0]) + framed(chunks.drop_first())
    }
}

/// Chunks one after the other.
pub open spec fn joined(chunks: Seq<Seq<u8>>) -> Seq<u8>
    decreases chunks.len(),
{
    if chunks.len() == 0 {
        Seq::empty()
    } else {
        chunks[0] + joined(chunks.drop_first())
    }
}

/// However a stream of bytes was cut into frames, the same bytes come out of
/// them, and nothing of the frames is left.
pub proof fn lemma_stream_read_back(before: Seq<u8>, chunks: Seq<Seq<u8>>)
    requires
        forall|i: int| 0 <= i < chunks.len() ==> (#[trigger] chunks[i]).len()
            < 0x4000_0000_0000_0000,
    ensures
        tunnelled(before + framed(chunks), before.len() as int) == (
            joined(chunks),
            (before + framed(chunks)).len() as int,
        ),
    decreases chunks.len(),
{
    let buf = before + framed(chunks);
    let pos = before.len() as int;
    assert(buf.skip(pos) =~= framed(chunks));
    if chunks.len() > 0 {
        let rest = chunks.drop_first();
        let frame = qpack::frame_bytes(qpack::FRAME_DATA, chunks[0]);
        qpack::lemma_frame_read_back(qpack::FRAME_DATA, chunks[0], framed(rest));
        qpack::lemma_varint_read_back(qpack::FRAME_DATA, Seq::empty());
        assert(frame.len() > 0);
        assert forall|i: int| 0 <= i < rest.len() implies (#[trigger] rest[i]).len()
            < 0x4000_0000_0000_0000 by {
            assert(rest[i] == chunks[i + 1]);
        }
        lemma_stream_read_back(before + frame, rest);
        assert(buf =~= (before + frame) + framed(rest));
    }
}

// ---------------------------------------------------------------------------
// Opening a stream

/// What opening a stream calls for.
#[derive(Clone, Copy, Debug, PartialEq, Eq, Structural)]
pub enum OpenStep {
    /// Try to open a stream on the present connection.
    Open,
    /// Wait for the right to reconnect.
    Reconnect,
    /// Dial the edge, and put the new connection in the place of the old one.
    Dial,
    /// Hand out the stream.
    Done,
    /// Give up.
    Fail,
}

/// A connection that is known to be closed is not tried.
pub fn first_step(closed: bool) -> (s: OpenStep)
    ensures
        s == if closed {
            OpenStep::Reconnect
        } else {
            OpenStep::Open
        },
        s is Open <==> !closed,
{
    if closed {
        OpenStep::Reconnect
    } else {
        OpenStep::Open
    }
}

/// What follows a try to open a stream; `again` marks the try after a
/// reconnection.
pub fn after_open(opened: bool, again: bool) -> (s: OpenStep)
    ensures
        s == if opened {
            OpenStep::Done
        } else if again {
            OpenStep::Fail
        } else {
            OpenStep::Reconnect
        },
        s is Done <==> opened,
        s is Fail <==> !opened && again,
{
    if opened {
        OpenStep::Done
    } else if again {
        OpenStep::Fail
    } else {
        OpenStep::Reconnect
    }
}

/// Whoever gets the right to reconnect dials only if the connection is still the
/// one that failed.
pub fn after_wait(failed: usize, present: usize) -> (s: OpenStep)
    ensures
        s == if failed == present {
            OpenStep::Dial
        } else {
            OpenStep::Open
        },
        s is Dial <==> failed == present,
{
    if failed == present {
        OpenStep::Dial
    } else {
        OpenStep::Open
    }
}

} // verus!
