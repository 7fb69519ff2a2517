//! WireGuard: packets through `boringtun`, with the three reserved bytes that
//! mark a client, and decoy packets before a handshake.

use crate::config::WgConfig;
use crate::system;
use crate::text;
use crate::wire;
use boringtun::noise::{Tunn, TunnResult};
use vstd::prelude::*;

verus! {

/// The largest packet inside the tunnel.
pub const TUNNEL_MTU: usize = 1330;

/// Room for one packet on the network.
pub const PACKET_BUF: usize = 2048;

/// What WireGuard adds to a packet.
pub const PACKET_OVERHEAD: usize = 32;

/// How many packets wait for a session at most.
pub const QUEUE_LIMIT: usize = 256;

/// The largest number of a data message that is read.
pub const LAST_COUNTER: u64 = 0xffff_ffff_ffff_fbff;

/// Seconds between keepalive packets.
pub const KEEPALIVE: u16 = 5;

/// Milliseconds between two looks at the timers.
pub const TICK_MS: u64 = 250;

/// Milliseconds that a handshake waits for a packet at a time.
pub const PUMP_MS: u64 = 500;

/// How a handshake is disguised.
#[derive(Clone, Copy, PartialEq, Eq, Debug, Structural)]
pub enum Trick {
    /// Not at all.
    Off,
    /// By packets of random bytes.
    T1,
    /// By packets that look like the beginning of QUIC.
    T2,
}

impl Trick {
    /// The disguise of this name: `none`, `t1` or `t2`.
    pub open spec fn of_name(name: Seq<char>) -> Option<Trick> {
        if name == "none"@ {
            Some(Trick::Off)
        } else if name == "t1"@ {
            Some(Trick::T1)
        } else if name == "t2"@ {
            Some(Trick::T2)
        } else {
            None
        }
    }

    /// The disguise of this name, if it is one.
    pub fn named(name: &str) -> (t: Option<Trick>)
        ensures
            t == Self::of_name(name@),
    {
        if text::same_text(name, "none") {
            Some(Trick::Off)
        } else if text::same_text(name, "t1") {
            Some(Trick::T1)
        } else if text::same_text(name, "t2") {
            Some(Trick::T2)
        } else {
            None
        }
    }
}

// ---------------------------------------------------------------------------
// Reserved bytes

/// A WireGuard message, by its type.
pub open spec fn is_message(p: Seq<u8>) -> bool {
    p.len() > 3 && 0 < p[0] < 5
}

/// A packet with the reserved bytes set; other packets stay as they are.
pub open spec fn patched(p: Seq<u8>, r: Seq<u8>) -> Seq<u8> {
    if is_message(p) {
        p.update(1, r[0]).update(2, r[1]).update(3, r[2])
    } else {
        p
    }
}

/// A packet with the reserved bytes cleared.
pub open spec fn stripped(p: Seq<u8>) -> Seq<u8> {
    patched(p, seq![0u8, 0, 0])
}

/// Sets the reserved bytes of a packet that goes out.
pub fn patch_reserved(packet: &mut Vec<u8>, reserved: &[u8; 3])
    ensures
        final(packet)@ == patched(old(packet)@, reserved@),
{
    if packet.len() > 3 && packet[0] > 0 && packet[0] < 5 {
        packet.set(1, reserved[0]);
        packet.set(2, reserved[1]);
        packet.set(3, reserved[2]);
    }
}

/// Clears the reserved bytes of a packet that came in: the protocol reads them
/// as part of the type.
pub fn strip_reserved(packet: &mut Vec<u8>)
    ensures
        final(packet)@ == stripped(old(packet)@),
{
    let zero: [u8; 3] = [0, 0, 0];
    assert(zero@ =~= seq![0u8, 0, 0]);
    patch_reserved(packet, &zero);
}

/// What the protocol is handed of a packet that came in: the packet with its
/// reserved bytes cleared, or nothing where it fits no buffer.
pub fn cleared(packet: Vec<u8>) -> (r: Option<Vec<u8>>)
    ensures
        match r {
            Some(p) => packet@.len() <= PACKET_BUF && p@ == stripped(packet@),
            None => packet@.len() > PACKET_BUF,
        },
        r matches Some(p) ==> p@.len() == packet@.len(),
{
    if packet.len() > PACKET_BUF {
        return None;
    }
    let mut packet = packet;
    strip_reserved(&mut packet);
    Some(packet)
}

/// Clearing undoes setting, on a packet whose reserved bytes were clear.
pub proof fn lemma_strip_undoes_patch(p: Seq<u8>, r: Seq<u8>)
    requires
        r.len() == 3,
        is_message(p) ==> p[1] == 0 && p[2] == 0 && p[3] == 0,
    ensures
        stripped(patched(p, r)) == p,
{
    assert(stripped(patched(p, r)) =~= p);
}

// ---------------------------------------------------------------------------
// The protocol

/// `boringtun::noise::Tunn`: one end of a WireGuard tunnel, without sockets.
#[verifier::external_type_specification]
#[verifier::external_body]
pub struct ExTunn(boringtun::noise::Tunn);

/// A message that the protocol writes, or reads at all: its reserved bytes are
/// clear and its type has this length.
pub open spec fn is_wireguard(p: Seq<u8>) -> bool {
    &&& p.len() > 3
    &&& p[1] == 0 && p[2] == 0 && p[3] == 0
    &&& match p[0] {
        1 => p.len() == 148,
        2 => p.len() == 92,
        3 => p.len() == 64,
        4 => p.len() >= PACKET_OVERHEAD,
        _ => false,
    }
}

/// The number of a data message: the eight bytes behind the index of its receiver,
/// the low one first.
pub open spec fn counter_of(p: Seq<u8>) -> int {
    p[8] + 0x100 * p[9] + 0x1_0000 * p[10] + 0x100_0000 * p[11] + 0x1_0000_0000 * p[12]
        + 0x100_0000_0000 * p[13] + 0x1_0000_0000_0000 * p[14] + 0x100_0000_0000_0000 * p[15]
}

/// A data message.
pub open spec fn is_data(p: Seq<u8>) -> bool {
    is_wireguard(p) && p[0] == 4
}

/// A data message with a number so large that the numbers of its session have run
/// out.
pub open spec fn is_exhausted(p: Seq<u8>) -> bool {
    is_data(p) && counter_of(p) > LAST_COUNTER
}

/// Whether a packet is a data message whose number is too large.
pub fn exhausted(p: &[u8]) -> (r: bool)
    ensures
        r == is_exhausted(p@),
{
    if p.len() < PACKET_OVERHEAD || p[0] != 4 || p[1] != 0 || p[2] != 0 || p[3] != 0 {
        return false;
    }
    let counter: u64 = p[8] as u64 + 0x100 * p[9] as u64 + 0x1_0000 * p[10] as u64 + 0x100_0000
        * p[11] as u64 + 0x1_0000_0000 * p[12] as u64 + 0x100_0000_0000 * p[13] as u64
        + 0x1_0000_0000_0000 * p[14] as u64 + 0x100_0000_0000_0000 * p[15] as u64;
    counter > LAST_COUNTER
}

/// The message that begins a handshake.
pub open spec fn begins(p: Seq<u8>) -> bool {
    is_wireguard(p) && p[0] == 1
}

/// The message that wraps `len` bytes.
pub open spec fn wraps(p: Seq<u8>, len: int) -> bool {
    is_wireguard(p) && p[0] == 4 && p.len() == len + PACKET_OVERHEAD
}

/// The message that answers this one.
pub open spec fn answers(p: Seq<u8>, datagram: Seq<u8>) -> bool {
    is_wireguard(p) && (datagram[0] == 1 && p[0] == 2 || datagram[0] == 2 && wraps(p, 0))
}

/// What is known of one end of a tunnel.
#[verifier::ext_equal]
pub struct TunnState {
    /// The packets that wait for a session, the oldest first.
    pub waiting: Seq<Seq<u8>>,
    /// There is a session to wrap packets with.
    pub session: bool,
    /// A handshake was begun, and is neither finished nor given up.
    pub underway: bool,
    /// The private key of this end.
    pub private_key: Seq<u8>,
    /// The public key of the other end.
    pub peer: Seq<u8>,
    /// Seconds between keepalive packets.
    pub keepalive: u16,
}

/// The state of one end of a tunnel: the packets in its queue, whether its current
/// session is there, which is whether `Tunn::time_since_last_handshake` knows of
/// one, whether it refuses to begin a handshake because one is in progress, and what
/// it was made with.
pub uninterp spec fn tunn_state(t: Tunn) -> TunnState;

/// The message that `Tunn::encapsulate` wraps a packet in with the current session of
/// a tunnel: encrypted under the keys of the session and the number of the message.
pub uninterp spec fn sealed(t: Tunn, packet: Seq<u8>) -> Seq<u8>;

/// The packet that `Tunn::decapsulate` finds in a data message: nothing where no
/// session of the tunnel can decrypt it, where its number came before or is too old,
/// and where it holds no IP packet.
pub uninterp spec fn opened(t: Tunn, datagram: Seq<u8>) -> Option<Seq<u8>>;

/// Whether `Tunn::decapsulate` accepts a message that begins a handshake, and answers
/// it: it is sealed with the keys of both ends, newer than the one before, and not one
/// too many for the limiter of the tunnel.
pub uninterp spec fn accepted(t: Tunn, datagram: Seq<u8>) -> bool;

/// The packet that `Tunn::decapsulate` sends when a response completes a handshake
/// that the tunnel began: it wraps nothing, with the session of that handshake. None
/// comes where the response does not complete one.
pub uninterp spec fn completion(t: Tunn, datagram: Seq<u8>) -> Option<Seq<u8>>;

/// The state of an end that was just made.
pub open spec fn made_with(private_key: Seq<u8>, peer: Seq<u8>, keepalive: u16) -> TunnState {
    TunnState {
        waiting: Seq::empty(),
        session: false,
        underway: false,
        private_key,
        peer,
        keepalive,
    }
}

/// Two states of ends that were made with the same keys and the same time between
/// keepalive packets.
pub open spec fn same_ends(s: TunnState, after: TunnState) -> bool {
    s.private_key == after.private_key && s.peer == after.peer && s.keepalive == after.keepalive
}

/// The packets that wait once one more is to: a full queue drops it.
pub open spec fn kept(waiting: Seq<Seq<u8>>, packet: Seq<u8>) -> Seq<Seq<u8>> {
    if waiting.len() < QUEUE_LIMIT {
        waiting.push(packet)
    } else {
        waiting
    }
}

/// The state after a handshake was to begin.
pub open spec fn after_begin(s: TunnState) -> TunnState {
    TunnState { underway: true, ..s }
}

/// The state after a packet was to be wrapped: without a session it waits, and a
/// handshake is underway.
pub open spec fn after_wrap(s: TunnState, packet: Seq<u8>) -> TunnState {
    if s.session {
        s
    } else {
        after_begin(TunnState { waiting: kept(s.waiting, packet), ..s })
    }
}

/// The state after the oldest packet that waits was to be wrapped.
pub open spec fn after_drain(s: TunnState) -> TunnState {
    if s.waiting.len() == 0 {
        s
    } else {
        after_wrap(TunnState { waiting: s.waiting.drop_first(), ..s }, s.waiting[0])
    }
}

/// Every packet that waits can be wrapped.
pub open spec fn waiting_fits(s: TunnState) -> bool {
    forall|i: int|
        0 <= i < s.waiting.len() ==> (#[trigger] s.waiting[i]).len() + PACKET_OVERHEAD <= PACKET_BUF
}

/// What the protocol wants done.
#[derive(Debug, PartialEq, Eq)]
pub enum TunnOutput {
    Done,
    Failed,
    /// Send this packet to the peer.
    ToNetwork(Vec<u8>),
    /// This packet came through the tunnel.
    ToTunnel(Vec<u8>),
}

/// What comes of beginning a handshake: its first message, or nothing while one is
/// underway.
pub open spec fn begun(out: TunnOutput, s: TunnState) -> bool {
    if s.underway {
        out is Done
    } else {
        out matches TunnOutput::ToNetwork(p) && begins(p@)
    }
}

/// What comes of wrapping `len` bytes: they are wrapped, or without a session a
/// handshake begins.
pub open spec fn wrapped(out: TunnOutput, s: TunnState, len: int) -> bool {
    if s.session {
        out matches TunnOutput::ToNetwork(p) && wraps(p@, len)
    } else {
        begun(out, s)
    }
}

/// What comes of wrapping the oldest packet that waits: nothing if none does.
pub open spec fn drained(out: TunnOutput, s: TunnState) -> bool {
    if s.waiting.len() == 0 {
        out is Done
    } else {
        wrapped(out, s, s.waiting[0].len() as int)
    }
}

/// What may come of a datagram in the state `s`, with the state `after` behind it. One
/// that is no message is refused, and changes nothing. A handshake message may be
/// answered, and wrapped data may come out; after the answer to a response, and
/// after data, there is a session. Where no handshake message is answered and no data
/// is read, nothing changes. No session is lost, and what waits goes on to.
pub open spec fn decapsulated(
    out: TunnOutput,
    datagram: Seq<u8>,
    s: TunnState,
    after: TunnState,
) -> bool {
    &&& same_ends(s, after)
    &&& after.waiting == s.waiting
    &&& s.session ==> after.session
    &&& !is_wireguard(datagram) ==> out is Failed && after == s
    &&& is_wireguard(datagram) && datagram[0] != 4 && out !is ToNetwork ==> after == s
    &&& datagram[0] == 1 && out is ToNetwork ==> !after.underway
    &&& is_data(datagram) ==> after.underway == s.underway
    &&& out matches TunnOutput::ToNetwork(p) ==> answers(p@, datagram) && (p@[0] == 4
        ==> after.session)
    &&& out matches TunnOutput::ToTunnel(p) ==> datagram[0] == 4 && p@.len() + PACKET_OVERHEAD
        <= datagram.len() && after.session
}

/// What waits goes on to, perhaps with an empty packet behind it, or is dropped.
pub open spec fn waits_on(s: TunnState, after: TunnState) -> bool {
    ||| after.waiting == s.waiting
    ||| after.waiting == kept(s.waiting, Seq::empty())
    ||| after.waiting == Seq::<Seq<u8>>::empty()
}

/// A message that the timers call for: it begins a handshake, or wraps nothing.
pub open spec fn is_due(p: Seq<u8>, s: TunnState, after: TunnState) -> bool {
    ||| begins(p) && after.underway
    ||| wraps(p, 0) && after.session && after.waiting == s.waiting
}

/// What may come of a look at the timers in the state `s`, with the state `after`
/// behind it: a message, or an error where the tunnel has expired and no handshake
/// is underway. No session begins.
pub open spec fn ticked(out: TunnOutput, s: TunnState, after: TunnState) -> bool {
    &&& same_ends(s, after)
    &&& out !is ToTunnel
    &&& after.session ==> s.session
    &&& waits_on(s, after)
    &&& out is Failed ==> !after.underway
    &&& out matches TunnOutput::ToNetwork(p) ==> is_due(p@, s, after)
}

/// `Tunn::new` with these keys, without a preshared key, with the index zero: nothing
/// waits, no handshake has begun. The state that it makes also holds chance and the
/// time.
#[verifier::external_body]
fn tunn_new(private_key: &[u8; 32], peer_public_key: &[u8; 32], keepalive: u16) -> (t: Tunn)
    ensures
        tunn_state(t) == made_with(private_key@, peer_public_key@, keepalive),
{
    let secret = boringtun::x25519::StaticSecret::from(*private_key);
    let peer = boringtun::x25519::PublicKey::from(*peer_public_key);
    Tunn::new(secret, peer, None, Some(keepalive), 0, None)
}

/// `Tunn::format_handshake_initiation`, unforced, into a buffer of
/// `PACKET_BUF` bytes, which has room for it. A packet comes unless a handshake is
/// in progress. It holds an ephemeral key and a timestamp; only its form is claimed.
#[verifier::external_body]
fn tunn_initiate(t: &mut Tunn) -> (out: TunnOutput)
    ensures
        begun(out, tunn_state(*old(t))),
        tunn_state(*final(t)) == after_begin(tunn_state(*old(t))),
{
    let mut buf = [0u8; PACKET_BUF];
    match t.format_handshake_initiation(&mut buf, false) {
        TunnResult::Done => TunnOutput::Done,
        TunnResult::Err(_) => TunnOutput::Failed,
        TunnResult::WriteToNetwork(p) => TunnOutput::ToNetwork(p.to_vec()),
        TunnResult::WriteToTunnelV4(p, _) => TunnOutput::ToTunnel(p.to_vec()),
        TunnResult::WriteToTunnelV6(p, _) => TunnOutput::ToTunnel(p.to_vec()),
    }
}

/// `Tunn::decapsulate` without a source address, into a buffer of `PACKET_BUF`
/// bytes, which must hold what is decrypted and each packet that waits once it is
/// wrapped. No datagram stands for wrapping the oldest packet that waits. A datagram
/// that is no message is refused. Of a data message the packet in it comes out, if there
/// is one; its number must leave room for the window of the numbers that came. A
/// beginning that is accepted is answered, and a response that completes a handshake
/// too. The answer to a beginning holds chance: only its form is claimed.
#[verifier::external_body]
fn tunn_decapsulate(t: &mut Tunn, datagram: &[u8]) -> (out: TunnOutput)
    requires
        datagram@.len() <= PACKET_BUF,
        !is_exhausted(datagram@),
        waiting_fits(tunn_state(*old(t))),
    ensures
        datagram@.len() == 0 ==> drained(out, tunn_state(*old(t))) && tunn_state(*final(t))
            == after_drain(tunn_state(*old(t))),
        datagram@.len() > 0 ==> decapsulated(
            out,
            datagram@,
            tunn_state(*old(t)),
            tunn_state(*final(t)),
        ),
        datagram@.len() == 0 && tunn_state(*old(t)).waiting.len() > 0 && tunn_state(
            *old(t),
        ).session ==> (out matches TunnOutput::ToNetwork(p) && p@ == sealed(
            *old(t),
            tunn_state(*old(t)).waiting[0],
        )),
        is_data(datagram@) ==> match opened(*old(t), datagram@) {
            Some(q) => out matches TunnOutput::ToTunnel(p) && p@ == q,
            None => out is Done || out is Failed,
        },
        begins(datagram@) ==> (out is ToNetwork <==> accepted(*old(t), datagram@)),
        is_wireguard(datagram@) && datagram@[0] == 2 ==> match completion(*old(t), datagram@) {
            Some(q) => out matches TunnOutput::ToNetwork(p) && p@ == q,
            None => out is Failed,
        },
{
    let mut buf = [0u8; PACKET_BUF];
    match t.decapsulate(None, datagram, &mut buf) {
        TunnResult::Done => TunnOutput::Done,
        TunnResult::Err(_) => TunnOutput::Failed,
        TunnResult::WriteToNetwork(p) => TunnOutput::ToNetwork(p.to_vec()),
        TunnResult::WriteToTunnelV4(p, _) => TunnOutput::ToTunnel(p.to_vec()),
        TunnResult::WriteToTunnelV6(p, _) => TunnOutput::ToTunnel(p.to_vec()),
    }
}

/// `Tunn::encapsulate` into a buffer of `PACKET_BUF` bytes, which must have room
/// for the packet and what WireGuard adds. With a session the packet is wrapped.
/// Without one it waits, and a handshake begins unless one is in progress. The message
/// that begins it holds chance and the time: only its form is claimed.
#[verifier::external_body]
fn tunn_encapsulate(t: &mut Tunn, packet: &[u8]) -> (out: TunnOutput)
    requires
        packet@.len() + PACKET_OVERHEAD <= PACKET_BUF,
    ensures
        wrapped(out, tunn_state(*old(t)), packet@.len() as int),
        tunn_state(*final(t)) == after_wrap(tunn_state(*old(t)), packet@),
        tunn_state(*old(t)).session ==> (out matches TunnOutput::ToNetwork(p) && p@ == sealed(
            *old(t),
            packet@,
        )),
{
    let mut buf = [0u8; PACKET_BUF];
    match t.encapsulate(packet, &mut buf) {
        TunnResult::Done => TunnOutput::Done,
        TunnResult::Err(_) => TunnOutput::Failed,
        TunnResult::WriteToNetwork(p) => TunnOutput::ToNetwork(p.to_vec()),
        TunnResult::WriteToTunnelV4(p, _) => TunnOutput::ToTunnel(p.to_vec()),
        TunnResult::WriteToTunnelV6(p, _) => TunnOutput::ToTunnel(p.to_vec()),
    }
}

/// `Tunn::update_timers` with a buffer of `PACKET_BUF` bytes. What is due depends
/// on the time, and is not stated: it is the beginning of a handshake or a packet that
/// wraps nothing, and an expired tunnel is an error.
#[verifier::external_body]
fn tunn_update_timers(t: &mut Tunn) -> (out: TunnOutput)
    ensures
        ticked(out, tunn_state(*old(t)), tunn_state(*final(t))),
        out matches TunnOutput::ToNetwork(p) ==> wraps(p@, 0) ==> p@ == sealed(
            *old(t),
            Seq::empty(),
        ),
{
    let mut buf = [0u8; PACKET_BUF];
    match t.update_timers(&mut buf) {
        TunnResult::Done => TunnOutput::Done,
        TunnResult::Err(_) => TunnOutput::Failed,
        TunnResult::WriteToNetwork(p) => TunnOutput::ToNetwork(p.to_vec()),
        TunnResult::WriteToTunnelV4(p, _) => TunnOutput::ToTunnel(p.to_vec()),
        TunnResult::WriteToTunnelV6(p, _) => TunnOutput::ToTunnel(p.to_vec()),
    }
}

/// Whether `Tunn::time_since_last_handshake` knows of one.
#[verifier::external_body]
fn tunn_is_established(t: &Tunn) -> (r: bool)
    ensures
        r == tunn_state(*t).session,
{
    t.time_since_last_handshake().is_some()
}

/// One end of a tunnel, with the bytes that mark its packets and its disguise.
pub struct WgCore {
    tunn: Tunn,
    reserved: [u8; 3],
    trick: Trick,
}

/// What a packet that came in calls for.
#[derive(Debug, PartialEq, Eq)]
pub enum Inbound {
    /// Nothing more.
    Idle,
    /// Send this, and ask again with `drain`.
    Send(Vec<u8>),
    /// Hand this packet to the network stack.
    Deliver(Vec<u8>),
}

/// `Inbound` in terms of sequences.
pub enum InboundView {
    Idle,
    Send(Seq<u8>),
    Deliver(Seq<u8>),
}

impl View for Inbound {
    type V = InboundView;

    open spec fn view(&self) -> InboundView {
        match self {
            Inbound::Idle => InboundView::Idle,
            Inbound::Send(p) => InboundView::Send(p@),
            Inbound::Deliver(p) => InboundView::Deliver(p@),
        }
    }
}

/// What the outcome of a packet that came in calls for: what goes out is
/// marked, and an error is passed over.
pub open spec fn inbound_of(out: TunnOutput, reserved: Seq<u8>) -> InboundView {
    match out {
        TunnOutput::Done => InboundView::Idle,
        TunnOutput::Failed => InboundView::Idle,
        TunnOutput::ToNetwork(p) => InboundView::Send(patched(p@, reserved)),
        TunnOutput::ToTunnel(p) => InboundView::Deliver(p@),
    }
}

/// What the outcome of a packet that came in calls for.
pub fn inbound(out: TunnOutput, reserved: &[u8; 3]) -> (r: Inbound)
    ensures
        r@ == inbound_of(out, reserved@),
{
    match out {
        TunnOutput::Done => Inbound::Idle,
        TunnOutput::Failed => Inbound::Idle,
        TunnOutput::ToNetwork(p) => {
            let mut packet = p;
            patch_reserved(&mut packet, reserved);
            Inbound::Send(packet)
        },
        TunnOutput::ToTunnel(p) => Inbound::Deliver(p),
    }
}

/// The protocol gave what it should not.
#[derive(Clone, Copy, Debug, PartialEq, Eq, Structural)]
pub struct ProtocolError;

/// The packet of an outcome that must be one for the network or, where
/// `optional`, nothing: marked, or an error for anything else.
pub open spec fn outbound_of(out: TunnOutput, optional: bool, reserved: Seq<u8>) -> Result<
    Option<Seq<u8>>,
    ProtocolError,
> {
    match out {
        TunnOutput::ToNetwork(p) => Ok(Some(patched(p@, reserved))),
        TunnOutput::Done => if optional {
            Ok(None)
        } else {
            Err(ProtocolError)
        },
        _ => Err(ProtocolError),
    }
}

/// Takes the packet out of an outcome, marked.
pub fn outbound(out: TunnOutput, optional: bool, reserved: &[u8; 3]) -> (r: Result<
    Option<Vec<u8>>,
    ProtocolError,
>)
    ensures
        match outbound_of(out, optional, reserved@) {
            Ok(Some(p)) => r matches Ok(Some(x)) && x@ == p,
            Ok(None) => r == Ok::<Option<Vec<u8>>, ProtocolError>(None),
            Err(e) => r == Err::<Option<Vec<u8>>, ProtocolError>(e),
        },
{
    match out {
        TunnOutput::ToNetwork(p) => {
            let mut packet = p;
            patch_reserved(&mut packet, reserved);
            Ok(Some(packet))
        },
        TunnOutput::Done => if optional {
            Ok(None)
        } else {
            Err(ProtocolError)
        },
        _ => Err(ProtocolError),
    }
}

/// A message of the protocol but for its reserved bytes, which are these.
pub open spec fn is_marked(p: Seq<u8>, reserved: Seq<u8>) -> bool {
    &&& is_wireguard(stripped(p))
    &&& p[1] == reserved[0] && p[2] == reserved[1] && p[3] == reserved[2]
}

/// A message of the protocol is marked by setting its reserved bytes, and the
/// other end gets the message back by clearing them.
pub proof fn lemma_message_is_marked(p: Seq<u8>, r: Seq<u8>)
    requires
        r.len() == 3,
        is_wireguard(p),
    ensures
        is_marked(patched(p, r), r),
        stripped(patched(p, r)) == p,
        patched(p, r).len() == p.len(),
        patched(p, r)[0] == p[0],
{
    lemma_strip_undoes_patch(p, r);
}

/// A packet that is dropped before it is read, or as no message: it fits no buffer, it
/// is no message of the protocol, or its number is too large.
pub open spec fn is_dropped(packet: Seq<u8>) -> bool {
    ||| packet.len() > PACKET_BUF
    ||| packet.len() > 0 && !is_wireguard(stripped(packet))
    ||| is_exhausted(stripped(packet))
}

/// A message goes out, marked.
pub open spec fn sends(r: InboundView, reserved: Seq<u8>) -> bool {
    r matches InboundView::Send(p) && is_marked(p, reserved)
}

impl WgCore {
    /// The bytes that mark its packets.
    pub closed spec fn marks(&self) -> Seq<u8> {
        self.reserved@
    }

    /// How its handshake is disguised.
    pub closed spec fn disguise(&self) -> Trick {
        self.trick
    }

    /// What waits, and how far a handshake is.
    pub closed spec fn state(&self) -> TunnState {
        tunn_state(self.tunn)
    }

    /// The message that wraps a packet with its session.
    pub closed spec fn seals(&self, packet: Seq<u8>) -> Seq<u8> {
        sealed(self.tunn, packet)
    }

    /// The packet in a data message, if there is one that it can decrypt.
    pub closed spec fn opens(&self, datagram: Seq<u8>) -> Option<Seq<u8>> {
        opened(self.tunn, datagram)
    }

    /// Whether it accepts a message that begins a handshake.
    pub closed spec fn accepts(&self, datagram: Seq<u8>) -> bool {
        accepted(self.tunn, datagram)
    }

    /// The message that it sends when a response completes its handshake.
    pub closed spec fn completes(&self, datagram: Seq<u8>) -> Option<Seq<u8>> {
        completion(self.tunn, datagram)
    }

    /// What wrapping the oldest packet that waits calls for: nothing if none waits, and
    /// without a session the beginning of a handshake unless one is underway.
    pub open spec fn drains(&self, r: InboundView) -> bool {
        let s = self.state();
        if s.waiting.len() == 0 || !s.session && s.underway {
            r is Idle
        } else {
            &&& sends(r, self.marks())
            &&& if s.session {
                &&& r->Send_0 == patched(self.seals(s.waiting[0]), self.marks())
                &&& wraps(stripped(r->Send_0), s.waiting[0].len() as int)
            } else {
                begins(stripped(r->Send_0))
            }
        }
    }

    /// Every packet that waits for a session can be wrapped.
    pub open spec fn ok(&self) -> bool {
        waiting_fits(self.state())
    }

    /// One end of the tunnel that a configuration describes.
    pub fn new(config: &WgConfig, trick: Trick) -> (w: Self)
        ensures
            w.ok(),
            w.marks() == config.reserved@,
            w.disguise() == trick,
            w.state() == made_with(config.private_key@, config.peer_public_key@, KEEPALIVE),
            w.state().keepalive == 5,
    {
        WgCore {
            tunn: tunn_new(&config.private_key, &config.peer_public_key, KEEPALIVE),
            reserved: config.reserved,
            trick,
        }
    }

    /// The packet that begins a handshake; an error while one is underway.
    pub fn initiate(&mut self) -> (r: Result<Vec<u8>, ProtocolError>)
        requires
            old(self).ok(),
        ensures
            final(self).ok(),
            final(self).marks() == old(self).marks(),
            final(self).disguise() == old(self).disguise(),
            final(self).state() == after_begin(old(self).state()),
            match r {
                Ok(p) => {
                    &&& !old(self).state().underway
                    &&& is_marked(p@, old(self).marks())
                    &&& begins(stripped(p@))
                },
                Err(_) => old(self).state().underway,
            },
    {
        let out = tunn_initiate(&mut self.tunn);
        proof {
            if out is ToNetwork {
                lemma_message_is_marked(out->ToNetwork_0@, self.reserved@);
            }
        }
        match outbound(out, false, &self.reserved) {
            Ok(Some(p)) => Ok(p),
            _ => Err(ProtocolError),
        }
    }

    /// Takes a packet from the network. One that fits no buffer is dropped, and so
    /// is one that is no message of the protocol and a data message whose number is too
    /// large. Its reserved bytes are cleared before it is read. A beginning that is
    /// accepted is answered, a response that completes a handshake too, and what a data
    /// message holds is delivered. An empty packet asks for what waits, as `drain` does.
    pub fn on_network(&mut self, packet: Vec<u8>) -> (r: Inbound)
        requires
            old(self).ok(),
        ensures
            final(self).ok(),
            final(self).marks() == old(self).marks(),
            final(self).disguise() == old(self).disguise(),
            packet@.len() == 0 ==> {
                &&& old(self).drains(r@)
                &&& final(self).state() == after_drain(old(self).state())
            },
            packet@.len() > 0 ==> {
                &&& same_ends(old(self).state(), final(self).state())
                &&& final(self).state().waiting == old(self).state().waiting
                &&& old(self).state().session ==> final(self).state().session
            },
            is_dropped(packet@) ==> r@ is Idle && final(self).state() == old(self).state(),
            packet@.len() > 0 && r@ is Send ==> {
                &&& sends(r@, old(self).marks())
                &&& answers(stripped(r@->Send_0), stripped(packet@))
            },
            !is_dropped(packet@) && packet@.len() > 0 && packet@[0] == 1 ==> {
                &&& r@ is Send <==> old(self).accepts(stripped(packet@))
                &&& r@ is Send ==> !final(self).state().underway
                &&& r@ !is Send ==> r@ is Idle && final(self).state() == old(self).state()
            },
            !is_dropped(packet@) && packet@.len() > 0 && packet@[0] == 2 ==> match old(
                self,
            ).completes(stripped(packet@)) {
                Some(p) => {
                    &&& r@ == InboundView::Send(patched(p, old(self).marks()))
                    &&& final(self).state().session
                },
                None => r@ is Idle && final(self).state() == old(self).state(),
            },
            packet@.len() > 0 && packet@[0] == 3 ==> r@ is Idle && final(self).state() == old(
                self,
            ).state(),
            !is_dropped(packet@) && packet@.len() > 0 && packet@[0] == 4 ==> {
                &&& r@ == match old(self).opens(stripped(packet@)) {
                    Some(p) => InboundView::Deliver(p),
                    None => InboundView::Idle,
                }
                &&& final(self).state().underway == old(self).state().underway
            },
            r@ matches InboundView::Deliver(p) ==> {
                &&& packet@[0] == 4
                &&& p.len() + PACKET_OVERHEAD <= packet@.len()
                &&& final(self).state().session
            },
    {
        match cleared(packet) {
            None => Inbound::Idle,
            Some(packet) => {
                if exhausted(packet.as_slice()) {
                    return Inbound::Idle;
                }
                let out = tunn_decapsulate(&mut self.tunn, packet.as_slice());
                proof {
                    if out is ToNetwork {
                        lemma_message_is_marked(out->ToNetwork_0@, self.reserved@);
                    }
                }
                inbound(out, &self.reserved)
            },
        }
    }

    /// Asks what follows a packet that was sent for one that came in: the oldest
    /// packet that waits leaves.
    pub fn drain(&mut self) -> (r: Inbound)
        requires
            old(self).ok(),
        ensures
            final(self).ok(),
            final(self).marks() == old(self).marks(),
            final(self).disguise() == old(self).disguise(),
            old(self).drains(r@),
            final(self).state() == after_drain(old(self).state()),
    {
        let empty: Vec<u8> = Vec::new();
        let out = tunn_decapsulate(&mut self.tunn, empty.as_slice());
        proof {
            if out is ToNetwork {
                lemma_message_is_marked(out->ToNetwork_0@, self.reserved@);
            }
        }
        inbound(out, &self.reserved)
    }

    /// Wraps a packet of the network stack. One that is too large for the
    /// network is an error. Without a session the packet waits, and a handshake begins
    /// unless one is underway.
    pub fn on_packet(&mut self, packet: &[u8]) -> (r: Result<Option<Vec<u8>>, ProtocolError>)
        requires
            old(self).ok(),
        ensures
            final(self).ok(),
            final(self).marks() == old(self).marks(),
            final(self).disguise() == old(self).disguise(),
            r is Err <==> packet@.len() > PACKET_BUF - PACKET_OVERHEAD,
            r is Err <==> packet@.len() > 2016,
            r matches Ok(out) ==> {
                &&& out is None <==> !old(self).state().session && old(self).state().underway
                &&& out matches Some(p) ==> is_marked(p@, old(self).marks()) && if old(
                    self,
                ).state().session {
                    &&& p@ == patched(old(self).seals(packet@), old(self).marks())
                    &&& wraps(stripped(p@), packet@.len() as int)
                } else {
                    begins(stripped(p@))
                }
            },
            final(self).state() == if r is Err {
                old(self).state()
            } else {
                after_wrap(old(self).state(), packet@)
            },
    {
        if packet.len() > PACKET_BUF - PACKET_OVERHEAD {
            return Err(ProtocolError);
        }
        let out = tunn_encapsulate(&mut self.tunn, packet);
        proof {
            if out is ToNetwork {
                lemma_message_is_marked(out->ToNetwork_0@, self.reserved@);
            }
        }
        outbound(out, true, &self.reserved)
    }

    /// Looks at the timers: a packet to send, if one is due.
    pub fn on_tick(&mut self) -> (r: Option<Vec<u8>>)
        requires
            old(self).ok(),
        ensures
            final(self).ok(),
            final(self).marks() == old(self).marks(),
            final(self).disguise() == old(self).disguise(),
            same_ends(old(self).state(), final(self).state()),
            final(self).state().session ==> old(self).state().session,
            waits_on(old(self).state(), final(self).state()),
            r matches Some(p) ==> is_marked(p@, old(self).marks()) && is_due(
                stripped(p@),
                old(self).state(),
                final(self).state(),
            ),
            r matches Some(p) ==> wraps(stripped(p@), 0) ==> p@ == patched(
                old(self).seals(Seq::empty()),
                old(self).marks(),
            ),
    {
        let out = tunn_update_timers(&mut self.tunn);
        proof {
            if out is ToNetwork {
                lemma_message_is_marked(out->ToNetwork_0@, self.reserved@);
            }
        }
        match outbound(out, true, &self.reserved) {
            Ok(p) => p,
            Err(_) => None,
        }
    }

    /// What a handshake does next at `now`.
    pub fn handshake_step(&self, now: u64, deadline: u64) -> (s: HandshakeStep)
        ensures
            s == next_step(now, deadline, self.state().session),
    {
        handshake_step(now, deadline, tunn_is_established(&self.tunn))
    }

    /// The decoy packets before a handshake, and the wait behind each.
    pub fn decoys(&self) -> (out: Vec<Decoy>)
        ensures
            decoys_ok(out@, self.disguise()),
    {
        make_decoys(self.trick)
    }
}

/// What a handshake does next.
#[derive(Clone, Copy, Debug, PartialEq, Eq, Structural)]
pub enum HandshakeStep {
    Established,
    /// Wait for a packet, and look at the timers.
    Pump,
    TimedOut,
}

/// What a handshake does next: after the deadline nothing counts any more.
pub open spec fn next_step(now: u64, deadline: u64, established: bool) -> HandshakeStep {
    if now >= deadline {
        HandshakeStep::TimedOut
    } else if established {
        HandshakeStep::Established
    } else {
        HandshakeStep::Pump
    }
}

/// What a handshake does next.
pub fn handshake_step(now: u64, deadline: u64, established: bool) -> (s: HandshakeStep)
    ensures
        s == next_step(now, deadline, established),
{
    if now >= deadline {
        HandshakeStep::TimedOut
    } else if established {
        HandshakeStep::Established
    } else {
        HandshakeStep::Pump
    }
}

// ---------------------------------------------------------------------------
// Decoys

/// A packet of no meaning, and the milliseconds to wait behind it.
#[derive(Debug, PartialEq, Eq)]
pub struct Decoy {
    pub packet: Vec<u8>,
    pub delay_ms: u64,
}

/// The first bytes that a decoy of the second kind may have.
pub open spec fn first_bytes() -> Seq<u8> {
    seq![0xdcu8, 0xde, 0xd3, 0xd9, 0xd0, 0xec, 0xee, 0xe3]
}

/// The header of the decoys: none, or one that looks like the beginning of QUIC.
pub open spec fn is_decoy_header(h: Seq<u8>, trick: Trick) -> bool {
    match trick {
        Trick::T2 => {
            &&& h.len() == 18
            &&& first_bytes().contains(h[0])
            &&& h.subrange(1, 6) == seq![0x00u8, 0x00, 0x00, 0x01, 0x08]
            &&& h.subrange(14, 18) == seq![0x00u8, 0x00, 0x44, 0xd0]
        },
        _ => h.len() == 0,
    }
}

/// Ten to 120 bytes behind a header, and a wait of 80 to 150 milliseconds.
pub open spec fn is_decoy(d: Decoy, h: Seq<u8>) -> bool {
    &&& h.len() + 10 <= d.packet@.len() <= h.len() + 120
    &&& d.packet@.take(h.len() as int) == h
    &&& 80 <= d.delay_ms <= 150
}

/// Twenty to fifty decoys with one header; none without a disguise.
pub open spec fn decoys_ok(ds: Seq<Decoy>, trick: Trick) -> bool {
    if trick == Trick::Off {
        ds.len() == 0
    } else {
        &&& 20 <= ds.len() <= 50
        &&& exists|h: Seq<u8>| #[trigger]
            is_decoy_header(h, trick) && forall|i: int|
                0 <= i < ds.len() ==> is_decoy(#[trigger] ds[i], h)
    }
}

/// The header of the second kind for a choice of its first byte and eight bytes.
pub fn decoy_header(pick: usize, cid: &[u8; 8]) -> (h: Vec<u8>)
    requires
        pick < 8,
    ensures
        is_decoy_header(h@, Trick::T2),
        h@ == seq![first_bytes()[pick as int], 0x00u8, 0x00, 0x00, 0x01, 0x08] + cid@ + seq![
            0x00u8,
            0x00,
            0x44,
            0xd0,
        ],
{
    let first: [u8; 8] = [0xdc, 0xde, 0xd3, 0xd9, 0xd0, 0xec, 0xee, 0xe3];
    assert(first@ =~= first_bytes());
    let mut h: Vec<u8> = Vec::new();
    h.push(first[pick]);
    h.push(0x00);
    h.push(0x00);
    h.push(0x00);
    h.push(0x01);
    h.push(0x08);
    wire::push_bytes(&mut h, cid);
    h.push(0x00);
    h.push(0x00);
    h.push(0x44);
    h.push(0xd0);
    assert(h@ =~= seq![first_bytes()[pick as int], 0x00u8, 0x00, 0x00, 0x01, 0x08] + cid@ + seq![
        0x00u8,
        0x00,
        0x44,
        0xd0,
    ]);
    assert(first_bytes().contains(first_bytes()[pick as int]));
    assert(h@.subrange(1, 6) =~= seq![0x00u8, 0x00, 0x00, 0x01, 0x08]);
    assert(h@.subrange(14, 18) =~= seq![0x00u8, 0x00, 0x44, 0xd0]);
    h
}

fn random_between(lo: usize, hi: usize) -> (n: usize)
    requires
        lo <= hi < usize::MAX,
    ensures
        lo <= n <= hi,
{
    lo + system::random_index(hi - lo + 1)
}

fn make_decoy(h: &Vec<u8>) -> (d: Decoy)
    requires
        h@.len() <= 18,
    ensures
        is_decoy(d, h@),
{
    let size = random_between(h.len() + 10, h.len() + 120);
    let mut packet: Vec<u8> = Vec::new();
    wire::push_bytes(&mut packet, h.as_slice());
    assert(packet@ =~= h@);
    while packet.len() < size
        invariant
            h@.len() <= packet@.len() <= size,
            packet@.take(h@.len() as int) == h@,
        decreases size - packet@.len(),
    {
        let ghost before = packet@;
        packet.push(system::random_index(256) as u8);
        assert(packet@.take(h@.len() as int) =~= before.take(h@.len() as int));
    }
    let delay: usize = random_between(80, 150);
    Decoy { packet, delay_ms: delay as u64 }
}

fn make_decoys(trick: Trick) -> (out: Vec<Decoy>)
    ensures
        decoys_ok(out@, trick),
{
    let mut out: Vec<Decoy> = Vec::new();
    if trick == Trick::Off {
        return out;
    }
    let header: Vec<u8> = if trick == Trick::T2 {
        decoy_header(system::random_index(8), &system::random_bytes())
    } else {
        Vec::new()
    };
    let count = random_between(20, 50);
    assert(is_decoy_header(header@, trick));
    while out.len() < count
        invariant
            out@.len() <= count,
            header@.len() <= 18,
            forall|i: int| 0 <= i < out@.len() ==> is_decoy(#[trigger] out@[i], header@),
        decreases count - out@.len(),
    {
        out.push(make_decoy(&header));
    }
    out
}

} // verus!
