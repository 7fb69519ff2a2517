//! SOCKS4, SOCKS4a and SOCKS5.

use crate::addr;
use crate::addr::SocketAddr;
use crate::outbound;
use crate::outbound::HostView;
use crate::socks4;
use crate::socks5;
use crate::socks5::{GreetingView, Socks5Error, UdpAssociation, UdpStep};
use crate::text;
use crate::wire;
use vstd::prelude::*;
use vstd::utf8::*;

verus! {

/// Two bytes, the high one first.
pub open spec fn two_bytes(n: u16) -> Seq<u8> {
    seq![(n / 256) as u8, (n % 256) as u8]
}

proof fn lemma_two_bytes(buf: Seq<u8>, pos: int, n: u16)
    requires
        0 <= pos,
        pos + 2 <= buf.len(),
        buf[pos] == n / 256,
        buf[pos + 1] == n % 256,
    ensures
        wire::be_value(buf.subrange(pos, pos + 2)) == n,
{
    wire::lemma_be_value_2(buf.subrange(pos, pos + 2));
}

proof fn lemma_byte_at_is(s: Seq<u8>, pos: int, b: u8, n: int)
    requires
        0 <= pos <= n < s.len(),
        s[n] == b,
        forall|k: int| pos <= k < n ==> s[k] != b,
    ensures
        wire::byte_at(s, pos, b) == n,
    decreases n - pos,
{
    if pos < n {
        lemma_byte_at_is(s, pos + 1, b, n);
    }
}

proof fn lemma_byte_at_none(s: Seq<u8>, pos: int, b: u8)
    requires
        0 <= pos <= s.len(),
        forall|k: int| pos <= k < s.len() ==> s[k] != b,
    ensures
        wire::byte_at(s, pos, b) == s.len(),
    decreases s.len() - pos,
{
    if pos < s.len() {
        lemma_byte_at_none(s, pos + 1, b);
    }
}

// ---------------------------------------------------------------------------
// SOCKS4

/// A SOCKS4a request is a connection to the host that its name spells, whatever the
/// user is called and whatever follows.
pub proof fn lemma_socks4a_request(
    version: u8,
    port: u16,
    user: Seq<u8>,
    name: Seq<u8>,
    after: Seq<u8>,
)
    requires
        !user.contains(0),
        !name.contains(0),
    ensures
        socks4::request_of(
            seq![version, 1u8] + two_bytes(port) + seq![0u8, 0, 0, 1] + user + seq![0u8] + name
                + seq![0u8] + after,
        ) == socks4::RequestView::Connect(outbound::host_of_text(text::utf8_lossy(name)), port),
{
    let head = seq![version, 1u8] + two_bytes(port) + seq![0u8, 0, 0, 1];
    let buf = head + user + seq![0u8] + name + seq![0u8] + after;
    let u = 8 + user.len() as int;
    let n = u + 1 + name.len();
    assert forall|k: int| 8 <= k < u implies buf[k] != 0 by {
        assert(buf[k] == user[k - 8]);
    }
    assert forall|k: int| u < k < n implies buf[k] != 0 by {
        assert(buf[k] == name[k - u - 1]);
    }
    lemma_byte_at_is(buf, 8, 0, u);
    lemma_byte_at_is(buf, u + 1, 0, n);
    lemma_two_bytes(buf, 2, port);
    assert(buf.subrange(4, 8) =~= seq![0u8, 0, 0, 1]);
    assert(buf.subrange(u + 1, n) =~= name);
}

/// A SOCKS4 request is a connection to its address, whatever the user is called and
/// whatever follows.
pub proof fn lemma_socks4_request(
    version: u8,
    port: u16,
    ip: Seq<u8>,
    user: Seq<u8>,
    after: Seq<u8>,
)
    requires
        ip.len() == 4,
        ip != seq![0u8, 0, 0, 1],
        !user.contains(0),
    ensures
        socks4::request_of(
            seq![version, 1u8] + two_bytes(port) + ip + user + seq![0u8] + after,
        ) == socks4::RequestView::Connect(HostView::Ip(ip), port),
{
    let buf = seq![version, 1u8] + two_bytes(port) + ip + user + seq![0u8] + after;
    let u = 8 + user.len() as int;
    assert forall|k: int| 8 <= k < u implies buf[k] != 0 by {
        assert(buf[k] == user[k - 8]);
    }
    lemma_byte_at_is(buf, 8, 0, u);
    lemma_two_bytes(buf, 2, port);
    assert(buf.subrange(4, 8) =~= ip);
}

/// A SOCKS4 request with any other command than CONNECT is answered with the code 91
/// and turned away.
pub proof fn lemma_socks4_other_command(version: u8, command: u8, after: Seq<u8>)
    requires
        command != 1,
    ensures
        socks4::request_of(seq![version, command] + after) == socks4::RequestView::Refuse(
            seq![0u8, 91, 0, 0, 0, 0, 0, 0],
            command,
        ),
{
    assert(socks4::answer(socks4::REJECTED) =~= seq![0u8, 91, 0, 0, 0, 0, 0, 0]);
}

/// While the user name or, behind the address 0.0.0.1, the name of a SOCKS4 request
/// has not ended, more bytes are waited for.
pub proof fn lemma_socks4_waits(
    version: u8,
    port: u16,
    ip: Seq<u8>,
    user: Seq<u8>,
    name: Seq<u8>,
)
    requires
        ip.len() == 4,
        !user.contains(0),
        !name.contains(0),
    ensures
        ({
            let head = seq![version, 1u8] + two_bytes(port) + ip + user;
            &&& socks4::request_of(head) is NeedMore
            &&& ip == seq![0u8, 0, 0, 1] ==> socks4::request_of(head + seq![0u8] + name) is NeedMore
        }),
{
    let head = seq![version, 1u8] + two_bytes(port) + ip + user;
    assert forall|k: int| 8 <= k < head.len() implies head[k] != 0 by {
        assert(head[k] == user[k - 8]);
    }
    if head.len() >= 9 {
        lemma_byte_at_none(head, 8, 0);
    }
    let buf = head + seq![0u8] + name;
    let u = head.len() as int;
    assert forall|k: int| 8 <= k < u implies buf[k] != 0 by {
        assert(buf[k] == user[k - 8]);
    }
    assert forall|k: int| u < k < buf.len() implies buf[k] != 0 by {
        assert(buf[k] == name[k - u - 1]);
    }
    lemma_byte_at_is(buf, 8, 0, u);
    lemma_byte_at_none(buf, u + 1, 0);
    assert(buf.subrange(4, 8) =~= ip);
}

/// The answers to a SOCKS4 request: a zero byte, the code, and six zero bytes; 90 is
/// granted and 91 rejected.
pub proof fn lemma_socks4_answer(code: u8)
    ensures
        socks4::answer(code) == seq![0u8, code, 0, 0, 0, 0, 0, 0],
        socks4::GRANTED == 90,
        socks4::REJECTED == 91,
{
    assert(socks4::answer(code) =~= seq![0u8, code, 0, 0, 0, 0, 0, 0]);
}

// ---------------------------------------------------------------------------
// SOCKS5: greetings and requests

/// A whole greeting is accepted if and only if some method of it, in any place, is the
/// one without authentication; else it is answered that none will do.
pub proof fn lemma_greeting(buf: Seq<u8>)
    requires
        buf.len() >= 2,
        buf[0] == 5,
        buf.len() >= 2 + buf[1],
    ensures
        (exists|i: int| 2 <= i < 2 + buf[1] && #[trigger] buf[i] == 0) ==> socks5::greeting_of(buf)
            == GreetingView::Accept(seq![5u8, 0]),
        (forall|i: int| 2 <= i < 2 + buf[1] ==> #[trigger] buf[i] != 0) ==> socks5::greeting_of(buf)
            == GreetingView::Refuse(Some(seq![5u8, 0xff]), Socks5Error::NoMethod),
{
    let methods = buf.subrange(2, 2 + buf[1]);
    if exists|i: int| 2 <= i < 2 + buf[1] && #[trigger] buf[i] == 0 {
        let i = choose|i: int| 2 <= i < 2 + buf[1] && #[trigger] buf[i] == 0;
        assert(methods[i - 2] == 0);
        assert(methods.contains(0u8));
    } else if methods.contains(0u8) {
        let k = choose|k: int| 0 <= k < methods.len() && methods[k] == 0;
        assert(buf[k + 2] == 0);
    }
    assert(seq![0x05u8, 0x00] =~= seq![5u8, 0]);
}

/// The methods of a greeting may stand in any order.
pub proof fn lemma_greeting_order(a: Seq<u8>, b: Seq<u8>)
    requires
        a.len() <= 255,
        a.to_multiset() == b.to_multiset(),
    ensures
        socks5::greeting_of(seq![5u8, a.len() as u8] + a) == socks5::greeting_of(
            seq![5u8, b.len() as u8] + b,
        ),
{
    a.to_multiset_ensures();
    b.to_multiset_ensures();
    let x = seq![5u8, a.len() as u8] + a;
    let y = seq![5u8, b.len() as u8] + b;
    assert(a.len() == b.len());
    assert(a.contains(0u8) == b.contains(0u8)) by {
        assert(a.contains(0u8) <==> a.to_multiset().count(0u8) > 0);
        assert(b.contains(0u8) <==> b.to_multiset().count(0u8) > 0);
    }
    assert(x.subrange(2, 2 + x[1]) =~= a);
    assert(y.subrange(2, 2 + y[1]) =~= b);
}

/// Of a greeting that is cut off, exactly the missing bytes are waited for, and a client
/// of another version is turned away without an answer.
pub proof fn lemma_greeting_waits(version: u8, count: u8, methods: Seq<u8>)
    ensures
        version != 5 ==> socks5::greeting_of(seq![version, count] + methods)
            == GreetingView::Refuse(None, Socks5Error::Version(version)),
        version == 5 && methods.len() < count ==> socks5::greeting_of(
            seq![version, count] + methods,
        ) == GreetingView::NeedMore(count - methods.len()),
{
}

/// A SOCKS5 reply without an address.
pub open spec fn bare_reply(code: u8) -> Seq<u8> {
    seq![5u8, code, 0, 1, 0, 0, 0, 0, 0, 0]
}

/// A CONNECT to a literal address is a connection to that address and port; a UDP
/// ASSOCIATE is an association where the way out carries datagrams, and is else
/// answered with the code 7.
pub proof fn lemma_socks5_address_request(
    command: u8,
    reserved: u8,
    octets: Seq<u8>,
    port: u16,
    after: Seq<u8>,
    udp: bool,
)
    requires
        octets.len() == 4 || octets.len() == 16,
    ensures
        ({
            let kind: u8 = if octets.len() == 4 {
                1
            } else {
                4
            };
            let buf = seq![5u8, command, reserved, kind] + octets + two_bytes(port) + after;
            &&& command == 1 ==> socks5::request_of(buf, udp) == socks5::RequestView::Connect(
                HostView::Ip(octets),
                port,
            )
            &&& command == 3 && udp ==> socks5::request_of(buf, udp)
                == socks5::RequestView::Associate
            &&& command == 3 && !udp ==> socks5::request_of(buf, udp)
                == socks5::RequestView::Refuse(Some(bare_reply(7)), Socks5Error::UdpUnsupported)
        }),
{
    let kind: u8 = if octets.len() == 4 {
        1
    } else {
        4
    };
    let buf = seq![5u8, command, reserved, kind] + octets + two_bytes(port) + after;
    let n = octets.len() as int;
    lemma_two_bytes(buf, 4 + n, port);
    assert(buf.subrange(4, 4 + n) =~= octets);
    assert(socks5::plain_reply(7) =~= bare_reply(7));
}

/// A CONNECT to a name is a connection to the host that the name spells and the port;
/// a name that is no UTF-8 is answered with the code 4. For a UDP ASSOCIATE the name
/// does not matter.
pub proof fn lemma_socks5_name_request(
    command: u8,
    reserved: u8,
    name: Seq<u8>,
    port: u16,
    after: Seq<u8>,
    udp: bool,
)
    requires
        name.len() <= 255,
    ensures
        ({
            let buf = seq![5u8, command, reserved, 3, name.len() as u8] + name + two_bytes(port)
                + after;
            &&& command == 1 && valid_utf8(name) ==> socks5::request_of(buf, udp)
                == socks5::RequestView::Connect(outbound::host_of_text(decode_utf8(name)), port)
            &&& command == 1 && !valid_utf8(name) ==> socks5::request_of(buf, udp)
                == socks5::RequestView::Refuse(Some(bare_reply(4)), Socks5Error::DomainEncoding)
            &&& command == 3 && udp ==> socks5::request_of(buf, udp)
                == socks5::RequestView::Associate
            &&& command == 3 && !udp ==> socks5::request_of(buf, udp)
                == socks5::RequestView::Refuse(Some(bare_reply(7)), Socks5Error::UdpUnsupported)
        }),
{
    let buf = seq![5u8, command, reserved, 3, name.len() as u8] + name + two_bytes(port) + after;
    let n = name.len() as int;
    lemma_two_bytes(buf, 5 + n, port);
    assert(buf.subrange(5, 5 + n) =~= name);
    assert(socks5::plain_reply(7) =~= bare_reply(7));
    assert(socks5::plain_reply(4) =~= bare_reply(4));
}

/// What is not served: another version is turned away without an answer, another
/// command than CONNECT and UDP ASSOCIATE with the code 7, and a type of address that
/// is none of the three with the code 8.
pub proof fn lemma_socks5_not_served(
    version: u8,
    command: u8,
    reserved: u8,
    kind: u8,
    after: Seq<u8>,
    udp: bool,
)
    ensures
        ({
            let got = socks5::request_of(seq![version, command, reserved, kind] + after, udp);
            &&& version != 5 ==> got == socks5::RequestView::Refuse(
                None,
                Socks5Error::Version(version),
            )
            &&& version == 5 && command != 1 && command != 3 ==> got
                == socks5::RequestView::Refuse(Some(bare_reply(7)), Socks5Error::Command(command))
            &&& version == 5 && (command == 1 || command == 3) && kind != 1 && kind != 3 && kind
                != 4 ==> got == socks5::RequestView::Refuse(
                Some(bare_reply(8)),
                Socks5Error::AddressType(kind),
            )
        }),
{
    assert(socks5::plain_reply(7) =~= bare_reply(7));
    assert(socks5::plain_reply(8) =~= bare_reply(8));
}

/// Of a CONNECT or UDP ASSOCIATE whose address is cut off, exactly the missing bytes
/// are waited for, or the size of a name first.
pub proof fn lemma_socks5_waits(command: u8, reserved: u8, part: Seq<u8>, udp: bool)
    requires
        command == 1 || command == 3,
    ensures
        part.len() < 6 ==> socks5::request_of(seq![5u8, command, reserved, 1] + part, udp)
            == socks5::RequestView::NeedMore(6 - part.len()),
        part.len() < 18 ==> socks5::request_of(seq![5u8, command, reserved, 4] + part, udp)
            == socks5::RequestView::NeedMore(18 - part.len()),
        part.len() == 0 ==> socks5::request_of(seq![5u8, command, reserved, 3] + part, udp)
            == socks5::RequestView::NeedMore(1),
        0 < part.len() < 3 + part[0] ==> socks5::request_of(
            seq![5u8, command, reserved, 3] + part,
            udp,
        ) == socks5::RequestView::NeedMore(3 + part[0] - part.len()),
{
    let buf = seq![5u8, command, reserved, 3] + part;
    assert(part.len() > 0 ==> buf[4] == part[0]);
}

/// The replies of SOCKS5: version, code, a zero byte, and an address of its type with
/// its port; without an address, 0.0.0.0 and port 0.
pub proof fn lemma_socks5_replies(code: u8, octets: Seq<u8>, port: u16)
    requires
        octets.len() == 4 || octets.len() == 16,
    ensures
        socks5::plain_reply(code) == bare_reply(code),
        octets.len() == 4 ==> socks5::addr_reply(code, octets, port) == seq![5u8, code, 0, 1]
            + octets + two_bytes(port),
        octets.len() == 16 ==> socks5::addr_reply(code, octets, port) == seq![5u8, code, 0, 4]
            + octets + two_bytes(port),
        socks5::REP_SUCCEEDED == 0,
        socks5::REP_HOST_UNREACHABLE == 4,
        socks5::REP_CMD_NOT_SUPPORTED == 7,
        socks5::REP_ATYP_NOT_SUPPORTED == 8,
{
    reveal_with_fuel(wire::be_bytes, 3);
    assert(wire::be_bytes(port as nat, 2) =~= two_bytes(port));
    assert(socks5::plain_reply(code) =~= bare_reply(code));
    if octets.len() == 4 {
        assert(socks5::addr_reply(code, octets, port) =~= seq![5u8, code, 0, 1] + octets
            + two_bytes(port));
    } else {
        assert(socks5::addr_reply(code, octets, port) =~= seq![5u8, code, 0, 4] + octets
            + two_bytes(port));
    }
}

// ---------------------------------------------------------------------------
// SOCKS5: datagrams

/// A datagram to a literal address: two bytes that do not matter, no fragment, the
/// address, the port, and the payload behind them.
pub proof fn lemma_datagram_to_address(
    r0: u8,
    r1: u8,
    fragment: u8,
    octets: Seq<u8>,
    port: u16,
    payload: Seq<u8>,
)
    requires
        octets.len() == 4 || octets.len() == 16,
    ensures
        ({
            let kind: u8 = if octets.len() == 4 {
                1
            } else {
                4
            };
            let head = seq![r0, r1, fragment, kind] + octets + two_bytes(port);
            socks5::udp_header(head + payload) == if fragment == 0 {
                Some((HostView::Ip(octets), port, head.len() as int))
            } else {
                None
            }
        }),
{
    let kind: u8 = if octets.len() == 4 {
        1
    } else {
        4
    };
    let buf = seq![r0, r1, fragment, kind] + octets + two_bytes(port) + payload;
    let n = octets.len() as int;
    lemma_two_bytes(buf, 4 + n, port);
    assert(buf.subrange(4, 4 + n) =~= octets);
}

/// A datagram to a name: as one to an address, with the size and the bytes of the name.
pub proof fn lemma_datagram_to_name(
    r0: u8,
    r1: u8,
    fragment: u8,
    name: Seq<u8>,
    port: u16,
    payload: Seq<u8>,
)
    requires
        name.len() <= 255,
    ensures
        ({
            let head = seq![r0, r1, fragment, 3, name.len() as u8] + name + two_bytes(port);
            socks5::udp_header(head + payload) == if fragment == 0 && valid_utf8(name) {
                Some((outbound::host_of_text(decode_utf8(name)), port, head.len() as int))
            } else {
                None
            }
        }),
{
    let buf = seq![r0, r1, fragment, 3, name.len() as u8] + name + two_bytes(port) + payload;
    let n = name.len() as int;
    lemma_two_bytes(buf, 5 + n, port);
    assert(buf.subrange(5, 5 + n) =~= name);
}

/// A datagram to an address of a kind that is none of the three, and one whose header
/// has not come whole, goes nowhere.
pub proof fn lemma_datagram_refused(
    r0: u8,
    r1: u8,
    kind: u8,
    octets: Seq<u8>,
    name: Seq<u8>,
    rest: Seq<u8>,
    come: int,
)
    requires
        octets.len() == 4 || octets.len() == 16,
        name.len() <= 255,
    ensures
        kind != 1 && kind != 3 && kind != 4 ==> socks5::udp_header(
            seq![r0, r1, 0, kind] + rest,
        ) is None,
        rest.len() < 4 ==> socks5::udp_header(rest) is None,
        rest.len() < 2 ==> socks5::udp_header(
            seq![r0, r1, 0, if octets.len() == 4 { 1u8 } else { 4 }] + octets + rest,
        ) is None,
        0 <= come < octets.len() ==> socks5::udp_header(
            seq![r0, r1, 0, if octets.len() == 4 { 1u8 } else { 4 }] + octets.take(come),
        ) is None,
        rest.len() < 2 ==> socks5::udp_header(
            seq![r0, r1, 0, 3, name.len() as u8] + name + rest,
        ) is None,
        0 <= come < name.len() ==> socks5::udp_header(
            seq![r0, r1, 0, 3, name.len() as u8] + name.take(come),
        ) is None,
{
    let named = seq![r0, r1, 0, 3, name.len() as u8] + name + rest;
    let cut = seq![r0, r1, 0, 3, name.len() as u8] + name.take(come);
    assert(named[4] == name.len() && named[3] == 3 && named[2] == 0);
    assert(cut[4] == name.len() && cut[3] == 3 && cut[2] == 0);
}

/// The header of a datagram for the client.
pub proof fn lemma_datagram_header(octets: Seq<u8>, port: u16)
    requires
        octets.len() == 4 || octets.len() == 16,
    ensures
        octets.len() == 4 ==> socks5::udp_header_bytes(octets, port) == seq![0u8, 0, 0, 1]
            + octets + two_bytes(port),
        octets.len() == 16 ==> socks5::udp_header_bytes(octets, port) == seq![0u8, 0, 0, 4]
            + octets + two_bytes(port),
{
    reveal_with_fuel(wire::be_bytes, 3);
    assert(wire::be_bytes(port as nat, 2) =~= two_bytes(port));
    if octets.len() == 4 {
        assert(socks5::udp_header_bytes(octets, port) =~= seq![0u8, 0, 0, 1] + octets
            + two_bytes(port));
    } else {
        assert(socks5::udp_header_bytes(octets, port) =~= seq![0u8, 0, 0, 4] + octets
            + two_bytes(port));
    }
}

/// Only the first source that sends to an association is its client: it stays the
/// client, and whatever another source sends changes nothing and goes nowhere.
pub proof fn lemma_one_client(
    a: UdpAssociation,
    b: UdpAssociation,
    step: UdpStep,
    from: SocketAddr,
    buf: Seq<u8>,
)
    requires
        socks5::datagram_step(a, b, step, from, buf),
    ensures
        a.client is None ==> b.client is Some && b.client->Some_0.ip@ == from.ip@
            && b.client->Some_0.port == from.port && b.client->Some_0.scope_id == from.scope_id,
        a.client is Some && (a.client->Some_0.ip@ != from.ip@ || a.client->Some_0.port != from.port
            || a.client->Some_0.scope_id != from.scope_id) ==> step is Ignore && b == a,
        a.client is Some ==> b.client is Some && b.client->Some_0.ip@ == a.client->Some_0.ip@
            && b.client->Some_0.port == a.client->Some_0.port && b.client->Some_0.scope_id
            == a.client->Some_0.scope_id,
{
    assert(a.client is Some ==> (socks5::is_client(a, from) <==> addr::equal_addrs(
        a.client->Some_0,
        from,
    )));
}

/// The first datagram of the client to a target opens a channel, with the payload, and
/// the next one to the same target goes on the same channel: no target has two.
pub proof fn lemma_one_channel_per_target(
    a: UdpAssociation,
    b: UdpAssociation,
    c: UdpAssociation,
    first: UdpStep,
    second: UdpStep,
    from: SocketAddr,
    octets: Seq<u8>,
    port: u16,
    one: Seq<u8>,
    two: Seq<u8>,
)
    requires
        octets.len() == 4,
        b.ok(),
        a.client is None || a.client == Some(from),
        socks5::datagram_step(
            a,
            b,
            first,
            from,
            seq![0u8, 0, 0, 1] + octets + two_bytes(port) + one,
        ),
        first !is Ignore,
        socks5::datagram_step(
            b,
            c,
            second,
            from,
            seq![0u8, 0, 0, 1] + octets + two_bytes(port) + two,
        ),
    ensures
        first matches UdpStep::Open(channel, host, p, payload) ==> host@ == HostView::Ip(octets)
            && p == port && payload@ == one && second is Forward && second->Forward_0 == channel,
        first matches UdpStep::Forward(channel, payload) ==> payload@ == one && second is Forward
            && second->Forward_0 == channel,
        second matches UdpStep::Forward(_, payload) ==> payload@ == two,
        c.targets@ == b.targets@,
{
    let head = seq![0u8, 0, 0, 1] + octets + two_bytes(port);
    lemma_datagram_to_address(0, 0, 0, octets, port, one);
    lemma_datagram_to_address(0, 0, 0, octets, port, two);
    assert((head + one).skip(10) =~= one);
    assert((head + two).skip(10) =~= two);
    let h = HostView::Ip(octets);
    assert(addr::equal_addrs(from, from));
    if first is Open {
        let n = b.targets@.len() - 1;
        assert(socks5::is_target(b.targets@[n], h, port));
    }
    assert(socks5::has_target(b.targets@, h, port));
    assert forall|i: int, j: int|
        0 <= i < b.targets@.len() && 0 <= j < b.targets@.len() && socks5::is_target(
            #[trigger] b.targets@[i],
            h,
            port,
        ) && socks5::is_target(#[trigger] b.targets@[j], h, port) implies i == j by {}
}

/// An association has at most 64 targets: with as many, a datagram to another one goes
/// nowhere, and one to a target that is there still goes to it.
pub proof fn lemma_target_limit(
    a: UdpAssociation,
    b: UdpAssociation,
    step: UdpStep,
    from: SocketAddr,
    buf: Seq<u8>,
)
    requires
        a.ok(),
        socks5::datagram_step(a, b, step, from, buf),
    ensures
        a.targets@.len() <= 64,
        a.targets@.len() == 64 ==> step !is Open && b.targets@ == a.targets@,
        b.targets@.len() <= a.targets@.len() + 1,
        a.targets@.len() < 64 && a.client is None && buf.len() >= 4 && buf[2] == 0
            && socks5::udp_header(buf) is Some ==> step !is Ignore,
        buf.len() < 4 || buf[2] != 0 ==> step is Ignore && b.targets@ == a.targets@,
{
}

/// A released channel is free: its target is gone, the others are as they were, and the
/// next datagram to the released target opens a channel again.
pub proof fn lemma_release(ts: Seq<socks5::UdpTarget>, channel: usize, i: int)
    requires
        socks5::targets_ok(ts),
        0 <= i < ts.len(),
        ts[i].channel == channel,
    ensures
        socks5::without_channel(ts, channel) == ts.take(i) + ts.skip(i + 1),
        !socks5::has_target(socks5::without_channel(ts, channel), ts[i].host@, ts[i].port),
{
    assert forall|k: int| 0 <= k < ts.len() && k != i implies (#[trigger] ts[k]).channel
        != channel by {
        if k < i {
            assert(ts[k].channel != ts[i].channel);
        } else {
            assert(ts[i].channel != ts[k].channel);
        }
    }
    socks5::lemma_without_one(ts, channel, i);
    let rest = ts.remove(i);
    assert(rest =~= ts.take(i) + ts.skip(i + 1));
    assert forall|k: int| 0 <= k < rest.len() implies !socks5::is_target(
        #[trigger] rest[k],
        ts[i].host@,
        ts[i].port,
    ) by {
        if k < i {
            assert(rest[k] == ts[k]);
        } else {
            assert(rest[k] == ts[k + 1]);
        }
    }
}

} // verus!
