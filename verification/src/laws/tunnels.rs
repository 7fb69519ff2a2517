//! The tunnel and the course of the process: marks, queues, decoys, healing, ports,
//! routes and the watch.

use crate::addr;
use crate::addr::IpAddr;
use crate::endpoint::state::StateView;
use crate::laws::endpoints;
use crate::laws::settings;
use crate::laws::texts;
use crate::netstack;
use crate::outbound;
use crate::outbound::wireguard;
use crate::outbound::HostView;
use crate::supervisor;
use crate::supervisor::{Watch, WatchEvent};
use crate::text;
use crate::tunnel;
use crate::tunnel::{Decoy, HandshakeStep, InboundView, Trick, TunnOutput, TunnState};
use vstd::prelude::*;

verus! {

// ---------------------------------------------------------------------------
// Marks

/// Setting the reserved bytes changes the three bytes behind the type of a message of
/// type 1 to 4, and nothing else of any packet.
pub proof fn lemma_marks(packet: Seq<u8>, marks: Seq<u8>, i: int)
    requires
        marks.len() == 3,
    ensures
        tunnel::patched(packet, marks).len() == packet.len(),
        packet.len() >= 4 && 1 <= packet[0] <= 4 ==> tunnel::patched(packet, marks).subrange(1, 4)
            == marks,
        0 <= i < packet.len() && !(1 <= i <= 3) ==> tunnel::patched(packet, marks)[i] == packet[i],
        packet.len() < 4 || packet[0] == 0 || packet[0] > 4 ==> tunnel::patched(packet, marks)
            == packet,
{
    if packet.len() >= 4 && 1 <= packet[0] <= 4 {
        assert(tunnel::patched(packet, marks).subrange(1, 4) =~= marks);
    }
}

/// What is cleared is what was set: the three bytes are zero.
pub proof fn lemma_cleared(packet: Seq<u8>, i: int)
    ensures
        tunnel::stripped(packet).len() == packet.len(),
        packet.len() >= 4 && 1 <= packet[0] <= 4 ==> tunnel::stripped(packet).subrange(1, 4)
            == seq![0u8, 0, 0],
        0 <= i < packet.len() && !(1 <= i <= 3) ==> tunnel::stripped(packet)[i] == packet[i],
{
    lemma_marks(packet, seq![0u8, 0, 0], i);
}

/// The size that a message of a type has.
pub open spec fn has_its_size(kind: u8, size: nat) -> bool {
    ||| kind == 1 && size == 148
    ||| kind == 2 && size == 92
    ||| kind == 3 && size == 64
    ||| kind == 4 && size >= 32
}

/// A packet is read, whatever its reserved bytes, where it has at most 2048 bytes and the
/// size of its type; a data message, only where its number leaves room for 1024 more.
pub proof fn lemma_read(packet: Seq<u8>)
    requires
        packet.len() > 0,
    ensures
        packet.len() > 2048 || !has_its_size(packet[0], packet.len()) ==> tunnel::is_dropped(packet),
        packet.len() <= 2048 && has_its_size(packet[0], packet.len()) && packet[0] != 4
            ==> !tunnel::is_dropped(packet),
        packet.len() <= 2048 && has_its_size(packet[0], packet.len()) && packet[0] == 4 ==> (
        tunnel::is_dropped(packet) <==> tunnel::counter_of(packet) + 1024 > u64::MAX),
{
    lemma_cleared(packet, 0);
    let p = tunnel::stripped(packet);
    if packet.len() >= 4 && 1 <= packet[0] <= 4 {
        assert(p.subrange(1, 4)[0] == p[1] && p.subrange(1, 4)[1] == p[2] && p.subrange(1, 4)[2]
            == p[3]);
    }
    if packet.len() >= 32 {
        lemma_cleared(packet, 8);
        lemma_cleared(packet, 9);
        lemma_cleared(packet, 10);
        lemma_cleared(packet, 11);
        lemma_cleared(packet, 12);
        lemma_cleared(packet, 13);
        lemma_cleared(packet, 14);
        lemma_cleared(packet, 15);
    }
}

/// What goes out is marked, what came through is delivered as it is, and an error calls
/// for nothing.
pub proof fn lemma_outcomes(out: TunnOutput, marks: Seq<u8>)
    requires
        marks.len() == 3,
    ensures
        out is ToTunnel ==> tunnel::inbound_of(out, marks) == InboundView::Deliver(
            out->ToTunnel_0@,
        ),
        out is ToNetwork ==> tunnel::inbound_of(out, marks) is Send && tunnel::inbound_of(
            out,
            marks,
        )->Send_0.len() == out->ToNetwork_0@.len(),
        out is ToNetwork && tunnel::is_wireguard(out->ToNetwork_0@) ==> tunnel::inbound_of(
            out,
            marks,
        )->Send_0.subrange(1, 4) == marks && tunnel::outbound_of(out, true, marks) == Ok::<
            Option<Seq<u8>>,
            tunnel::ProtocolError,
        >(Some(tunnel::inbound_of(out, marks)->Send_0)),
        out is Failed || out is Done ==> tunnel::inbound_of(out, marks) is Idle,
        tunnel::outbound_of(out, true, marks) is Ok <==> out is ToNetwork || out is Done,
        tunnel::outbound_of(out, false, marks) is Ok <==> out is ToNetwork,
{
    if out is ToNetwork {
        lemma_marks(out->ToNetwork_0@, marks, 0);
    }
}

// ---------------------------------------------------------------------------
// Waiting for a session

/// The state after packets were to be wrapped one after the other.
pub open spec fn after_all(s: TunnState, packets: Seq<Seq<u8>>) -> TunnState
    decreases packets.len(),
{
    if packets.len() == 0 {
        s
    } else {
        tunnel::after_wrap(after_all(s, packets.drop_last()), packets.last())
    }
}

/// Without a session packets wait in the order that they came in, up to 256, and a
/// handshake is underway; with one nothing waits.
pub proof fn lemma_queue(s: TunnState, packets: Seq<Seq<u8>>)
    ensures
        s.session ==> after_all(s, packets) == s,
        !s.session && s.waiting.len() + packets.len() <= 256 ==> after_all(s, packets).waiting
            == s.waiting + packets,
        !s.session && s.waiting.len() <= 256 && s.waiting.len() + packets.len() > 256 ==> after_all(
            s,
            packets,
        ).waiting == s.waiting + packets.take(256 - s.waiting.len()),
        !s.session ==> !after_all(s, packets).session,
        !s.session && packets.len() > 0 ==> after_all(s, packets).underway,
    decreases packets.len(),
{
    if packets.len() > 0 {
        let front = packets.drop_last();
        lemma_queue(s, front);
        let before = after_all(s, front).waiting;
        if !s.session && s.waiting.len() + packets.len() <= 256 {
            assert((s.waiting + front).push(packets.last()) =~= s.waiting + packets);
        }
        if !s.session && s.waiting.len() <= 256 && s.waiting.len() + packets.len() > 256 {
            let room = 256 - s.waiting.len();
            assert(packets.take(room) =~= front.take(room));
            if front.len() == room {
                assert(front.take(room) =~= front);
            }
        }
    } else {
        assert(s.waiting + packets =~= s.waiting);
    }
}

/// With a session the oldest packet that waits leaves first, and the others stay in
/// their order.
pub proof fn lemma_oldest_leaves(s: TunnState, first: Seq<u8>, rest: Seq<Seq<u8>>)
    requires
        s.session,
        s.waiting == seq![first] + rest,
    ensures
        tunnel::after_drain(s).waiting == rest,
        tunnel::after_drain(s).session,
{
    assert(s.waiting.drop_first() =~= rest);
}

/// A handshake is over at its deadline, whatever came of it; before that it ends only
/// when there is a session.
pub proof fn lemma_deadline(now: u64, deadline: u64, established: bool)
    ensures
        now >= deadline <==> tunnel::next_step(now, deadline, established)
            == HandshakeStep::TimedOut,
        now < deadline && established <==> tunnel::next_step(now, deadline, established)
            == HandshakeStep::Established,
{
}

/// A handshake without a disguise sends no decoys; with one it sends between 20 and 50
/// of at least ten bytes, 80 to 150 milliseconds apart.
pub proof fn lemma_decoys(ds: Seq<Decoy>, trick: Trick, i: int)
    requires
        tunnel::decoys_ok(ds, trick),
    ensures
        trick == Trick::Off ==> ds.len() == 0,
        trick != Trick::Off ==> 20 <= ds.len() <= 50,
        0 <= i < ds.len() ==> 80 <= ds[i].delay_ms <= 150,
        0 <= i < ds.len() && trick == Trick::T1 ==> 10 <= ds[i].packet@.len() <= 120,
        0 <= i < ds.len() && trick == Trick::T2 ==> {
            &&& 28 <= ds[i].packet@.len() <= 138
            &&& ds[i].packet@[0] >= 0xc0
            &&& ds[i].packet@.take(18) == ds[0].packet@.take(18)
        },
{
    if trick != Trick::Off && 0 <= i < ds.len() {
        let h = choose|h: Seq<u8>| #[trigger]
            tunnel::is_decoy_header(h, trick) && forall|i: int|
                0 <= i < ds.len() ==> tunnel::is_decoy(#[trigger] ds[i], h);
        assert(tunnel::is_decoy(ds[i], h));
        assert(tunnel::is_decoy(ds[0], h));
        if trick == Trick::T2 {
            assert(ds[i].packet@.take(18)[0] == h[0]);
            let f = tunnel::first_bytes();
            let k = choose|k: int| 0 <= k < f.len() && f[k] == h[0];
            assert(f[k] >= 0xc0);
        }
    }
}

/// The disguises have the names `none`, `t1` and `t2`, and no others.
pub proof fn lemma_trick_names(name: Seq<char>)
    ensures
        Trick::of_name(name) == Some(Trick::Off) <==> name == seq!['n', 'o', 'n', 'e'],
        Trick::of_name(name) == Some(Trick::T1) <==> name == seq!['t', '1'],
        Trick::of_name(name) == Some(Trick::T2) <==> name == seq!['t', '2'],
{
    reveal_strlit("none");
    reveal_strlit("t1");
    reveal_strlit("t2");
    assert("none"@ =~= seq!['n', 'o', 'n', 'e']);
    assert("t1"@ =~= seq!['t', '1']);
    assert("t2"@ =~= seq!['t', '2']);
    assert("t1"@[1] != "t2"@[1]);
    assert("none"@.len() == 4 && "t1"@.len() == 2 && "t2"@.len() == 2);
}

// ---------------------------------------------------------------------------
// Healing

/// The endpoint to heal with is the first of the plan that is not in use, whatever
/// stands before it, and there is none where the plan has no other.
pub proof fn lemma_heal_next(plan: Seq<Seq<char>>, current: Seq<char>, k: int)
    ensures
        0 <= k < plan.len() && plan[k] != current && (forall|i: int|
            0 <= i < k ==> plan[i] == current) ==> wireguard::first_other(plan, current) == Some(
            plan[k],
        ),
        (forall|i: int| 0 <= i < plan.len() ==> plan[i] == current) ==> wireguard::first_other(
            plan,
            current,
        ) is None,
    decreases plan.len(),
{
    if plan.len() > 0 {
        let rest = plan.drop_first();
        lemma_heal_next(rest, current, k - 1);
        if 0 < k < plan.len() && plan[k] != current && (forall|i: int|
            0 <= i < k ==> plan[i] == current) {
            assert(plan[0] == current);
            assert(rest[k - 1] == plan[k]);
            assert forall|i: int| 0 <= i < k - 1 implies rest[i] == current by {
                assert(rest[i] == plan[i + 1]);
            }
        }
        if forall|i: int| 0 <= i < plan.len() ==> plan[i] == current {
            assert(plan[0] == current);
            assert forall|i: int| 0 <= i < rest.len() implies rest[i] == current by {
                assert(rest[i] == plan[i + 1]);
            }
        }
    }
}

/// An endpoint that was found wanting is left alone for so many seconds and no longer;
/// nothing else that is remembered changes.
pub proof fn lemma_left_alone(
    s: StateView,
    endpoint: Seq<char>,
    secs: u64,
    then: u64,
    other: Seq<char>,
    now: u64,
)
    requires
        then + secs <= u64::MAX,
    ensures
        ({
            let after = wireguard::with_cooldown(s, endpoint, secs, then);
            &&& after.last_good == s.last_good
            &&& endpoints::cools(after, endpoint, now) <==> now < then + secs
            &&& other != endpoint ==> (endpoints::cools(after, other, now) <==> endpoints::cools(
                s,
                other,
                now,
            ))
        }),
{
    endpoints::lemma_cooldown_end(then, secs);
}

/// How many endpoints of a list are left alone: each that is counts one.
pub proof fn lemma_cooling_count(
    list: Seq<String>,
    more: Seq<String>,
    one: String,
    s: StateView,
    now: u64,
)
    ensures
        supervisor::cooling_among(Seq::empty(), s.cooldowns, now) == 0,
        endpoints::cools(s, one@, now) ==> supervisor::cooling_among(
            list.push(one),
            s.cooldowns,
            now,
        ) == supervisor::cooling_among(list, s.cooldowns, now) + 1,
        !endpoints::cools(s, one@, now) ==> supervisor::cooling_among(
            list.push(one),
            s.cooldowns,
            now,
        ) == supervisor::cooling_among(list, s.cooldowns, now),
        supervisor::cooling_among(list + more, s.cooldowns, now) == supervisor::cooling_among(
            list,
            s.cooldowns,
            now,
        ) + supervisor::cooling_among(more, s.cooldowns, now),
    decreases more.len(),
{
    assert(list.push(one).drop_last() =~= list);
    if more.len() > 0 {
        lemma_cooling_count(list, more.drop_last(), one, s, now);
        assert((list + more).drop_last() =~= list + more.drop_last());
    } else {
        assert(list + more =~= list);
    }
}

// ---------------------------------------------------------------------------
// Listening

/// The entries of a list of listening addresses are what stands between the commas,
/// without the white space around it; what is blank is no entry.
pub proof fn lemma_listed(parts: Seq<Seq<char>>, blank: Seq<char>, more: Seq<Seq<char>>)
    requires
        texts::is_blank(blank),
        forall|i: int|
            0 <= i < parts.len() ==> (#[trigger] parts[i]).len() > 0 && settings::is_bare(parts[i]),
        forall|i: int|
            0 <= i < more.len() ==> (#[trigger] more[i]).len() > 0 && settings::is_bare(more[i]),
    ensures
        supervisor::listed(parts) == parts,
        supervisor::listed(parts + seq![blank] + more) == parts + more,
    decreases more.len(),
{
    lemma_all_listed(parts);
    if more.len() == 0 {
        let all = parts + seq![blank] + more;
        let none = Seq::<char>::empty();
        texts::lemma_trimmed(blank, none, none);
        assert(blank + none + none =~= blank);
        assert(all.drop_last() =~= parts);
        assert(all.last() == blank);
        assert(parts + more =~= parts);
    } else {
        let all = parts + seq![blank] + more;
        let front = more.drop_last();
        assert forall|i: int| 0 <= i < front.len() implies (#[trigger] front[i]).len() > 0
            && settings::is_bare(front[i]) by {
            assert(front[i] == more[i]);
        }
        lemma_listed(parts, blank, front);
        lemma_bare(more[more.len() - 1]);
        assert(all.drop_last() =~= parts + seq![blank] + front);
        assert((parts + front).push(more.last()) =~= parts + more);
    }
}

proof fn lemma_bare(s: Seq<char>)
    requires
        settings::is_bare(s),
    ensures
        text::trimmed(s) == s,
{
    let none = Seq::<char>::empty();
    texts::lemma_trimmed(none, s, none);
    assert(none + s + none =~= s);
}

proof fn lemma_all_listed(parts: Seq<Seq<char>>)
    requires
        forall|i: int|
            0 <= i < parts.len() ==> (#[trigger] parts[i]).len() > 0 && settings::is_bare(parts[i]),
    ensures
        supervisor::listed(parts) == parts,
    decreases parts.len(),
{
    if parts.len() > 0 {
        let front = parts.drop_last();
        assert forall|i: int| 0 <= i < front.len() implies (#[trigger] front[i]).len() > 0
            && settings::is_bare(front[i]) by {
            assert(front[i] == parts[i]);
        }
        lemma_all_listed(front);
        assert(settings::is_bare(parts[parts.len() - 1]));
        lemma_bare(parts.last());
        assert(front.push(parts.last()) =~= parts);
    } else {
        assert(supervisor::listed(parts) =~= parts);
    }
}

/// White space around an entry does not count.
pub proof fn lemma_listed_trims(
    parts: Seq<Seq<char>>,
    before: Seq<char>,
    entry: Seq<char>,
    after: Seq<char>,
)
    requires
        texts::is_blank(before),
        texts::is_blank(after),
        entry.len() > 0,
        settings::is_bare(entry),
    ensures
        supervisor::listed(parts.push(before + entry + after)) == supervisor::listed(parts).push(
            entry,
        ),
{
    texts::lemma_trimmed(before, entry, after);
    assert(parts.push(before + entry + after).drop_last() =~= parts);
}

/// The files of older versions are `state.json` and whatever begins with `wgcf-`.
pub proof fn lemma_legacy_files(rest: Seq<char>)
    ensures
        supervisor::names_legacy_file(seq!['w', 'g', 'c', 'f', '-'] + rest),
        supervisor::names_legacy_file(
            seq!['s', 't', 'a', 't', 'e', '.', 'j', 's', 'o', 'n'],
        ),
        supervisor::names_legacy_file(rest) ==> rest == seq![
            's',
            't',
            'a',
            't',
            'e',
            '.',
            'j',
            's',
            'o',
            'n',
        ] || rest.len() >= 5 && rest.take(5) == seq!['w', 'g', 'c', 'f', '-'],
{
    reveal_strlit("state.json");
    reveal_strlit("wgcf-");
    assert("wgcf-"@ =~= seq!['w', 'g', 'c', 'f', '-']);
    assert("state.json"@ =~= seq!['s', 't', 'a', 't', 'e', '.', 'j', 's', 'o', 'n']);
    assert((seq!['w', 'g', 'c', 'f', '-'] + rest).take(5) =~= "wgcf-"@);
}

// ---------------------------------------------------------------------------
// The watch

/// A heartbeat of success is left exactly by a probe that succeeded or a tunnel that was
/// mended, and one of failure exactly by a probe that failed.
pub proof fn lemma_beats(event: WatchEvent)
    ensures
        Watch::beat(event) == Some(true) <==> event == WatchEvent::Probed(true) || event
            == WatchEvent::Healed(true),
        Watch::beat(event) == Some(false) <==> event == WatchEvent::Probed(false),
{
}

// ---------------------------------------------------------------------------
// Hosts

/// A text with a character that no address has is a domain, as it is; the text of an
/// address is that address.
pub proof fn lemma_host(s: Seq<char>, i: int, o: Seq<u8>)
    requires
        0 <= i < s.len(),
        !addr::is_hex(s[i]),
        s[i] != ':',
        s[i] != '.',
        o.len() == 4 || o.len() == 16,
    ensures
        outbound::host_of_text(s) == HostView::Domain(s),
        outbound::host_of_text(addr::ip_text(o)) == HostView::Ip(o),
{
    outbound::lemma_host_of_address(o);
    if addr::ip_octets(s) is Some {
        addr::lemma_ip_chars(s);
        assert(addr::is_ip_char(s[i]));
    }
}

// ---------------------------------------------------------------------------
// The network stack

/// The source of a family is its first address, whatever addresses of the other family
/// stand around it.
pub proof fn lemma_source(addrs: Seq<(IpAddr, u8)>, v4: bool, k: int)
    ensures
        0 <= k < addrs.len() && (addrs[k].0 is V4) == v4 && (forall|i: int|
            0 <= i < k ==> ((#[trigger] addrs[i]).0 is V4) != v4) ==> netstack::first_of_family(
            addrs,
            v4,
        ) == Some(addrs[k].0),
        (forall|i: int| 0 <= i < addrs.len() ==> ((#[trigger] addrs[i]).0 is V4) != v4)
            ==> netstack::first_of_family(addrs, v4) is None,
    decreases addrs.len(),
{
    if addrs.len() > 0 {
        let front = addrs.drop_last();
        lemma_source(front, v4, k);
        if 0 <= k < addrs.len() && (addrs[k].0 is V4) == v4 && (forall|i: int|
            0 <= i < k ==> ((#[trigger] addrs[i]).0 is V4) != v4) {
            if k < front.len() {
                assert(front[k] == addrs[k]);
            }
            assert forall|i: int| 0 <= i < k && i < front.len() implies ((#[trigger] front[i]).0 is V4)
                != v4 by {
                assert(front[i] == addrs[i]);
            }
        }
        if forall|i: int| 0 <= i < addrs.len() ==> ((#[trigger] addrs[i]).0 is V4) != v4 {
            assert((addrs[addrs.len() - 1].0 is V4) != v4);
            assert forall|i: int| 0 <= i < front.len() implies ((#[trigger] front[i]).0 is V4)
                != v4 by {
                assert(front[i] == addrs[i]);
            }
        }
    }
}

/// The gateway of a family is the last one that is given for it.
pub proof fn lemma_gateway(gateways: Seq<IpAddr>, v4: bool, k: int)
    ensures
        0 <= k < gateways.len() && (gateways[k] is V4) == v4 && (forall|i: int|
            k < i < gateways.len() ==> ((#[trigger] gateways[i]) is V4) != v4)
            ==> netstack::last_of_family(gateways, v4) == Some(gateways[k]@),
        (forall|i: int| 0 <= i < gateways.len() ==> ((#[trigger] gateways[i]) is V4) != v4)
            ==> netstack::last_of_family(gateways, v4) is None,
    decreases gateways.len(),
{
    if gateways.len() > 0 {
        let front = gateways.drop_last();
        let n = gateways.len() - 1;
        lemma_gateway(front, v4, k);
        if 0 <= k < n && (gateways[k] is V4) == v4 && (forall|i: int|
            k < i < gateways.len() ==> ((#[trigger] gateways[i]) is V4) != v4) {
            assert((gateways[n] is V4) != v4);
            assert(front[k] == gateways[k]);
            assert forall|i: int| k < i < front.len() implies ((#[trigger] front[i]) is V4)
                != v4 by {
                assert(front[i] == gateways[i]);
            }
        }
        if forall|i: int| 0 <= i < gateways.len() ==> ((#[trigger] gateways[i]) is V4) != v4 {
            assert((gateways[n] is V4) != v4);
            assert forall|i: int| 0 <= i < front.len() implies ((#[trigger] front[i]) is V4)
                != v4 by {
                assert(front[i] == gateways[i]);
            }
        }
    }
}

/// The search for a port goes up by one through the ports 10001 to 60000 and begins
/// again at the first behind the last, so that fifty thousand steps try each once.
pub proof fn lemma_port_search(p: u16, k: nat)
    requires
        10001 <= p <= 60000,
    ensures
        10001 <= netstack::nth_port(p, k) <= 60000,
        netstack::nth_port(p, k) == 10001 + (p - 10001 + k) % 50000,
        netstack::port_count() == 50000,
        netstack::is_ephemeral(p),
    decreases k,
{
    if k > 0 {
        lemma_port_search(p, (k - 1) as nat);
        let q = netstack::nth_port(p, (k - 1) as nat);
        assert((p - 10001 + k) % 50000 == if q == 60000 {
            0
        } else {
            q - 10001 + 1
        });
    }
}

/// An interface can have any address but those of groups and the broadcast address.
pub proof fn lemma_assignable(o: Seq<u8>)
    requires
        o.len() == 4 || o.len() == 16,
    ensures
        o.len() == 4 && 224 <= o[0] <= 239 ==> !netstack::is_assignable(o),
        o == seq![255u8, 255, 255, 255] ==> !netstack::is_assignable(o),
        o.len() == 4 && o[0] < 224 ==> netstack::is_assignable(o),
        o.len() == 4 && o[0] >= 240 && o != seq![255u8, 255, 255, 255] ==> netstack::is_assignable(
            o,
        ),
        o.len() == 16 ==> (netstack::is_assignable(o) <==> o[0] != 255),
{
    if o.len() == 4 && !netstack::is_assignable(o) && !(224 <= o[0] < 240) {
        assert(o =~= seq![255u8, 255, 255, 255]);
    }
}

/// Addresses fill an interface up to what it can have.
pub proof fn lemma_filled(have: nat, more: nat, limit: nat)
    requires
        have <= limit,
    ensures
        netstack::filled(have, more, limit) <= limit,
        netstack::filled(have, more, limit) == have + more || netstack::filled(have, more, limit)
            == limit && have + more > limit,
{
}

} // verus!
