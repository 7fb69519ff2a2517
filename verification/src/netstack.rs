//! The network stack inside the tunnel: a thin layer over `smoltcp` for
//! outgoing TCP connections and UDP sockets in both address families.

use crate::addr;
use crate::addr::{IpAddr, SocketAddr};
use crate::text;
use smoltcp::iface::{Interface, SocketHandle, SocketSet};
use smoltcp::socket::{tcp, udp, Socket};
use smoltcp::wire::{IpAddress, IpEndpoint, IpListenEndpoint};
use std::collections::VecDeque;
use vstd::multiset::Multiset;
use vstd::prelude::*;

verus! {

/// Packets that are taken in or sent at a time, unless the device says otherwise.
pub const DEFAULT_MAX_BURST_SIZE: usize = 100;

/// Seconds after which the stack is polled although nothing happened.
pub const DEFAULT_POLL_INTERVAL: u64 = 60;

pub const EPHEMERAL_PORT_FIRST: u16 = 10001;

pub const EPHEMERAL_PORT_LAST: u16 = 60000;

/// `smoltcp::iface::SocketSet`: the sockets of the stack.
#[verifier::external_type_specification]
#[verifier::external_body]
pub struct ExSocketSet<'a>(smoltcp::iface::SocketSet<'a>);

/// `smoltcp::iface::SocketHandle`: a socket in a set.
#[verifier::external_type_specification]
#[verifier::external_body]
pub struct ExSocketHandle(smoltcp::iface::SocketHandle);

/// `smoltcp::iface::Interface`: addresses, routes and the state of the protocols.
#[verifier::external_type_specification]
#[verifier::external_body]
pub struct ExInterface(smoltcp::iface::Interface);

// ---------------------------------------------------------------------------
// Configuration

/// The buffers of each kind of socket, in bytes and in packets.
#[derive(Debug, Clone, Copy, PartialEq, Eq, Structural)]
pub struct BufferSize {
    pub tcp_rx_size: usize,
    pub tcp_tx_size: usize,
    pub udp_rx_size: usize,
    pub udp_tx_size: usize,
    pub udp_rx_meta_size: usize,
    pub udp_tx_meta_size: usize,
}

impl Default for BufferSize {
    fn default() -> (b: Self)
        ensures
            b.tcp_rx_size == 8192,
            b.tcp_tx_size == 8192,
            b.udp_rx_size == 8192,
            b.udp_tx_size == 8192,
            b.udp_rx_meta_size == 32,
            b.udp_tx_meta_size == 32,
    {
        BufferSize {
            tcp_rx_size: 8192,
            tcp_tx_size: 8192,
            udp_rx_size: 8192,
            udp_tx_size: 8192,
            udp_rx_meta_size: 32,
            udp_tx_meta_size: 32,
        }
    }
}

/// The addresses of the stack with their prefix lengths, its gateways, and its
/// buffers.
#[derive(Debug, Clone, PartialEq, Eq)]
pub struct NetConfig {
    pub ip_addrs: Vec<(IpAddr, u8)>,
    pub gateways: Vec<IpAddr>,
    pub buffer_size: BufferSize,
}

impl NetConfig {
    /// A configuration with buffers of the usual size.
    pub fn new(ip_addrs: Vec<(IpAddr, u8)>, gateways: Vec<IpAddr>) -> (c: Self)
        ensures
            c.ip_addrs == ip_addrs,
            c.gateways == gateways,
            c.buffer_size.tcp_rx_size == 8192,
            c.buffer_size.tcp_tx_size == 8192,
            c.buffer_size.udp_rx_size == 8192,
            c.buffer_size.udp_tx_size == 8192,
            c.buffer_size.udp_rx_meta_size == 32,
            c.buffer_size.udp_tx_meta_size == 32,
    {
        NetConfig { ip_addrs, gateways, buffer_size: BufferSize::default() }
    }
}

/// Why the stack does not do something.
#[derive(Clone, Copy, Debug, PartialEq, Eq)]
pub enum NetError {
    /// The stack needs an address.
    NoAddress,
    /// An address is given twice.
    DuplicateAddress,
    /// More addresses than the stack can hold.
    TooManyAddresses,
    /// The route by this gateway does not fit.
    Route(IpAddr),
    /// The stack has no address of this family; `true` for IPv4.
    NoSource(bool),
    PortInUse(u16),
    PortsExhausted,
    /// The target or the source cannot be connected.
    Unaddressable,
}

impl NetError {
    /// What is said of the error.
    pub open spec fn text(&self) -> Seq<char> {
        match *self {
            NetError::NoAddress => "netstack 至少需要一个接口地址"@,
            NetError::DuplicateAddress => "netstack 接口地址重复"@,
            NetError::TooManyAddresses => "netstack 接口地址数量超过 smoltcp 上限"@,
            NetError::Route(g) => "添加默认路由 "@ + addr::ip_text(g@) + " 失败: Route table full"@,
            NetError::NoSource(true) => "未配置 IPv4 源地址"@,
            NetError::NoSource(false) => "未配置 IPv6 源地址"@,
            NetError::PortInUse(p) => "端口 "@ + text::decimal(p as nat) + " 已被占用"@,
            NetError::PortsExhausted => "临时端口已耗尽"@,
            NetError::Unaddressable => "unaddressable destination"@,
        }
    }

    /// The error in words.
    pub fn message(&self) -> (s: String)
        ensures
            s@ == self.text(),
    {
        let mut out: Vec<char> = Vec::new();
        match self {
            NetError::NoAddress => text::push_str(&mut out, "netstack 至少需要一个接口地址"),
            NetError::DuplicateAddress => text::push_str(&mut out, "netstack 接口地址重复"),
            NetError::TooManyAddresses => text::push_str(
                &mut out,
                "netstack 接口地址数量超过 smoltcp 上限",
            ),
            NetError::Route(g) => {
                text::push_str(&mut out, "添加默认路由 ");
                addr::push_ip(&mut out, g);
                text::push_str(&mut out, " 失败: Route table full");
            },
            NetError::NoSource(v4) => {
                if *v4 {
                    text::push_str(&mut out, "未配置 IPv4 源地址");
                } else {
                    text::push_str(&mut out, "未配置 IPv6 源地址");
                }
            },
            NetError::PortInUse(p) => {
                text::push_str(&mut out, "端口 ");
                text::push_decimal(&mut out, *p as u64);
                text::push_str(&mut out, " 已被占用");
            },
            NetError::PortsExhausted => text::push_str(&mut out, "临时端口已耗尽"),
            NetError::Unaddressable => text::push_str(&mut out, "unaddressable destination"),
        }
        assert(out@ =~= self.text());
        text::string_of(out.as_slice())
    }
}

/// An octet sequence whose octets are all zero.
pub open spec fn is_unspecified(o: Seq<u8>) -> bool {
    forall|i: int| 0 <= i < o.len() ==> #[trigger] o[i] == 0
}

/// An address that an interface can have: no multicast address, and not the
/// IPv4 broadcast address.
pub open spec fn is_assignable(o: Seq<u8>) -> bool {
    if o.len() == 4 {
        !(224 <= o[0] < 240) && !(o[0] == 255 && o[1] == 255 && o[2] == 255 && o[3] == 255)
    } else {
        o[0] != 255
    }
}

/// A prefix length that the family of the address has.
pub open spec fn is_prefix_len(o: Seq<u8>, n: u8) -> bool {
    n <= if o.len() == 4 {
        32int
    } else {
        128
    }
}

/// Whether an interface can have an address.
pub fn assignable(ip: &IpAddr) -> (r: bool)
    ensures
        r == is_assignable(ip@),
{
    match ip {
        IpAddr::V4(o) => !(224 <= o[0] && o[0] < 240) && !(o[0] == 255 && o[1] == 255 && o[2] == 255
            && o[3] == 255),
        IpAddr::V6(o) => o[0] != 255,
    }
}

/// The addresses of an interface with their prefix lengths.
pub uninterp spec fn iface_addrs(i: Interface) -> Seq<(Seq<u8>, u8)>;

/// How many addresses an interface can have.
pub uninterp spec fn addr_limit(i: Interface) -> nat;

/// A route: destination, prefix length, gateway.
pub type RouteView = (Seq<u8>, u8, Seq<u8>);

/// The routes of an interface, in the order of its table.
pub uninterp spec fn iface_routes(i: Interface) -> Seq<RouteView>;

/// How many routes an interface can have.
pub uninterp spec fn route_limit(i: Interface) -> nat;

/// `Interface::update_ip_addrs` with one address pushed, if there is room for
/// it. It panics on addresses that are not assignable.
#[verifier::external_body]
fn push_address(i: &mut Interface, ip: IpAddr, prefix_len: u8) -> (pushed: bool)
    requires
        is_assignable(ip@),
        is_prefix_len(ip@, prefix_len),
    ensures
        pushed == (iface_addrs(*old(i)).len() < addr_limit(*old(i))),
        iface_addrs(*final(i)) == if pushed {
            iface_addrs(*old(i)).push((ip@, prefix_len))
        } else {
            iface_addrs(*old(i))
        },
        addr_limit(*final(i)) == addr_limit(*old(i)),
        iface_routes(*final(i)) == iface_routes(*old(i)),
        route_limit(*final(i)) == route_limit(*old(i)),
{
    let address = match ip {
        IpAddr::V4(o) => smoltcp::wire::IpAddress::Ipv4(o.into()),
        IpAddr::V6(o) => smoltcp::wire::IpAddress::Ipv6(o.into()),
    };
    let mut pushed = false;
    i.update_ip_addrs(|addrs| {
        pushed = addrs.push(smoltcp::wire::IpCidr::new(address, prefix_len)).is_ok();
    });
    pushed
}

/// How many addresses `Interface::ip_addrs` gives.
#[verifier::external_body]
fn address_count(i: &Interface) -> (n: usize)
    ensures
        n == iface_addrs(*i).len(),
{
    i.ip_addrs().len()
}

/// A default route of a family; `true` for IPv4.
pub open spec fn is_default(r: RouteView, v4: bool) -> bool {
    r.1 == 0 && is_unspecified(r.0) && r.0.len() == if v4 {
        4int
    } else {
        16
    }
}

/// Where the first default route of a family stands; behind the last route where
/// there is none.
pub open spec fn default_at(rs: Seq<RouteView>, v4: bool) -> int
    decreases rs.len(),
{
    if rs.len() == 0 {
        0
    } else {
        let k = default_at(rs.drop_last(), v4);
        if k == rs.len() - 1 && !is_default(rs.last(), v4) {
            rs.len() as int
        } else {
            k
        }
    }
}

/// The routes without the first default route of a family.
pub open spec fn without_default(rs: Seq<RouteView>, v4: bool) -> Seq<RouteView> {
    let k = default_at(rs, v4);
    if 0 <= k < rs.len() {
        rs.remove(k)
    } else {
        rs
    }
}

/// The default route by a gateway.
pub open spec fn default_by(gateway: IpAddr) -> RouteView {
    (Seq::new(gateway@.len(), |i: int| 0u8), 0u8, gateway@)
}

/// `Routes::add_default_ipv4_route` or `add_default_ipv6_route`: the first
/// default route of the family is removed, and the new one added behind the
/// others if there is room.
#[verifier::external_body]
fn set_default_route(i: &mut Interface, gateway: IpAddr) -> (added: bool)
    ensures
        added == (without_default(iface_routes(*old(i)), gateway is V4).len() < route_limit(
            *old(i),
        )),
        iface_routes(*final(i)) == if added {
            without_default(iface_routes(*old(i)), gateway is V4).push(default_by(gateway))
        } else {
            without_default(iface_routes(*old(i)), gateway is V4)
        },
        route_limit(*final(i)) == route_limit(*old(i)),
        iface_addrs(*final(i)) == iface_addrs(*old(i)),
        addr_limit(*final(i)) == addr_limit(*old(i)),
{
    match gateway {
        IpAddr::V4(o) => i.routes_mut().add_default_ipv4_route(o.into()).is_ok(),
        IpAddr::V6(o) => i.routes_mut().add_default_ipv6_route(o.into()).is_ok(),
    }
}

/// The routes after default routes by these gateways were added one after the
/// other, or the gateway whose route did not fit.
pub open spec fn routes_after(rs: Seq<RouteView>, limit: nat, gateways: Seq<IpAddr>) -> Result<
    Seq<RouteView>,
    IpAddr,
>
    decreases gateways.len(),
{
    if gateways.len() == 0 {
        Ok(rs)
    } else {
        match routes_after(rs, limit, gateways.drop_last()) {
            Err(g) => Err(g),
            Ok(before) => {
                let kept = without_default(before, gateways.last() is V4);
                if kept.len() < limit {
                    Ok(kept.push(default_by(gateways.last())))
                } else {
                    Err(gateways.last())
                }
            },
        }
    }
}

/// The gateways of the default routes of a family.
pub open spec fn default_gateways(rs: Seq<RouteView>, v4: bool) -> Seq<Seq<u8>>
    decreases rs.len(),
{
    if rs.len() == 0 {
        Seq::empty()
    } else if is_default(rs.last(), v4) {
        default_gateways(rs.drop_last(), v4).push(rs.last().2)
    } else {
        default_gateways(rs.drop_last(), v4)
    }
}

proof fn lemma_failed_route(rs: Seq<RouteView>, limit: nat, gs: Seq<IpAddr>, k: int)
    requires
        0 <= k <= gs.len(),
        routes_after(rs, limit, gs.take(k)) is Err,
    ensures
        routes_after(rs, limit, gs) == routes_after(rs, limit, gs.take(k)),
    decreases gs.len() - k,
{
    if k == gs.len() {
        assert(gs.take(k) =~= gs);
    } else {
        assert(gs.take(k + 1).drop_last() =~= gs.take(k));
        lemma_failed_route(rs, limit, gs, k + 1);
    }
}

proof fn lemma_remove_other(rs: Seq<RouteView>, k: int, v4: bool)
    requires
        0 <= k < rs.len(),
        !is_default(rs[k], v4),
    ensures
        default_gateways(rs.remove(k), v4) == default_gateways(rs, v4),
    decreases rs.len(),
{
    if k == rs.len() - 1 {
        assert(rs.remove(k) =~= rs.drop_last());
    } else {
        lemma_remove_other(rs.drop_last(), k, v4);
        assert(rs.remove(k).drop_last() =~= rs.drop_last().remove(k));
        assert(rs.remove(k).last() == rs.last());
    }
}

proof fn lemma_remove_default(rs: Seq<RouteView>, v4: bool)
    ensures
        0 <= default_at(rs, v4) <= rs.len(),
        default_at(rs, v4) == rs.len() ==> default_gateways(rs, v4).len() == 0,
        default_at(rs, v4) < rs.len() ==> {
            &&& is_default(rs[default_at(rs, v4)], v4)
            &&& default_gateways(rs, v4).len() > 0
            &&& default_gateways(rs.remove(default_at(rs, v4)), v4) == default_gateways(
                rs,
                v4,
            ).drop_first()
        },
    decreases rs.len(),
{
    if rs.len() > 0 {
        let before = rs.drop_last();
        let k = default_at(rs, v4);
        lemma_remove_default(before, v4);
        if default_at(before, v4) < before.len() {
            let gs = default_gateways(before, v4);
            assert(rs.remove(k).drop_last() =~= before.remove(k));
            assert(rs.remove(k).last() == rs.last());
            assert(gs.push(rs.last().2).drop_first() =~= gs.drop_first().push(rs.last().2));
        } else if k < rs.len() {
            assert(rs.remove(k) =~= before);
            assert(default_gateways(rs, v4).drop_first() =~= Seq::<Seq<u8>>::empty());
            assert(default_gateways(before, v4) =~= Seq::<Seq<u8>>::empty());
        }
    }
}

/// On an interface without default routes, the last gateway of each family
/// becomes the one default route of that family.
pub proof fn lemma_gateways_become_routes(
    rs: Seq<RouteView>,
    limit: nat,
    gateways: Seq<IpAddr>,
    v4: bool,
)
    requires
        default_gateways(rs, v4).len() == 0,
        routes_after(rs, limit, gateways) is Ok,
    ensures
        default_gateways(routes_after(rs, limit, gateways)->Ok_0, v4) == match last_of_family(
            gateways,
            v4,
        ) {
            Some(g) => seq![g],
            None => Seq::empty(),
        },
    decreases gateways.len(),
{
    if gateways.len() == 0 {
        assert(default_gateways(rs, v4) =~= Seq::empty());
    } else {
        let g = gateways.last();
        let before = routes_after(rs, limit, gateways.drop_last())->Ok_0;
        lemma_gateways_become_routes(rs, limit, gateways.drop_last(), v4);
        let kept = without_default(before, g is V4);
        let k = default_at(before, g is V4);
        lemma_remove_default(before, g is V4);
        let out = kept.push(default_by(g));
        assert(out.drop_last() =~= kept);
        assert(is_default(default_by(g), g is V4));
        assert(!is_default(default_by(g), !(g is V4)));
        if (g is V4) == v4 {
            assert(default_gateways(kept, v4) =~= Seq::empty());
            assert(default_gateways(out, v4) =~= seq![g@]);
        } else {
            if k < before.len() {
                assert(!is_default(before[k], v4));
                lemma_remove_other(before, k, v4);
            }
        }
    }
}

/// The first address of a family; `true` for IPv4.
pub open spec fn first_of_family(addrs: Seq<(IpAddr, u8)>, v4: bool) -> Option<IpAddr>
    decreases addrs.len(),
{
    if addrs.len() == 0 {
        None
    } else if first_of_family(addrs.drop_last(), v4) is Some {
        first_of_family(addrs.drop_last(), v4)
    } else if (addrs.last().0 is V4) == v4 {
        Some(addrs.last().0)
    } else {
        None
    }
}

/// The last gateway of a family.
pub open spec fn last_of_family(gateways: Seq<IpAddr>, v4: bool) -> Option<Seq<u8>>
    decreases gateways.len(),
{
    if gateways.len() == 0 {
        None
    } else if (gateways.last() is V4) == v4 {
        Some(gateways.last()@)
    } else {
        last_of_family(gateways.drop_last(), v4)
    }
}

/// Addresses and prefix lengths.
pub open spec fn cidr_views(addrs: Seq<(IpAddr, u8)>) -> Seq<(Seq<u8>, u8)> {
    Seq::new(addrs.len(), |i: int| (addrs[i].0@, addrs[i].1))
}

/// No address is given twice.
pub open spec fn addrs_distinct(addrs: Seq<(IpAddr, u8)>) -> bool {
    forall|i: int, j: int|
        0 <= i < j < addrs.len() ==> #[trigger] addrs[i].0@ != #[trigger] addrs[j].0@
}

fn distinct(addrs: &Vec<(IpAddr, u8)>) -> (r: bool)
    ensures
        r == addrs_distinct(addrs@),
{
    let mut j: usize = 0;
    while j < addrs.len()
        invariant
            j <= addrs@.len(),
            forall|a: int, b: int|
                0 <= a < b < j ==> #[trigger] addrs@[a].0@ != #[trigger] addrs@[b].0@,
        decreases addrs@.len() - j,
    {
        let mut i: usize = 0;
        while i < j
            invariant
                i <= j < addrs@.len(),
                forall|a: int| 0 <= a < i ==> #[trigger] addrs@[a].0@ != addrs@[j as int].0@,
            decreases j - i,
        {
            let a = addrs[i].0;
            let b = addrs[j].0;
            if addr::same_ip(&a, &b) {
                assert(addrs@[i as int].0@ == addrs@[j as int].0@);
                return false;
            }
            i += 1;
        }
        j += 1;
    }
    true
}

/// The source addresses of the stack.
#[derive(Clone, Copy, Debug, PartialEq, Eq)]
pub struct Sources {
    pub v4: Option<IpAddr>,
    pub v6: Option<IpAddr>,
}

/// Every address can be assigned, and has a prefix length of its family.
pub open spec fn config_ok(c: NetConfig) -> bool {
    forall|i: int|
        0 <= i < c.ip_addrs@.len() ==> is_assignable((#[trigger] c.ip_addrs@[i]).0@)
            && is_prefix_len(c.ip_addrs@[i].0@, c.ip_addrs@[i].1)
}

/// How many addresses an interface with `have` addresses has when `more` were
/// pushed, as far as there was room.
pub open spec fn filled(have: nat, more: nat, limit: nat) -> nat {
    if have >= limit {
        have
    } else if have + more <= limit {
        have + more
    } else {
        limit
    }
}

/// Gives a new interface its addresses and routes. The first address of each
/// family is the source of what is sent in that family.
pub fn configure(i: &mut Interface, config: &NetConfig) -> (r: Result<Sources, NetError>)
    requires
        config_ok(*config),
    ensures
        ({
            let have = iface_addrs(*old(i)).len();
            let n = config.ip_addrs@.len();
            let total = filled(have, n, addr_limit(*old(i)));
            if n == 0 {
                r == Err::<Sources, NetError>(NetError::NoAddress) && *final(i) == *old(i)
            } else if !addrs_distinct(config.ip_addrs@) {
                r == Err::<Sources, NetError>(NetError::DuplicateAddress) && *final(i) == *old(i)
            } else if total != n {
                r == Err::<Sources, NetError>(NetError::TooManyAddresses)
            } else {
                match routes_after(
                    iface_routes(*old(i)),
                    route_limit(*old(i)),
                    config.gateways@,
                ) {
                    Err(g) => r == Err::<Sources, NetError>(NetError::Route(g)),
                    Ok(routes) => {
                        &&& r matches Ok(s)
                        &&& s.v4 == first_of_family(config.ip_addrs@, true)
                        &&& s.v6 == first_of_family(config.ip_addrs@, false)
                        &&& iface_addrs(*final(i)) == iface_addrs(*old(i)) + cidr_views(
                            config.ip_addrs@,
                        ).take(total - have)
                        &&& iface_routes(*final(i)) == routes
                    },
                }
            }
        }),
{
    if config.ip_addrs.len() == 0 {
        return Err(NetError::NoAddress);
    }
    if !distinct(&config.ip_addrs) {
        return Err(NetError::DuplicateAddress);
    }
    let mut sources = Sources { v4: None, v6: None };
    let ghost start = iface_addrs(*i);
    let ghost limit = addr_limit(*i);
    let ghost routes = iface_routes(*i);
    let ghost room = route_limit(*i);
    let ghost all = config.ip_addrs@;
    let mut k: usize = 0;
    assert(all.take(0) =~= Seq::empty());
    assert(start + cidr_views(all).take(0) =~= start);
    while k < config.ip_addrs.len()
        invariant
            k <= all.len(),
            all == config.ip_addrs@,
            config_ok(*config),
            sources.v4 == first_of_family(all.take(k as int), true),
            sources.v6 == first_of_family(all.take(k as int), false),
            iface_addrs(*i) == start + cidr_views(all).take(
                filled(start.len(), k as nat, limit) - start.len(),
            ),
            addr_limit(*i) == limit,
            iface_routes(*i) == routes,
            route_limit(*i) == room,
        decreases all.len() - k,
    {
        let (ip, prefix_len) = config.ip_addrs[k];
        assert(all.take(k + 1).drop_last() =~= all.take(k as int));
        assert(all.take(k + 1).last() == all[k as int]);
        match ip {
            IpAddr::V4(_) => {
                if sources.v4.is_none() {
                    sources.v4 = Some(ip);
                }
            },
            IpAddr::V6(_) => {
                if sources.v6.is_none() {
                    sources.v6 = Some(ip);
                }
            },
        }
        let pushed = push_address(i, ip, prefix_len);
        proof {
            if pushed {
                assert(cidr_views(all).take(k + 1) =~= cidr_views(all).take(k as int).push(
                    (ip@, prefix_len),
                ));
                assert(iface_addrs(*i) =~= start + cidr_views(all).take(k + 1));
            }
        }
        k += 1;
    }
    assert(all.take(k as int) =~= all);
    if address_count(i) != config.ip_addrs.len() {
        return Err(NetError::TooManyAddresses);
    }
    let ghost gs = config.gateways@;
    let ghost addrs = iface_addrs(*i);
    let mut g: usize = 0;
    assert(gs.take(0) =~= Seq::empty());
    while g < config.gateways.len()
        invariant
            g <= gs.len(),
            gs == config.gateways@,
            iface_addrs(*i) == addrs,
            route_limit(*i) == room,
            routes_after(routes, room, gs.take(g as int)) == Ok::<Seq<RouteView>, IpAddr>(
                iface_routes(*i),
            ),
            routes == iface_routes(*old(i)),
            room == route_limit(*old(i)),
            all == config.ip_addrs@,
            all.len() > 0,
            addrs_distinct(all),
            filled(iface_addrs(*old(i)).len(), all.len(), addr_limit(*old(i))) == all.len(),
        decreases gs.len() - g,
    {
        let gateway = config.gateways[g];
        assert(gs.take(g + 1).drop_last() =~= gs.take(g as int));
        assert(gs.take(g + 1).last() == gateway);
        if !set_default_route(i, gateway) {
            proof {
                lemma_failed_route(routes, room, gs, g + 1);
            }
            return Err(NetError::Route(gateway));
        }
        g += 1;
    }
    assert(gs.take(g as int) =~= gs);
    Ok(sources)
}

impl Sources {
    /// The source for a target: the address of its family.
    pub fn source_for(&self, target: &SocketAddr) -> (r: Result<IpAddr, NetError>)
        ensures
            r == if target.ip is V4 {
                match self.v4 {
                    Some(ip) => Ok::<IpAddr, NetError>(ip),
                    None => Err(NetError::NoSource(true)),
                }
            } else {
                match self.v6 {
                    Some(ip) => Ok::<IpAddr, NetError>(ip),
                    None => Err(NetError::NoSource(false)),
                }
            },
    {
        if target.ip.is_ipv4() {
            match self.v4 {
                Some(ip) => Ok(ip),
                None => Err(NetError::NoSource(true)),
            }
        } else {
            match self.v6 {
                Some(ip) => Ok(ip),
                None => Err(NetError::NoSource(false)),
            }
        }
    }
}

// ---------------------------------------------------------------------------
// Ports

/// The port that is tried after `p`.
pub open spec fn next_of(p: u16) -> u16 {
    if p >= EPHEMERAL_PORT_LAST {
        EPHEMERAL_PORT_FIRST
    } else {
        (p + 1) as u16
    }
}

/// The port that is tried `k` steps after `p`.
pub open spec fn nth_port(p: u16, k: nat) -> u16
    decreases k,
{
    if k == 0 {
        p
    } else {
        next_of(nth_port(p, (k - 1) as nat))
    }
}

/// How many ephemeral ports there are.
pub open spec fn port_count() -> nat {
    (EPHEMERAL_PORT_LAST - EPHEMERAL_PORT_FIRST + 1) as nat
}

/// Chooses a port: the requested one if it is free; without a request, the
/// first free one from `next` on, round the ephemeral ports.
pub fn select_port<F: Fn(u16) -> bool>(next: &mut u16, requested: u16, in_use: F) -> (r: Result<
    u16,
    NetError,
>)
    requires
        forall|p: u16| #[trigger] in_use.requires((p,)),
    ensures
        match r {
            Ok(p) => if requested != 0 {
                p == requested && in_use.ensures((p,), false) && *final(next) == *old(next)
            } else {
                exists|k: nat|
                    {
                        &&& k < port_count()
                        &&& p == #[trigger] nth_port(*old(next), k)
                        &&& in_use.ensures((p,), false)
                        &&& forall|j: nat|
                            j < k ==> in_use.ensures((#[trigger] nth_port(*old(next), j),), true)
                        &&& *final(next) == next_of(p)
                    }
            },
            Err(e) => if requested != 0 {
                e == NetError::PortInUse(requested) && in_use.ensures((requested,), true)
                    && *final(next) == *old(next)
            } else {
                &&& e == NetError::PortsExhausted
                &&& forall|j: nat|
                    j < port_count() ==> in_use.ensures((#[trigger] nth_port(*old(next), j),), true)
                &&& *final(next) == nth_port(*old(next), port_count())
            },
        },
{
    if requested != 0 {
        if in_use(requested) {
            return Err(NetError::PortInUse(requested));
        }
        return Ok(requested);
    }
    let count: usize = (EPHEMERAL_PORT_LAST - EPHEMERAL_PORT_FIRST) as usize + 1;
    let ghost start = *next;
    let mut k: usize = 0;
    while k < count
        invariant
            k <= count,
            count == port_count(),
            start == *old(next),
            requested == 0,
            *next == nth_port(start, k as nat),
            forall|p: u16| #[trigger] in_use.requires((p,)),
            forall|j: nat| j < k ==> in_use.ensures((#[trigger] nth_port(start, j),), true),
        decreases count - k,
    {
        let candidate: u16 = *next;
        *next = if candidate >= EPHEMERAL_PORT_LAST {
            EPHEMERAL_PORT_FIRST
        } else {
            candidate + 1
        };
        assert(nth_port(start, (k + 1) as nat) == *next);
        if !in_use(candidate) {
            assert(candidate == nth_port(start, k as nat));
            return Ok(candidate);
        }
        k += 1;
    }
    Err(NetError::PortsExhausted)
}

/// A port of the ephemeral range.
pub open spec fn is_ephemeral(p: u16) -> bool {
    EPHEMERAL_PORT_FIRST <= p <= EPHEMERAL_PORT_LAST
}

proof fn lemma_nth_port(p: u16, k: nat)
    requires
        is_ephemeral(p),
        k <= port_count(),
    ensures
        is_ephemeral(nth_port(p, k)),
        nth_port(p, k) == if p + k <= EPHEMERAL_PORT_LAST {
            p + k
        } else {
            p + k - port_count()
        },
    decreases k,
{
    if k > 0 {
        lemma_nth_port(p, (k - 1) as nat);
    }
}

/// From any ephemeral port the search stays within the range and comes to every
/// port of it.
pub proof fn lemma_search_covers_range(p: u16, q: u16)
    requires
        is_ephemeral(p),
        is_ephemeral(q),
    ensures
        exists|k: nat| k < port_count() && #[trigger] nth_port(p, k) == q,
        forall|k: nat| k <= port_count() ==> is_ephemeral(#[trigger] nth_port(p, k)),
{
    let k = if q >= p {
        (q - p) as nat
    } else {
        (q - p + port_count()) as nat
    };
    lemma_nth_port(p, k);
    assert(nth_port(p, k) == q);
    assert forall|k: nat| k <= port_count() implies is_ephemeral(#[trigger] nth_port(p, k)) by {
        lemma_nth_port(p, k);
    }
}

// ---------------------------------------------------------------------------
// Sockets

/// A local end of a socket: whether it is TCP, its address if it has one, and
/// its port.
pub type BindingView = (bool, Option<Seq<u8>>, u16);

/// The local ends of the sockets in a set.
pub uninterp spec fn socket_bindings(s: SocketSet<'static>) -> Multiset<BindingView>;

/// The local end of the socket that a handle stands for in a set, if it stands
/// for one.
pub uninterp spec fn binding_of(s: SocketSet<'static>, h: SocketHandle) -> Option<BindingView>;

/// The address and port that the TCP socket of a handle is connected to in a set; a
/// UDP socket has none.
pub uninterp spec fn remote_of(s: SocketSet<'static>, h: SocketHandle) -> Option<(Seq<u8>, u16)>;

/// Room in the buffers of a socket: packets and bytes to receive, packets and bytes
/// to send. A TCP socket counts no packets.
pub type RoomView = (usize, usize, usize, usize);

/// The room in the buffers of the socket of a handle in a set.
pub uninterp spec fn room_of(s: SocketSet<'static>, h: SocketHandle) -> Option<RoomView>;

/// The room in the buffers of a UDP socket.
pub open spec fn udp_room(b: BufferSize) -> RoomView {
    (b.udp_rx_meta_size, b.udp_rx_size, b.udp_tx_meta_size, b.udp_tx_size)
}

/// The room in the buffers of a TCP socket.
pub open spec fn tcp_room(b: BufferSize) -> RoomView {
    (0, b.tcp_rx_size, 0, b.tcp_tx_size)
}

/// No other handle than `h` stands for another socket than before.
pub open spec fn others_stay(
    before: SocketSet<'static>,
    after: SocketSet<'static>,
    h: SocketHandle,
) -> bool {
    &&& forall|k: SocketHandle| k != h ==> #[trigger] binding_of(after, k) == binding_of(before, k)
    &&& forall|k: SocketHandle| k != h ==> #[trigger] remote_of(after, k) == remote_of(before, k)
    &&& forall|k: SocketHandle| k != h ==> #[trigger] room_of(after, k) == room_of(before, k)
}

/// The local end of a socket.
#[derive(Clone, Copy, Debug, PartialEq, Eq)]
pub struct Binding {
    pub is_tcp: bool,
    pub addr: Option<IpAddr>,
    pub port: u16,
}

/// A list of local ends.
pub open spec fn binding_views(v: Seq<Binding>) -> Seq<BindingView> {
    Seq::new(v.len(), |i: int| (v[i].is_tcp, crate::dns::octets_opt(v[i].addr), v[i].port))
}

/// Whether a set of sockets grows as sockets are added, as one on a vector
/// does. One on a slice of fixed size panics when it is full.
pub uninterp spec fn sockets_grow(s: SocketSet<'static>) -> bool;

/// `SocketSet::new` on an empty vector.
#[verifier::external_body]
fn new_sockets() -> (s: SocketSet<'static>)
    ensures
        socket_bindings(s) == Multiset::<BindingView>::empty(),
        forall|h: SocketHandle| #[trigger] binding_of(s, h) is None,
        sockets_grow(s),
{
    SocketSet::new(Vec::new())
}

/// `SocketSet::iter`, with the local end of every socket.
#[verifier::external_body]
fn list_sockets(s: &SocketSet<'static>) -> (out: Vec<Binding>)
    ensures
        binding_views(out@).to_multiset() == socket_bindings(*s),
{
    let ip = |a: IpAddress| match a {
        IpAddress::Ipv4(a) => IpAddr::V4(a.octets()),
        IpAddress::Ipv6(a) => IpAddr::V6(a.octets()),
    };
    let tcp = |e: Option<IpEndpoint>| (e.map(|e| ip(e.addr)), e.map_or(0, |e| e.port));
    s.iter().map(|(_, socket)| match socket {
        Socket::Tcp(t) => (true, tcp(t.local_endpoint())),
        Socket::Udp(u) => (false, (u.endpoint().addr.map(ip), u.endpoint().port)),
    }).map(|(is_tcp, (addr, port))| Binding { is_tcp, addr, port }).collect()
}

/// The buffers of a UDP socket can be asked for: no more than `isize::MAX` bytes each,
/// of which the record of a packet takes no more than 128.
pub open spec fn udp_fits(b: BufferSize) -> bool {
    &&& b.udp_rx_size <= isize::MAX
    &&& b.udp_tx_size <= isize::MAX
    &&& b.udp_rx_meta_size <= isize::MAX / 128
    &&& b.udp_tx_meta_size <= isize::MAX / 128
}

/// The buffers of a TCP socket can be asked for, and the stack can name how much room
/// there is for what is received.
pub open spec fn tcp_fits(b: BufferSize) -> bool {
    b.tcp_rx_size <= MAX_TCP_BUFFER && b.tcp_tx_size <= isize::MAX
}

/// Whether the buffers of each kind of socket can be asked for.
pub fn buffers_fit(b: &BufferSize) -> (r: bool)
    ensures
        r == (udp_fits(*b) && tcp_fits(*b)),
{
    let most: usize = isize::MAX as usize;
    b.udp_rx_size <= most && b.udp_tx_size <= most && b.udp_rx_meta_size <= most / 128
        && b.udp_tx_meta_size <= most / 128 && b.tcp_rx_size <= MAX_TCP_BUFFER && b.tcp_tx_size
        <= most
}

/// `udp::Socket::bind` on a new socket with these buffers, and
/// `SocketSet::add`. A port other than zero can be bound.
#[verifier::external_body]
fn add_udp(s: &mut SocketSet<'static>, b: &BufferSize, addr: IpAddr, port: u16) -> (r: Option<
    SocketHandle,
>)
    requires
        udp_fits(*b),
        sockets_grow(*old(s)),
    ensures
        sockets_grow(*final(s)),
        r is Some == (port != 0),
        r matches Some(h) ==> {
            &&& socket_bindings(*final(s)) == socket_bindings(*old(s)).insert(
                (false, Some(addr@), port),
            )
            &&& binding_of(*old(s), h) is None
            &&& binding_of(*final(s), h) == Some((false, Some(addr@), port))
            &&& remote_of(*final(s), h) is None
            &&& room_of(*final(s), h) == Some(udp_room(*b))
            &&& others_stay(*old(s), *final(s), h)
        },
        r is None ==> *final(s) == *old(s),
{
    let rx_meta = vec![udp::PacketMetadata::EMPTY; b.udp_rx_meta_size];
    let tx_meta = vec![udp::PacketMetadata::EMPTY; b.udp_tx_meta_size];
    let rx = udp::PacketBuffer::new(rx_meta, vec![0; b.udp_rx_size]);
    let tx = udp::PacketBuffer::new(tx_meta, vec![0; b.udp_tx_size]);
    let mut socket = udp::Socket::new(rx, tx);
    let addr = match addr {
        IpAddr::V4(o) => IpAddress::Ipv4(o.into()),
        IpAddr::V6(o) => IpAddress::Ipv6(o.into()),
    };
    socket.bind(IpListenEndpoint { addr: Some(addr), port }).ok()?;
    Some(s.add(socket))
}

/// The largest receive buffer of a TCP socket.
pub const MAX_TCP_BUFFER: usize = 0x4000_0000;

/// Two ends that can be connected: ports other than zero, no unspecified
/// address, one family.
pub open spec fn can_connect(source: Seq<u8>, port: u16, remote: Seq<u8>, remote_port: u16) -> bool {
    &&& port != 0
    &&& remote_port != 0
    &&& !is_unspecified(source)
    &&& !is_unspecified(remote)
    &&& source.len() == remote.len()
}

/// `tcp::Socket::connect` on a new socket with these buffers, and
/// `SocketSet::add`. The receive buffer is limited. Of the interface only the random
/// number generator is used.
#[verifier::external_body]
fn add_tcp(
    s: &mut SocketSet<'static>,
    i: &mut Interface,
    b: &BufferSize,
    source: (IpAddr, u16),
    remote: (IpAddr, u16),
) -> (r: Option<SocketHandle>)
    requires
        tcp_fits(*b),
        sockets_grow(*old(s)),
    ensures
        sockets_grow(*final(s)),
        r is Some == can_connect(source.0@, source.1, remote.0@, remote.1),
        r matches Some(h) ==> {
            &&& socket_bindings(*final(s)) == socket_bindings(*old(s)).insert(
                (true, Some(source.0@), source.1),
            )
            &&& binding_of(*old(s), h) is None
            &&& binding_of(*final(s), h) == Some((true, Some(source.0@), source.1))
            &&& remote_of(*final(s), h) == Some((remote.0@, remote.1))
            &&& room_of(*final(s), h) == Some(tcp_room(*b))
            &&& others_stay(*old(s), *final(s), h)
        },
        r is None ==> *final(s) == *old(s),
        iface_addrs(*final(i)) == iface_addrs(*old(i)),
        addr_limit(*final(i)) == addr_limit(*old(i)),
        iface_routes(*final(i)) == iface_routes(*old(i)),
        route_limit(*final(i)) == route_limit(*old(i)),
{
    let end = |(ip, port): (IpAddr, u16)| match ip {
        IpAddr::V4(o) => IpEndpoint::new(IpAddress::Ipv4(o.into()), port),
        IpAddr::V6(o) => IpEndpoint::new(IpAddress::Ipv6(o.into()), port),
    };
    let rx = tcp::SocketBuffer::new(vec![0; b.tcp_rx_size]);
    let tx = tcp::SocketBuffer::new(vec![0; b.tcp_tx_size]);
    let mut socket = tcp::Socket::new(rx, tx);
    socket.connect(i.context(), end(remote), end(source)).ok()?;
    Some(s.add(socket))
}

/// `SocketSet::remove`. It panics where the handle stands for no socket.
#[verifier::external_body]
fn remove_socket(s: &mut SocketSet<'static>, h: SocketHandle)
    requires
        binding_of(*old(s), h) is Some,
    ensures
        socket_bindings(*old(s)) == socket_bindings(*final(s)).insert(
            binding_of(*old(s), h)->Some_0,
        ),
        binding_of(*final(s), h) is None,
        remote_of(*final(s), h) is None,
        room_of(*final(s), h) is None,
        others_stay(*old(s), *final(s), h),
        sockets_grow(*final(s)) == sockets_grow(*old(s)),
{
    s.remove(h);
}

/// Some socket of the transport has this port on an address of the family.
pub open spec fn port_taken(m: Multiset<BindingView>, is_tcp: bool, v4: bool, port: u16) -> bool {
    exists|b: BindingView| #[trigger]
        m.count(b) > 0 && b.0 == is_tcp && b.1 is Some && (b.1->Some_0.len() == 4) == v4 && b.2
            == port
}

/// The first port from `start` on, round the ephemeral ports, that is free for the
/// transport and the family.
pub open spec fn is_first_free(
    m: Multiset<BindingView>,
    is_tcp: bool,
    v4: bool,
    start: u16,
    port: u16,
) -> bool {
    &&& !port_taken(m, is_tcp, v4, port)
    &&& exists|k: nat|
        k < port_count() && port == #[trigger] nth_port(start, k) && forall|j: nat|
            j < k ==> port_taken(m, is_tcp, v4, #[trigger] nth_port(start, j))
}

/// Every ephemeral port is taken for the transport and the family.
pub open spec fn none_free(m: Multiset<BindingView>, is_tcp: bool, v4: bool) -> bool {
    forall|p: u16| #[trigger] is_ephemeral(p) ==> port_taken(m, is_tcp, v4, p)
}

/// The transport of a socket.
#[derive(Clone, Copy, Debug, PartialEq, Eq, Structural)]
pub enum Transport {
    Tcp,
    Udp,
}

/// The family of an address.
#[derive(Clone, Copy, Debug, PartialEq, Eq, Structural)]
pub enum AddressFamily {
    Ipv4,
    Ipv6,
}

impl AddressFamily {
    /// The family of an address.
    pub fn of(ip: &IpAddr) -> (f: Self)
        ensures
            f == if ip is V4 {
                AddressFamily::Ipv4
            } else {
                AddressFamily::Ipv6
            },
    {
        match ip {
            IpAddr::V4(_) => AddressFamily::Ipv4,
            IpAddr::V6(_) => AddressFamily::Ipv6,
        }
    }

    /// Whether an address is of this family.
    pub fn matches(self, ip: &IpAddr) -> (r: bool)
        ensures
            r == ((self is Ipv4) == (ip is V4)),
    {
        self == AddressFamily::of(ip)
    }
}

/// The sockets of the stack, and where the search for a free port goes on. The
/// set of sockets alone says which ports are taken.
pub struct SocketTable {
    pub sockets: SocketSet<'static>,
    pub next_port: u16,
}

fn taken_in(list: &Vec<Binding>, transport: Transport, family: AddressFamily, port: u16) -> (r:
    bool)
    ensures
        r == port_taken(
            binding_views(list@).to_multiset(),
            transport is Tcp,
            family is Ipv4,
            port,
        ),
{
    let is_tcp: bool = transport == Transport::Tcp;
    let ghost v4 = family is Ipv4;
    let ghost views = binding_views(list@);
    proof {
        views.to_multiset_ensures();
    }
    let mut i: usize = 0;
    while i < list.len()
        invariant
            i <= list@.len(),
            is_tcp == (transport is Tcp),
            v4 == (family is Ipv4),
            views == binding_views(list@),
            forall|x: BindingView| views.contains(x) <==> #[trigger] views.to_multiset().count(x)
                > 0,
            forall|k: int|
                0 <= k < i ==> !({
                    let b = #[trigger] views[k];
                    b.0 == is_tcp && b.1 is Some && (b.1->Some_0.len() == 4) == v4 && b.2 == port
                }),
        decreases list@.len() - i,
    {
        let b = &list[i];
        if b.is_tcp == is_tcp && b.port == port {
            if let Some(ip) = &b.addr {
                if family.matches(ip) {
                    proof {
                        let w = views[i as int];
                        assert(views.contains(w));
                        assert(views.to_multiset().count(w) > 0);
                    }
                    return true;
                }
            }
        }
        i += 1;
    }
    proof {
        assert forall|b: BindingView| #[trigger] views.to_multiset().count(b) > 0 implies !(b.0
            == is_tcp && b.1 is Some && (b.1->Some_0.len() == 4) == v4 && b.2 == port) by {
            assert(views.contains(b));
            let k = choose|k: int| 0 <= k < views.len() && views[k] == b;
            assert(views[k] == b);
        }
    }
    false
}

impl SocketTable {
    /// The local ends of the sockets.
    pub open spec fn bindings(&self) -> Multiset<BindingView> {
        socket_bindings(self.sockets)
    }

    /// The search for a port goes on within the ephemeral range, and there is
    /// always room for a socket.
    pub open spec fn wf(&self) -> bool {
        is_ephemeral(self.next_port) && sockets_grow(self.sockets)
    }

    /// The local end of a socket that is in the table.
    pub open spec fn end_of(&self, h: SocketHandle) -> Option<BindingView> {
        binding_of(self.sockets, h)
    }

    /// Where a TCP socket that is in the table is connected to.
    pub open spec fn remote_end_of(&self, h: SocketHandle) -> Option<(Seq<u8>, u16)> {
        remote_of(self.sockets, h)
    }

    /// No sockets.
    pub fn new() -> (t: Self)
        ensures
            t.wf(),
            forall|h: SocketHandle| #[trigger] t.end_of(h) is None,
            t.bindings() == Multiset::<BindingView>::empty(),
            ports_unique(t.bindings()),
            t.next_port == EPHEMERAL_PORT_FIRST,
            t.next_port == 10001,
    {
        SocketTable { sockets: new_sockets(), next_port: EPHEMERAL_PORT_FIRST }
    }

    /// Whether a port is taken.
    pub fn port_in_use(&self, transport: Transport, family: AddressFamily, port: u16) -> (r: bool)
        ensures
            r == port_taken(self.bindings(), transport is Tcp, family is Ipv4, port),
    {
        let list = list_sockets(&self.sockets);
        taken_in(&list, transport, family, port)
    }

    /// Chooses a port for a socket.
    pub fn allocate_port(
        &mut self,
        transport: Transport,
        family: AddressFamily,
        requested: u16,
    ) -> (r: Result<u16, NetError>)
        requires
            old(self).wf(),
        ensures
            final(self).wf(),
            final(self).sockets == old(self).sockets,
            match r {
                Ok(p) => {
                    &&& p != 0
                    &&& !port_taken(old(self).bindings(), transport is Tcp, family is Ipv4, p)
                    &&& requested != 0 ==> p == requested && final(self).next_port == old(
                        self,
                    ).next_port
                    &&& requested == 0 ==> is_ephemeral(p) && final(self).next_port == next_of(p)
                        && is_first_free(
                        old(self).bindings(),
                        transport is Tcp,
                        family is Ipv4,
                        old(self).next_port,
                        p,
                    )
                },
                Err(e) => final(self).next_port == old(self).next_port && if requested != 0 {
                    e == NetError::PortInUse(requested) && port_taken(
                        old(self).bindings(),
                        transport is Tcp,
                        family is Ipv4,
                        requested,
                    )
                } else {
                    e == NetError::PortsExhausted && none_free(
                        old(self).bindings(),
                        transport is Tcp,
                        family is Ipv4,
                    )
                },
            },
    {
        let list = list_sockets(&self.sockets);
        let ghost taken = self.bindings();
        let in_use = |p: u16| -> (b: bool)
            ensures
                b == port_taken(binding_views(list@).to_multiset(), transport is Tcp, family is Ipv4, p),
            { taken_in(&list, transport, family, p) };
        let mut next: u16 = self.next_port;
        let ghost start = next;
        let r = select_port(&mut next, requested, in_use);
        proof {
            lemma_search_covers_range(start, start);
            if r is Ok && requested == 0 {
                let p = r->Ok_0;
                let k = choose|k: nat|
                    {
                        &&& k < port_count()
                        &&& p == #[trigger] nth_port(start, k)
                        &&& in_use.ensures((p,), false)
                        &&& forall|j: nat|
                            j < k ==> in_use.ensures((#[trigger] nth_port(start, j),), true)
                        &&& next == next_of(p)
                    };
                assert(p == nth_port(start, k));
                assert forall|j: nat| j < k implies port_taken(
                    taken,
                    transport is Tcp,
                    family is Ipv4,
                    #[trigger] nth_port(start, j),
                ) by {
                    assert(in_use.ensures((nth_port(start, j),), true));
                }
            }
            if r is Err && requested == 0 {
                assert forall|p: u16| #[trigger] is_ephemeral(p) implies port_taken(
                    taken,
                    transport is Tcp,
                    family is Ipv4,
                    p,
                ) by {
                    lemma_search_covers_range(start, p);
                    let k = choose|k: nat| k < port_count() && #[trigger] nth_port(start, k) == p;
                    assert(in_use.ensures((nth_port(start, k),), true));
                }
            }
        }
        if r.is_ok() {
            self.next_port = next;
        }
        r
    }

    /// Opens a TCP connection from a source to a target, on the first free port. A
    /// socket that cannot be connected leaves nothing behind but the port that the next
    /// search begins with.
    pub fn connect_tcp(
        &mut self,
        i: &mut Interface,
        b: &BufferSize,
        source: IpAddr,
        remote: &SocketAddr,
    ) -> (r: Result<(SocketHandle, u16), NetError>)
        requires
            old(self).wf(),
            tcp_fits(*b),
        ensures
            final(self).wf(),
            iface_addrs(*final(i)) == iface_addrs(*old(i)),
            addr_limit(*final(i)) == addr_limit(*old(i)),
            iface_routes(*final(i)) == iface_routes(*old(i)),
            route_limit(*final(i)) == route_limit(*old(i)),
            match r {
                Ok(x) => {
                    &&& is_ephemeral(x.1)
                    &&& is_first_free(
                        old(self).bindings(),
                        true,
                        source is V4,
                        old(self).next_port,
                        x.1,
                    )
                    &&& final(self).next_port == next_of(x.1)
                    &&& can_connect(source@, x.1, remote.ip@, remote.port)
                    &&& final(self).bindings() == old(self).bindings().insert(
                        (true, Some(source@), x.1),
                    )
                    &&& old(self).end_of(x.0) is None
                    &&& final(self).end_of(x.0) == Some((true, Some(source@), x.1))
                    &&& final(self).remote_end_of(x.0) == Some((remote.ip@, remote.port))
                    &&& room_of(final(self).sockets, x.0) == Some(tcp_room(*b))
                    &&& others_stay(old(self).sockets, final(self).sockets, x.0)
                    &&& ports_unique(old(self).bindings()) ==> ports_unique(
                        final(self).bindings(),
                    )
                },
                Err(e) => {
                    &&& final(self).sockets == old(self).sockets
                    &&& if none_free(old(self).bindings(), true, source is V4) {
                        e == NetError::PortsExhausted && final(self).next_port == old(
                            self,
                        ).next_port
                    } else {
                        &&& e == NetError::Unaddressable
                        &&& !can_connect(source@, EPHEMERAL_PORT_FIRST, remote.ip@, remote.port)
                        &&& exists|p: u16| #[trigger]
                            is_first_free(
                                old(self).bindings(),
                                true,
                                source is V4,
                                old(self).next_port,
                                p,
                            ) && final(self).next_port == next_of(p)
                    }
                },
            },
    {
        let port = match self.allocate_port(Transport::Tcp, AddressFamily::of(&source), 0) {
            Err(e) => return Err(e),
            Ok(p) => p,
        };
        assert(is_ephemeral(port));
        proof {
            if ports_unique(old(self).bindings()) {
                lemma_ports_stay_unique(old(self).bindings(), true, source@, port);
            }
        }
        match add_tcp(&mut self.sockets, i, b, (source, port), (remote.ip, remote.port)) {
            Some(h) => Ok((h, port)),
            None => Err(NetError::Unaddressable),
        }
    }

    /// Binds a UDP socket on a source address.
    pub fn new_udp(&mut self, b: &BufferSize, source: IpAddr, requested: u16) -> (r: Result<
        (SocketHandle, u16),
        NetError,
    >)
        requires
            old(self).wf(),
            udp_fits(*b),
        ensures
            final(self).wf(),
            match r {
                Ok(x) => {
                    &&& if requested == 0 {
                        &&& is_ephemeral(x.1)
                        &&& is_first_free(
                            old(self).bindings(),
                            false,
                            source is V4,
                            old(self).next_port,
                            x.1,
                        )
                        &&& final(self).next_port == next_of(x.1)
                    } else {
                        x.1 == requested && final(self).next_port == old(self).next_port
                    }
                    &&& !port_taken(old(self).bindings(), false, source is V4, x.1)
                    &&& final(self).bindings() == old(self).bindings().insert(
                        (false, Some(source@), x.1),
                    )
                    &&& old(self).end_of(x.0) is None
                    &&& final(self).end_of(x.0) == Some((false, Some(source@), x.1))
                    &&& final(self).remote_end_of(x.0) is None
                    &&& room_of(final(self).sockets, x.0) == Some(udp_room(*b))
                    &&& others_stay(old(self).sockets, final(self).sockets, x.0)
                    &&& ports_unique(old(self).bindings()) ==> ports_unique(
                        final(self).bindings(),
                    )
                },
                Err(e) => {
                    &&& final(self).sockets == old(self).sockets
                    &&& final(self).next_port == old(self).next_port
                    &&& if requested != 0 {
                        e == NetError::PortInUse(requested) && port_taken(
                            old(self).bindings(),
                            false,
                            source is V4,
                            requested,
                        )
                    } else {
                        e == NetError::PortsExhausted && none_free(
                            old(self).bindings(),
                            false,
                            source is V4,
                        )
                    }
                },
            },
    {
        let family = AddressFamily::of(&source);
        let port = match self.allocate_port(Transport::Udp, family, requested) {
            Err(e) => return Err(e),
            Ok(p) => p,
        };
        proof {
            if ports_unique(old(self).bindings()) {
                lemma_ports_stay_unique(old(self).bindings(), false, source@, port);
            }
        }
        match add_udp(&mut self.sockets, b, source, port) {
            Some(h) => Ok((h, port)),
            None => Err(NetError::Unaddressable),
        }
    }
}

impl SocketTable {
    /// Takes a socket out of the table, which frees its port.
    pub fn release(&mut self, h: SocketHandle)
        requires
            old(self).wf(),
            old(self).end_of(h) is Some,
        ensures
            final(self).wf(),
            final(self).next_port == old(self).next_port,
            ({
                let end = old(self).end_of(h)->Some_0;
                &&& old(self).bindings() == final(self).bindings().insert(end)
                &&& ports_unique(old(self).bindings()) ==> ports_unique(final(self).bindings())
                &&& ports_unique(old(self).bindings()) && end.1 is Some ==> !port_taken(
                    final(self).bindings(),
                    end.0,
                    end.1->Some_0.len() == 4,
                    end.2,
                )
            }),
            final(self).end_of(h) is None,
            final(self).remote_end_of(h) is None,
            room_of(final(self).sockets, h) is None,
            others_stay(old(self).sockets, final(self).sockets, h),
    {
        let ghost before = self.bindings();
        let ghost end = self.end_of(h)->Some_0;
        remove_socket(&mut self.sockets, h);
        proof {
            lemma_release_frees_port(self.bindings(), end);
        }
    }
}

/// Without a socket of a table whose ports are unique, its port is not taken, and
/// the ports are still unique.
pub proof fn lemma_release_frees_port(left: Multiset<BindingView>, end: BindingView)
    ensures
        ports_unique(left.insert(end)) ==> ports_unique(left),
        ports_unique(left.insert(end)) && end.1 is Some ==> !port_taken(
            left,
            end.0,
            end.1->Some_0.len() == 4,
            end.2,
        ),
{
    broadcast use vstd::multiset::group_multiset_axioms;

    let all = left.insert(end);
    if ports_unique(all) {
        assert forall|a: BindingView, b: BindingView| #[trigger]
            left.count(a) > 0 && #[trigger] left.count(b) > 0 && a.0 == b.0 && a.2 == b.2
                && a.1 is Some && b.1 is Some && (a.1->Some_0.len() == 4) == (b.1->Some_0.len()
                == 4) implies a == b && left.count(a) == 1 by {
            assert(all.count(a) >= left.count(a));
            assert(all.count(b) >= left.count(b));
        }
        if end.1 is Some && port_taken(left, end.0, end.1->Some_0.len() == 4, end.2) {
            let w = choose|w: BindingView| #[trigger]
                left.count(w) > 0 && w.0 == end.0 && w.1 is Some && (w.1->Some_0.len() == 4) == (
                end.1->Some_0.len() == 4) && w.2 == end.2;
            assert(all.count(w) > 0 && all.count(end) > 0);
            assert(w == end);
            assert(all.count(end) == left.count(end) + 1);
        }
    }
}

/// No two sockets of one transport and family have the same port.
pub open spec fn ports_unique(m: Multiset<BindingView>) -> bool {
    forall|a: BindingView, b: BindingView| #[trigger]
        m.count(a) > 0 && #[trigger] m.count(b) > 0 && a.0 == b.0 && a.2 == b.2 && a.1 is Some
            && b.1 is Some && (a.1->Some_0.len() == 4) == (b.1->Some_0.len() == 4) ==> a == b
            && m.count(a) == 1
}

/// Giving a socket a port that is not taken keeps the ports unique.
pub proof fn lemma_ports_stay_unique(
    m: Multiset<BindingView>,
    is_tcp: bool,
    octets: Seq<u8>,
    port: u16,
)
    requires
        ports_unique(m),
        !port_taken(m, is_tcp, octets.len() == 4, port),
    ensures
        ports_unique(m.insert((is_tcp, Some(octets), port))),
{
    broadcast use vstd::multiset::group_multiset_axioms;

    let x: BindingView = (is_tcp, Some(octets), port);
    let n = m.insert(x);
    assert(m.count(x) == 0);
    assert forall|a: BindingView, b: BindingView| #[trigger]
        n.count(a) > 0 && #[trigger] n.count(b) > 0 && a.0 == b.0 && a.2 == b.2 && a.1 is Some
            && b.1 is Some && (a.1->Some_0.len() == 4) == (b.1->Some_0.len() == 4) implies a == b
        && n.count(a) == 1 by {
        assert(a != x ==> m.count(a) > 0);
        assert(b != x ==> m.count(b) > 0);
    }
}

/// A port that a socket was given is taken for its transport and family, and
/// what was taken before stays so. Other transports and families are not
/// touched.
pub proof fn lemma_port_is_taken(
    m: Multiset<BindingView>,
    is_tcp: bool,
    octets: Seq<u8>,
    port: u16,
    other_tcp: bool,
    other_v4: bool,
    other_port: u16,
)
    ensures
        port_taken(m.insert((is_tcp, Some(octets), port)), is_tcp, octets.len() == 4, port),
        (other_tcp, other_v4, other_port) != (is_tcp, octets.len() == 4, port) ==> port_taken(
            m.insert((is_tcp, Some(octets), port)),
            other_tcp,
            other_v4,
            other_port,
        ) == port_taken(m, other_tcp, other_v4, other_port),
{
    broadcast use vstd::multiset::group_multiset_axioms;

    let b: BindingView = (is_tcp, Some(octets), port);
    let n = m.insert(b);
    assert(n.count(b) > 0);
    if (other_tcp, other_v4, other_port) != (is_tcp, octets.len() == 4, port) {
        if port_taken(n, other_tcp, other_v4, other_port) {
            let w = choose|w: BindingView| #[trigger]
                n.count(w) > 0 && w.0 == other_tcp && w.1 is Some && (w.1->Some_0.len() == 4)
                    == other_v4 && w.2 == other_port;
            assert(w != b);
            assert(m.count(w) > 0);
        }
        if port_taken(m, other_tcp, other_v4, other_port) {
            let w = choose|w: BindingView| #[trigger]
                m.count(w) > 0 && w.0 == other_tcp && w.1 is Some && (w.1->Some_0.len() == 4)
                    == other_v4 && w.2 == other_port;
            assert(n.count(w) > 0);
        }
    }
}

// ---------------------------------------------------------------------------
// Packets

/// The packets that wait between the device and the stack.
pub struct BufferDevice {
    pub max_burst_size: usize,
    pub recv_queue: VecDeque<Vec<u8>>,
    pub send_queue: VecDeque<Vec<u8>>,
}

impl BufferDevice {
    /// No more packets are taken in than are taken in at a time.
    pub open spec fn wf(&self) -> bool {
        self.recv_queue@.len() <= self.max_burst_size
    }

    /// Empty queues, for a device that takes this many packets at a time.
    pub fn new(max_burst_size: Option<usize>) -> (d: Self)
        ensures
            d.wf(),
            d.recv_queue@.len() == 0,
            d.send_queue@.len() == 0,
            d.max_burst_size == match max_burst_size {
                Some(n) => n,
                None => DEFAULT_MAX_BURST_SIZE,
            },
            max_burst_size is None ==> d.max_burst_size == 100,
    {
        let n: usize = match max_burst_size {
            Some(n) => n,
            None => DEFAULT_MAX_BURST_SIZE,
        };
        BufferDevice { max_burst_size: n, recv_queue: VecDeque::new(), send_queue: VecDeque::new() }
    }

    /// Everything that waits to be sent, in order.
    pub fn take_send_queue(&mut self) -> (q: VecDeque<Vec<u8>>)
        ensures
            q@ == old(self).send_queue@,
            final(self).send_queue@.len() == 0,
            final(self).recv_queue == old(self).recv_queue,
            final(self).max_burst_size == old(self).max_burst_size,
    {
        let mut q: VecDeque<Vec<u8>> = VecDeque::new();
        q.append(&mut self.send_queue);
        assert(q@ =~= old(self).send_queue@);
        q
    }

    /// Takes in packets as long as there is room, and drops the rest.
    pub fn push_received(&mut self, packets: VecDeque<Vec<u8>>)
        requires
            old(self).wf(),
        ensures
            final(self).wf(),
            final(self).recv_queue@ == {
                let room = old(self).max_burst_size - old(self).recv_queue@.len();
                old(self).recv_queue@ + if packets@.len() <= room {
                    packets@
                } else {
                    packets@.take(room)
                }
            },
            final(self).send_queue == old(self).send_queue,
            final(self).max_burst_size == old(self).max_burst_size,
    {
        let room: usize = self.max_burst_size - self.recv_queue.len();
        let mut packets = packets;
        packets.truncate(room);
        self.recv_queue.append(&mut packets);
    }

    /// The packet that the stack takes in next.
    pub fn receive(&mut self) -> (r: Option<Vec<u8>>)
        requires
            old(self).wf(),
        ensures
            final(self).wf(),
            r is Some == (old(self).recv_queue@.len() > 0),
            r matches Some(p) ==> p == old(self).recv_queue@[0] && final(self).recv_queue@ == old(
                self,
            ).recv_queue@.skip(1),
            r is None ==> final(self).recv_queue@ == old(self).recv_queue@,
            final(self).send_queue == old(self).send_queue,
            final(self).max_burst_size == old(self).max_burst_size,
    {
        self.recv_queue.pop_front()
    }

    /// Whether the stack may send a packet of its own accord.
    pub fn can_transmit(&self) -> (r: bool)
        ensures
            r == (self.send_queue@.len() < self.max_burst_size),
    {
        self.send_queue.len() < self.max_burst_size
    }

    /// Puts a packet of the stack behind those that wait to be sent.
    pub fn push_sent(&mut self, packet: Vec<u8>)
        ensures
            final(self).send_queue@ == old(self).send_queue@.push(packet),
            final(self).recv_queue == old(self).recv_queue,
            final(self).max_burst_size == old(self).max_burst_size,
    {
        self.send_queue.push_back(packet);
    }
}

/// What the reactor does next.
#[derive(Clone, Copy, Debug, PartialEq, Eq, Structural)]
pub enum ReactorStep {
    /// Wait for a packet, a notification, or the time at which the stack has to
    /// be polled.
    Wait,
    /// Take another packet, if one is there.
    Fill,
    /// Let the stack take in what has come.
    Poll,
    /// The same, and stop afterwards.
    PollAndStop,
    Stop,
    /// Stop with the error of the device.
    Fail,
}

/// What ended the wait of the reactor.
pub enum Woken {
    Packet(Vec<u8>),
    /// The time elapsed, or a socket has something to send.
    Nudged,
    DeviceFailed,
    DeviceEnded,
    /// The stack is no longer wanted.
    Stopped,
}

/// What the device has at the moment.
pub enum Ready {
    Packet(Vec<u8>),
    Nothing,
    DeviceFailed,
    DeviceEnded,
}

/// The packets that came in one round of the reactor.
pub struct Round {
    pub received: VecDeque<Vec<u8>>,
}

impl Round {
    /// The first step of a round: to wait, unless packets are left over.
    pub fn start(device: &BufferDevice) -> (r: (Round, ReactorStep))
        ensures
            r.0.received@.len() == 0,
            r.1 == if device.recv_queue@.len() == 0 {
                ReactorStep::Wait
            } else {
                ReactorStep::Poll
            },
    {
        let step = if device.recv_queue.len() == 0 {
            ReactorStep::Wait
        } else {
            ReactorStep::Poll
        };
        (Round { received: VecDeque::new() }, step)
    }

    /// The step after a wait.
    pub fn on_wake(&mut self, woken: Woken, max_burst: usize) -> (step: ReactorStep)
        ensures
            final(self).received@ == match woken {
                Woken::Packet(p) => old(self).received@.push(p),
                _ => old(self).received@,
            },
            step == match woken {
                Woken::Packet(_) => if old(self).received@.len() + 1 < max_burst {
                    ReactorStep::Fill
                } else {
                    ReactorStep::Poll
                },
                Woken::Nudged => if old(self).received@.len() < max_burst {
                    ReactorStep::Fill
                } else {
                    ReactorStep::Poll
                },
                Woken::DeviceFailed => ReactorStep::Fail,
                Woken::DeviceEnded => ReactorStep::Stop,
                Woken::Stopped => ReactorStep::Stop,
            },
    {
        match woken {
            Woken::Packet(p) => {
                self.received.push_back(p);
            },
            Woken::Nudged => {},
            Woken::DeviceFailed => return ReactorStep::Fail,
            Woken::DeviceEnded => return ReactorStep::Stop,
            Woken::Stopped => return ReactorStep::Stop,
        }
        if self.received.len() < max_burst {
            ReactorStep::Fill
        } else {
            ReactorStep::Poll
        }
    }

    /// The step after another packet was asked for. When the device has ended,
    /// what it gave is still taken in.
    pub fn on_ready(&mut self, ready: Ready, max_burst: usize) -> (step: ReactorStep)
        ensures
            final(self).received@ == match ready {
                Ready::Packet(p) => old(self).received@.push(p),
                _ => old(self).received@,
            },
            step == match ready {
                Ready::Packet(_) => if old(self).received@.len() + 1 < max_burst {
                    ReactorStep::Fill
                } else {
                    ReactorStep::Poll
                },
                Ready::Nothing => ReactorStep::Poll,
                Ready::DeviceFailed => ReactorStep::Fail,
                Ready::DeviceEnded => ReactorStep::PollAndStop,
            },
    {
        match ready {
            Ready::Packet(p) => {
                self.received.push_back(p);
                if self.received.len() < max_burst {
                    ReactorStep::Fill
                } else {
                    ReactorStep::Poll
                }
            },
            Ready::Nothing => ReactorStep::Poll,
            Ready::DeviceFailed => ReactorStep::Fail,
            Ready::DeviceEnded => ReactorStep::PollAndStop,
        }
    }
}

// ---------------------------------------------------------------------------
// Sockets as streams

/// What a stream or a datagram socket does when it is polled.
#[derive(Clone, Copy, Debug, PartialEq, Eq, Structural)]
pub enum Readiness {
    /// The stack has stopped.
    Stopped,
    /// The connection does not allow it.
    Refused,
    /// There is nothing left to do.
    Done,
    /// Make the call on the socket.
    Act,
    /// Ask to be woken.
    Pending,
}

/// A connection that is being made.
pub fn poll_connected(stopped: bool, established: bool, closed: bool) -> (r: Readiness)
    ensures
        r == if stopped {
            Readiness::Stopped
        } else if established {
            Readiness::Done
        } else if closed {
            Readiness::Refused
        } else {
            Readiness::Pending
        },
        r is Stopped <==> stopped,
        r is Done <==> !stopped && established,
        r is Refused <==> !stopped && !established && closed,
        r !is Act,
{
    if stopped {
        Readiness::Stopped
    } else if established {
        Readiness::Done
    } else if closed {
        Readiness::Refused
    } else {
        Readiness::Pending
    }
}

/// A read: at the end of the stream nothing is left to do.
pub fn poll_read(stopped: bool, may_recv: bool, can_recv: bool) -> (r: Readiness)
    ensures
        r == if stopped {
            Readiness::Stopped
        } else if !may_recv {
            Readiness::Done
        } else if can_recv {
            Readiness::Act
        } else {
            Readiness::Pending
        },
        r is Stopped <==> stopped,
        r is Act <==> !stopped && may_recv && can_recv,
        r is Done <==> !stopped && !may_recv,
        r !is Refused,
{
    if stopped {
        Readiness::Stopped
    } else if !may_recv {
        Readiness::Done
    } else if can_recv {
        Readiness::Act
    } else {
        Readiness::Pending
    }
}

/// A write.
pub fn poll_write(stopped: bool, may_send: bool, can_send: bool) -> (r: Readiness)
    ensures
        r == if stopped {
            Readiness::Stopped
        } else if !may_send {
            Readiness::Refused
        } else if can_send {
            Readiness::Act
        } else {
            Readiness::Pending
        },
        r is Stopped <==> stopped,
        r is Act <==> !stopped && may_send && can_send,
        r is Refused <==> !stopped && !may_send,
        r !is Done,
{
    if stopped {
        Readiness::Stopped
    } else if !may_send {
        Readiness::Refused
    } else if can_send {
        Readiness::Act
    } else {
        Readiness::Pending
    }
}

/// A flush: it is done when nothing is left to be sent.
pub fn poll_flush(stopped: bool, queued: usize) -> (r: Readiness)
    ensures
        r == if stopped {
            Readiness::Stopped
        } else if queued == 0 {
            Readiness::Done
        } else {
            Readiness::Pending
        },
        r is Pending <==> !stopped && queued > 0,
        r is Done <==> !stopped && queued == 0,
{
    if stopped {
        Readiness::Stopped
    } else if queued == 0 {
        Readiness::Done
    } else {
        Readiness::Pending
    }
}

/// A shutdown: an open socket is closed first. It is done when the socket is
/// closed, or the stack has stopped.
pub fn poll_shutdown(stopped: bool, open: bool, closed: bool) -> (r: Readiness)
    ensures
        r == if stopped {
            Readiness::Done
        } else if open {
            Readiness::Act
        } else if closed {
            Readiness::Done
        } else {
            Readiness::Pending
        },
        r is Act <==> !stopped && open,
        r is Pending <==> !stopped && !open && !closed,
{
    if stopped {
        Readiness::Done
    } else if open {
        Readiness::Act
    } else if closed {
        Readiness::Done
    } else {
        Readiness::Pending
    }
}

/// A datagram that is sent or received: `full` where the socket has no room for
/// it, or holds none, at the moment.
pub fn poll_datagram(stopped: bool, full: bool, failed: bool) -> (r: Readiness)
    ensures
        r == if stopped {
            Readiness::Stopped
        } else if full {
            Readiness::Pending
        } else if failed {
            Readiness::Refused
        } else {
            Readiness::Done
        },
        r is Done <==> !stopped && !full && !failed,
        r is Pending <==> !stopped && full,
{
    if stopped {
        Readiness::Stopped
    } else if full {
        Readiness::Pending
    } else if failed {
        Readiness::Refused
    } else {
        Readiness::Done
    }
}

} // verus!
