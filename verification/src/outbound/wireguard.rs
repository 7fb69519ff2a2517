//! The way out through WireGuard: the network stack inside the tunnel, and what
//! is done when the tunnel no longer works.

use crate::addr;
use crate::addr::{IpAddr, SocketAddr};
use crate::config::WgConfig;
use crate::endpoint::source;
use crate::endpoint::state;
use crate::endpoint::state::{JsonFileEndpointStore, StateView};
use crate::netstack;
use crate::netstack::{BufferSize, NetConfig};
use crate::outbound::Host;
use crate::system;
use crate::text;
use vstd::prelude::*;

verus! {

/// Seconds within which a name is resolved inside the tunnel.
pub const DNS_TIMEOUT: u64 = 5;

/// Seconds within which a connection is made inside the tunnel.
pub const CONNECT_TIMEOUT: u64 = 10;

/// The bytes of a TCP buffer: large enough not to bound a single connection.
pub const TCP_BUFFER: usize = 262_144;

/// The name server inside the tunnel.
pub fn dns_server() -> (a: SocketAddr)
    ensures
        a.ip@ == seq![1u8, 1, 1, 1],
        a.ip is V4,
        a.port == 53,
        a.scope_id == 0,
{
    let a = SocketAddr::new(IpAddr::V4([1, 1, 1, 1]), 53);
    assert(a.ip@ =~= seq![1u8, 1, 1, 1]);
    a
}

/// The network stack for a tunnel: both of its addresses, each its own gateway,
/// and large TCP buffers.
pub fn build_net_config(config: &WgConfig) -> (c: NetConfig)
    ensures
        c.ip_addrs@ == seq![
            (IpAddr::V4(config.address_v4), 32u8),
            (IpAddr::V6(config.address_v6), 128u8),
        ],
        c.gateways@ == seq![IpAddr::V4(config.address_v4), IpAddr::V6(config.address_v6)],
        c.buffer_size == (BufferSize {
            tcp_rx_size: TCP_BUFFER,
            tcp_tx_size: TCP_BUFFER,
            udp_rx_size: 8192,
            udp_tx_size: 8192,
            udp_rx_meta_size: 32,
            udp_tx_meta_size: 32,
        }),
        c.buffer_size.tcp_rx_size == 256 * 1024,
        c.buffer_size.tcp_tx_size == 256 * 1024,
        netstack::udp_fits(c.buffer_size),
        netstack::tcp_fits(c.buffer_size),
{
    let v4 = IpAddr::V4(config.address_v4);
    let v6 = IpAddr::V6(config.address_v6);
    let mut ip_addrs: Vec<(IpAddr, u8)> = Vec::new();
    ip_addrs.push((v4, 32));
    ip_addrs.push((v6, 128));
    let mut gateways: Vec<IpAddr> = Vec::new();
    gateways.push(v4);
    gateways.push(v6);
    let mut c = NetConfig::new(ip_addrs, gateways);
    c.buffer_size.tcp_rx_size = TCP_BUFFER;
    c.buffer_size.tcp_tx_size = TCP_BUFFER;
    assert(c.ip_addrs@ =~= seq![
        (IpAddr::V4(config.address_v4), 32u8),
        (IpAddr::V6(config.address_v6), 128u8),
    ]);
    assert(c.gateways@ =~= seq![
        IpAddr::V4(config.address_v4),
        IpAddr::V6(config.address_v6),
    ]);
    c
}

/// The stack of a tunnel sends from the tunnel's addresses and reaches both
/// families through them, whatever addresses these are, on an interface that can
/// have two addresses and two routes.
pub proof fn lemma_net_config_is_dual_stack(
    c: NetConfig,
    v4: [u8; 4],
    v6: [u8; 16],
    addr_limit: nat,
    route_limit: nat,
)
    requires
        c.ip_addrs@ == seq![(IpAddr::V4(v4), 32u8), (IpAddr::V6(v6), 128u8)],
        c.gateways@ == seq![IpAddr::V4(v4), IpAddr::V6(v6)],
        addr_limit >= 2,
        route_limit >= 2,
    ensures
        netstack::addrs_distinct(c.ip_addrs@),
        netstack::first_of_family(c.ip_addrs@, true) == Some(IpAddr::V4(v4)),
        netstack::first_of_family(c.ip_addrs@, false) == Some(IpAddr::V6(v6)),
        netstack::filled(0, c.ip_addrs@.len(), addr_limit) == c.ip_addrs@.len(),
        netstack::routes_after(Seq::empty(), route_limit, c.gateways@) matches Ok(routes) && {
            &&& netstack::default_gateways(routes, true) == seq![v4@]
            &&& netstack::default_gateways(routes, false) == seq![v6@]
        },
{
    let a = c.ip_addrs@;
    let g = c.gateways@;
    let none = Seq::<netstack::RouteView>::empty();
    reveal_with_fuel(netstack::first_of_family, 3);
    reveal_with_fuel(netstack::last_of_family, 3);
    assert(a.drop_last().drop_last() =~= Seq::empty());
    assert(g.drop_last().drop_last() =~= Seq::empty());
    assert(a[0].0@.len() == 4 && a[1].0@.len() == 16);
    let one = none.push(netstack::default_by(g[0]));
    assert(netstack::without_default(none, true) == none);
    assert(netstack::routes_after(none, route_limit, g.drop_last().drop_last()) == Ok::<
        Seq<netstack::RouteView>,
        IpAddr,
    >(none));
    assert(netstack::routes_after(none, route_limit, g.drop_last()) == Ok::<
        Seq<netstack::RouteView>,
        IpAddr,
    >(one));
    assert(netstack::without_default(one, false).len() <= 1);
    assert(netstack::routes_after(none, route_limit, g) is Ok);
    netstack::lemma_gateways_become_routes(none, route_limit, g, true);
    netstack::lemma_gateways_become_routes(none, route_limit, g, false);
}

// ---------------------------------------------------------------------------
// Targets

/// How the address of a target is found.
pub enum TargetStep {
    Ready(SocketAddr),
    /// The name has to be resolved inside the tunnel.
    Resolve(String),
}

/// A literal address is used as it is; a domain has to be resolved.
pub fn target_step(host: Host, port: u16) -> (s: TargetStep)
    ensures
        match host {
            Host::Ip(ip) => s matches TargetStep::Ready(a) && a.ip == ip && a.port == port
                && a.scope_id == 0,
            Host::Domain(name) => s == TargetStep::Resolve(name),
        },
{
    match host {
        Host::Ip(ip) => TargetStep::Ready(SocketAddr::new(ip, port)),
        Host::Domain(name) => TargetStep::Resolve(name),
    }
}

/// The address of a target whose name was looked up: the first of the answers.
pub fn resolved_target(name: &str, port: u16, found: Result<Vec<IpAddr>, String>) -> (r: Result<
    SocketAddr,
    String,
>)
    ensures
        match found {
            Ok(ips) => if ips@.len() > 0 {
                r matches Ok(a) && a.ip == ips@[0] && a.port == port && a.scope_id == 0
            } else {
                r matches Err(e) && e@ == "域名 "@ + name@ + " 未解析到地址"@
            },
            Err(why) => r matches Err(e) && e@ == "隧道内解析域名 "@ + name@ + " 失败: "@
                + why@,
        },
{
    let mut out: Vec<char> = Vec::new();
    match found {
        Ok(ips) => {
            if ips.len() > 0 {
                return Ok(SocketAddr::new(ips[0], port));
            }
            text::push_str(&mut out, "域名 ");
            text::push_str(&mut out, name);
            text::push_str(&mut out, " 未解析到地址");
        },
        Err(why) => {
            text::push_str(&mut out, "隧道内解析域名 ");
            text::push_str(&mut out, name);
            text::push_str(&mut out, " 失败: ");
            text::push_str(&mut out, why.as_str());
        },
    }
    Err(text::string_of(out.as_slice()))
}

/// What is said of a connection that took too long.
pub fn timeout_message(target: &SocketAddr) -> (s: String)
    ensures
        s@ == "连接 "@ + addr::socket_text(target.ip@, target.port, target.scope_id)
            + " 超时（"@ + text::decimal(CONNECT_TIMEOUT as nat) + "s）"@,
{
    let mut out: Vec<char> = Vec::new();
    text::push_str(&mut out, "连接 ");
    text::push_str(&mut out, target.to_text().as_str());
    text::push_str(&mut out, " 超时（");
    text::push_decimal(&mut out, CONNECT_TIMEOUT);
    text::push_str(&mut out, "s）");
    text::string_of(out.as_slice())
}

/// Where a datagram socket for a target is bound: any address of the target's
/// family, and any port.
pub fn bind_addr(target: &SocketAddr) -> (a: SocketAddr)
    ensures
        a.ip is V4 == target.ip is V4,
        netstack::is_unspecified(a.ip@),
        a.port == 0,
        a.scope_id == 0,
{
    if target.ip.is_ipv4() {
        SocketAddr::new(IpAddr::V4([0, 0, 0, 0]), 0)
    } else {
        SocketAddr::new(IpAddr::V6([0, 0, 0, 0, 0, 0, 0, 0, 0, 0, 0, 0, 0, 0, 0, 0]), 0)
    }
}

/// Whether a datagram is taken: only what the target itself sends.
pub fn takes_from(target: &SocketAddr, from: &SocketAddr) -> (r: bool)
    ensures
        r == addr::equal_addrs(*from, *target),
{
    addr::same_addr(from, target)
}

// ---------------------------------------------------------------------------
// Healing

/// What only healing needs: the candidates, the files of the endpoint state and
/// of the tunnel's configuration, and the seconds for which an endpoint that
/// failed is left alone.
#[derive(Debug, PartialEq, Eq)]
pub struct WgHealConfig {
    pub pool: Vec<String>,
    pub endpoint_state_file: String,
    pub wg_conf_path: String,
    pub cooldown: u64,
}

/// A tunnel that can be built anew: the candidates, and the endpoint in use.
#[derive(Debug, PartialEq, Eq)]
pub struct HealCtx {
    pub config: WgHealConfig,
    pub current: String,
}

/// The first endpoint of a plan that is not the one in use.
pub open spec fn first_other(plan: Seq<Seq<char>>, current: Seq<char>) -> Option<Seq<char>>
    decreases plan.len(),
{
    if plan.len() == 0 {
        None
    } else if plan[0] != current {
        Some(plan[0])
    } else {
        first_other(plan.drop_first(), current)
    }
}

/// The state after an endpoint was found wanting.
pub open spec fn with_cooldown(s: StateView, endpoint: Seq<char>, secs: u64, now: u64) -> StateView {
    StateView {
        last_good: s.last_good,
        cooldowns: s.cooldowns.insert(endpoint, state::cooldown_end(now, secs)),
    }
}

impl HealCtx {
    /// A tunnel through an endpoint.
    pub fn new(config: WgHealConfig, endpoint: &str) -> (h: Self)
        ensures
            h.config == config,
            h.current@ == endpoint@,
    {
        HealCtx { config, current: endpoint.to_owned() }
    }

    /// Begins to heal at `now`: the endpoint in use is left alone from now on,
    /// and the first other one of the plan is to be tried. `None` where there is
    /// no other.
    pub fn begin_at(&self, store: &mut JsonFileEndpointStore, now: u64) -> (next: Option<String>)
        requires
            old(store).wf(),
        ensures
            final(store).wf(),
            final(store).path == old(store).path,
            final(store).state@ == with_cooldown(
                old(store).state@,
                self.current@,
                self.config.cooldown,
                now,
            ),
            match next {
                Some(e) => first_other(
                    source::plan_of(text::texts(self.config.pool@), final(store).state@, now),
                    self.current@,
                ) == Some(e@),
                None => first_other(
                    source::plan_of(text::texts(self.config.pool@), final(store).state@, now),
                    self.current@,
                ) is None,
            },
    {
        store.mark_cooldown_at(self.current.as_str(), self.config.cooldown, now);
        let mut pool: Vec<String> = Vec::new();
        let mut k: usize = 0;
        while k < self.config.pool.len()
            invariant
                k <= self.config.pool@.len(),
                pool@.len() == k,
                forall|j: int| 0 <= j < k ==> (#[trigger] pool@[j])@ == self.config.pool@[j]@,
            decreases self.config.pool@.len() - k,
        {
            pool.push(self.config.pool[k].as_str().to_owned());
            k += 1;
        }
        assert(text::texts(pool@) =~= text::texts(self.config.pool@));
        let plan = source::plan_candidates_at(pool, store, now);
        let ghost all = text::texts(plan@);
        let mut i: usize = 0;
        assert(all.skip(0) =~= all);
        while i < plan.len()
            invariant
                i <= plan@.len(),
                all == text::texts(plan@),
                first_other(all, self.current@) == first_other(all.skip(i as int), self.current@),
                all == source::plan_of(text::texts(self.config.pool@), store.state@, now),
                store.wf(),
                store.path == old(store).path,
                store.state@ == with_cooldown(
                    old(store).state@,
                    self.current@,
                    self.config.cooldown,
                    now,
                ),
            decreases plan@.len() - i,
        {
            assert(all.skip(i as int)[0] == plan@[i as int]@);
            assert(all.skip(i as int).drop_first() =~= all.skip(i + 1));
            if !text::same_text(plan[i].as_str(), self.current.as_str()) {
                return Some(plan[i].as_str().to_owned());
            }
            i += 1;
        }
        None
    }

    /// Begins to heal.
    pub fn begin(&self, store: &mut JsonFileEndpointStore) -> (next: Option<String>)
        requires
            old(store).wf(),
        ensures
            final(store).wf(),
            final(store).path == old(store).path,
            exists|now: u64|
                {
                    &&& final(store).state@ == #[trigger] with_cooldown(
                        old(store).state@,
                        self.current@,
                        self.config.cooldown,
                        now,
                    )
                    &&& match next {
                        Some(e) => first_other(
                            source::plan_of(
                                text::texts(self.config.pool@),
                                final(store).state@,
                                now,
                            ),
                            self.current@,
                        ) == Some(e@),
                        None => first_other(
                            source::plan_of(
                                text::texts(self.config.pool@),
                                final(store).state@,
                                now,
                            ),
                            self.current@,
                        ) is None,
                    }
                },
    {
        let now: u64 = system::now_unix();
        let next = self.begin_at(store, now);
        next
    }

    /// The tunnel through `next` was built: it is the one in use, and its
    /// endpoint the one that worked last.
    pub fn on_built(&mut self, store: &mut JsonFileEndpointStore, next: &str)
        requires
            old(store).wf(),
        ensures
            final(self).current@ == next@,
            final(self).config == old(self).config,
            final(store).wf(),
            final(store).path == old(store).path,
            final(store).state@.last_good == next@,
            final(store).cooldowns() == old(store).cooldowns().remove(next@),
    {
        self.current = next.to_owned();
        store.record_success(next);
    }

    /// The tunnel through `next` could not be built: its endpoint is left alone
    /// too, and the tunnel in use stays.
    pub fn on_failed_at(&self, store: &mut JsonFileEndpointStore, next: &str, now: u64)
        requires
            old(store).wf(),
        ensures
            final(store).wf(),
            final(store).path == old(store).path,
            final(store).state@ == with_cooldown(
                old(store).state@,
                next@,
                self.config.cooldown,
                now,
            ),
    {
        store.mark_cooldown_at(next, self.config.cooldown, now);
    }

    /// The tunnel through `next` could not be built.
    pub fn on_failed(&self, store: &mut JsonFileEndpointStore, next: &str)
        requires
            old(store).wf(),
        ensures
            final(store).wf(),
            final(store).path == old(store).path,
            exists|now: u64|
                final(store).state@ == #[trigger] with_cooldown(
                    old(store).state@,
                    next@,
                    self.config.cooldown,
                    now,
                ),
    {
        let now: u64 = system::now_unix();
        self.on_failed_at(store, next, now);
    }
}

proof fn lemma_first_other(plan: Seq<Seq<char>>, current: Seq<char>)
    ensures
        match first_other(plan, current) {
            Some(e) => exists|k: int|
                {
                    &&& 0 <= k < plan.len()
                    &&& #[trigger] plan[k] == e
                    &&& e != current
                    &&& forall|j: int| 0 <= j < k ==> #[trigger] plan[j] == current
                },
            None => forall|j: int| 0 <= j < plan.len() ==> #[trigger] plan[j] == current,
        },
    decreases plan.len(),
{
    if plan.len() > 0 {
        if plan[0] == current {
            let t = plan.drop_first();
            lemma_first_other(t, current);
            match first_other(t, current) {
                Some(e) => {
                    let k = choose|k: int|
                        {
                            &&& 0 <= k < t.len()
                            &&& #[trigger] t[k] == e
                            &&& e != current
                            &&& forall|j: int| 0 <= j < k ==> #[trigger] t[j] == current
                        };
                    assert(plan[k + 1] == e);
                    assert forall|j: int| 0 <= j < k + 1 implies #[trigger] plan[j] == current by {
                        if j > 0 {
                            assert(t[j - 1] == current);
                        }
                    }
                },
                None => {
                    assert forall|j: int| 0 <= j < plan.len() implies #[trigger] plan[j]
                        == current by {
                        if j > 0 {
                            assert(t[j - 1] == current);
                        }
                    }
                },
            }
        } else {
            assert(plan[0] == first_other(plan, current)->Some_0);
        }
    }
}

/// Healing moves to another endpoint wherever there is one, and to one that is
/// cooling down only where every other one is.
pub proof fn lemma_heal_choice(
    pool: Seq<Seq<char>>,
    s: StateView,
    now: u64,
    current: Seq<char>,
    other: Seq<char>,
)
    requires
        pool.contains(other),
        other != current,
    ensures
        first_other(source::plan_of(pool, s, now), current) matches Some(e) && e != current && (
        pool.contains(e) || e == s.last_good) && (state::cooldown_left(s.cooldowns, e, now) > 0
            ==> state::cooldown_left(s.cooldowns, other, now) > 0),
{
    let plan = source::plan_of(pool, s, now);
    source::lemma_plan(pool, s, now);
    lemma_first_other(plan, current);
    assert(plan.contains(other));
    let p = choose|p: int| 0 <= p < plan.len() && plan[p] == other;
    match first_other(plan, current) {
        Some(e) => {
            let k = choose|k: int|
                {
                    &&& 0 <= k < plan.len()
                    &&& #[trigger] plan[k] == e
                    &&& e != current
                    &&& forall|j: int| 0 <= j < k ==> #[trigger] plan[j] == current
                };
            assert(plan.contains(e));
            if p < k {
                assert(plan[p] == current);
            }
            assert(k == p || k < p);
        },
        None => {
            assert(plan[p] == current);
        },
    }
}

} // verus!
