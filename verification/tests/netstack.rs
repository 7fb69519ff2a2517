use std::collections::{HashSet, VecDeque};

use smoltcp::iface::{Config, Interface, Route};
use smoltcp::phy::{Device, DeviceCapabilities, Medium, RxToken, TxToken};
use smoltcp::socket::{tcp, udp, Socket};
use smoltcp::time::Instant;
use smoltcp::wire::{HardwareAddress, IpAddress, IpEndpoint};
use warp_socks::addr::{parse_socket_addr, IpAddr, SocketAddr};
use warp_socks::config::WgConfig;
use warp_socks::netstack::{
    assignable, buffers_fit, configure, poll_connected, poll_datagram, poll_flush, poll_read, poll_shutdown,
    poll_write, select_port, AddressFamily, BufferDevice, BufferSize, NetConfig, NetError,
    Readiness, Ready, ReactorStep, Round, SocketTable, Sources, Transport, Woken,
    DEFAULT_MAX_BURST_SIZE, EPHEMERAL_PORT_FIRST, EPHEMERAL_PORT_LAST, MAX_TCP_BUFFER,
};
use warp_socks::outbound::wireguard::build_net_config;

struct Quiet;

struct NoToken;

impl RxToken for NoToken {
    fn consume<R, F: FnOnce(&[u8]) -> R>(self, f: F) -> R {
        f(&[])
    }
}

impl TxToken for NoToken {
    fn consume<R, F: FnOnce(&mut [u8]) -> R>(self, len: usize, f: F) -> R {
        f(&mut vec![0; len])
    }
}

impl Device for Quiet {
    type RxToken<'a> = NoToken;
    type TxToken<'a> = NoToken;

    fn receive(&mut self, _: Instant) -> Option<(NoToken, NoToken)> {
        None
    }

    fn transmit(&mut self, _: Instant) -> Option<NoToken> {
        None
    }

    fn capabilities(&self) -> DeviceCapabilities {
        let mut capabilities = DeviceCapabilities::default();
        capabilities.medium = Medium::Ip;
        capabilities.max_transmission_unit = 1330;
        capabilities
    }
}

const V4: IpAddr = IpAddr::V4([172, 16, 0, 2]);
const V6: IpAddr = IpAddr::V6([0x20, 0x01, 0x0d, 0xb8, 0, 0, 0, 0, 0, 0, 0, 0, 0, 0, 0, 2]);

fn interface() -> Interface {
    let mut config = Config::new(HardwareAddress::Ip);
    config.random_seed = 1;
    Interface::new(config, &mut Quiet, Instant::from_secs(0))
}

fn dual_stack_net() -> (Interface, Sources, SocketTable) {
    let mut i = interface();
    let config = NetConfig::new(vec![(V4, 32), (V6, 128)], vec![V4, V6]);
    let sources = configure(&mut i, &config).unwrap();
    (i, sources, SocketTable::new())
}

fn addr(s: &str) -> SocketAddr {
    parse_socket_addr(&s.chars().collect::<Vec<char>>()).unwrap()
}

fn bind(t: &mut SocketTable, s: &Sources, a: &str) -> Result<(smoltcp::iface::SocketHandle, u16), NetError> {
    let a = addr(a);
    let source = s.source_for(&a)?;
    t.new_udp(&BufferSize::default(), source, a.port)
}

fn connect(
    t: &mut SocketTable,
    i: &mut Interface,
    s: &Sources,
    a: &str,
) -> Result<(smoltcp::iface::SocketHandle, u16), NetError> {
    let a = addr(a);
    let source = s.source_for(&a)?;
    t.connect_tcp(i, &BufferSize::default(), source, &a)
}

#[test]
fn udp_bind_selects_source_address_by_family() {
    let (_, sources, mut table) = dual_stack_net();
    let v4 = bind(&mut table, &sources, "0.0.0.0:0").unwrap();
    let v6 = bind(&mut table, &sources, "[::]:0").unwrap();

    let v4_socket = table.sockets.get::<udp::Socket>(v4.0);
    assert_eq!(v4_socket.endpoint().addr, Some(IpAddress::v4(172, 16, 0, 2)));
    assert_eq!(sources.v4, Some(V4));
    let v6_socket = table.sockets.get::<udp::Socket>(v6.0);
    assert_eq!(
        v6_socket.endpoint().addr,
        Some(IpAddress::v6(0x2001, 0xdb8, 0, 0, 0, 0, 0, 2))
    );
    assert_eq!(sources.v6, Some(V6));
}

#[test]
fn tcp_connect_selects_source_address_by_family() {
    let (mut i, sources, mut table) = dual_stack_net();

    for (target, remote, expected) in [
        ("192.0.2.1:443", IpAddress::v4(192, 0, 2, 1), IpAddress::v4(172, 16, 0, 2)),
        (
            "[2001:db8::1]:443",
            IpAddress::v6(0x2001, 0xdb8, 0, 0, 0, 0, 0, 1),
            IpAddress::v6(0x2001, 0xdb8, 0, 0, 0, 0, 0, 2),
        ),
    ] {
        let (handle, port) = connect(&mut table, &mut i, &sources, target).unwrap();
        let socket = table.sockets.get::<tcp::Socket>(handle);
        assert_eq!(socket.state(), tcp::State::SynSent);
        assert_eq!(socket.remote_endpoint(), Some(IpEndpoint::new(remote, 443)));
        assert_eq!(socket.local_endpoint().map(|e| e.addr), Some(expected));
        assert_eq!(socket.local_endpoint().map(|e| e.port), Some(port));
        table.release(handle);
        assert!(table.sockets.iter().next().is_none());
    }
}

#[test]
fn failed_tcp_connect_does_not_leave_a_socket() {
    let (mut i, sources, mut table) = dual_stack_net();
    let error = match connect(&mut table, &mut i, &sources, "192.0.2.1:0") {
        Ok(_) => panic!("远端端口为 0 的 TCP 连接不应成功"),
        Err(error) => error,
    };
    assert_eq!(error, NetError::Unaddressable);
    assert!(table.sockets.iter().next().is_none());
}

#[test]
fn dropping_udp_socket_releases_its_port() {
    let (_, sources, mut table) = dual_stack_net();
    let (handle, port) = bind(&mut table, &sources, "0.0.0.0:0").unwrap();
    assert!(table.port_in_use(Transport::Udp, AddressFamily::Ipv4, port));
    table.release(handle);
    assert!(!table.port_in_use(Transport::Udp, AddressFamily::Ipv4, port));
}

#[test]
fn source_selection_rejects_unconfigured_family() {
    let mut i = interface();
    let config = NetConfig::new(vec![(IpAddr::V4([192, 0, 2, 2]), 32)], vec![]);
    let sources = configure(&mut i, &config).unwrap();

    let error = sources.source_for(&addr("[2001:db8::1]:443")).unwrap_err();
    assert_eq!(error, NetError::NoSource(false));
    assert_eq!(error.message(), "未配置 IPv6 源地址");
}

#[test]
fn udp_ports_are_unique_within_an_address_family() {
    let (_, sources, mut table) = dual_stack_net();
    let first = bind(&mut table, &sources, "0.0.0.0:15000").unwrap();
    let conflict = bind(&mut table, &sources, "0.0.0.0:15000").err().unwrap();
    assert_eq!(conflict, NetError::PortInUse(15000));

    let v6 = bind(&mut table, &sources, "[::]:15000").unwrap();
    assert_eq!(v6.1, 15000);
    table.release(first.0);
    assert!(bind(&mut table, &sources, "0.0.0.0:15000").is_ok());
}

#[test]
fn tcp_and_udp_can_reuse_the_same_port() {
    let (mut i, sources, mut table) = dual_stack_net();
    let (_, port) = connect(&mut table, &mut i, &sources, "192.0.2.1:443").unwrap();
    let udp = bind(&mut table, &sources, &format!("0.0.0.0:{port}")).unwrap();
    assert_eq!(udp.1, port);
}

#[test]
fn ephemeral_port_selection_wraps_and_reports_exhaustion() {
    let mut next = EPHEMERAL_PORT_LAST;
    let mut used = HashSet::new();
    let last = select_port(&mut next, 0, |port| used.contains(&port)).unwrap();
    used.insert(last);
    let first = select_port(&mut next, 0, |port| used.contains(&port)).unwrap();
    assert_eq!(last, EPHEMERAL_PORT_LAST);
    assert_eq!(first, EPHEMERAL_PORT_FIRST);

    used.extend(EPHEMERAL_PORT_FIRST..=EPHEMERAL_PORT_LAST);
    let exhausted = select_port(&mut next, 0, |port| used.contains(&port)).err().unwrap();
    assert_eq!(exhausted, NetError::PortsExhausted);
}

#[test]
fn net_config_contains_dual_stack_addresses_and_routes() {
    let config = build_net_config(&WgConfig {
        private_key: [1; 32],
        peer_public_key: [2; 32],
        endpoint: addr("192.0.2.1:2408"),
        reserved: [0; 3],
        address_v4: [172, 16, 0, 2],
        address_v6: match addr("[2001:db8::2]:1").ip {
            IpAddr::V6(o) => o,
            IpAddr::V4(_) => unreachable!(),
        },
    });

    assert_eq!(config.ip_addrs, vec![(V4, 32), (V6, 128)]);
    assert_eq!(config.gateways, vec![V4, V6]);
    assert_eq!(config.buffer_size.tcp_rx_size, 256 * 1024);
    assert_eq!(config.buffer_size.tcp_tx_size, 256 * 1024);
    assert_eq!(config.buffer_size.udp_rx_size, 8192);
    assert_eq!(config.buffer_size.udp_rx_meta_size, 32);
}

#[test]
fn ports_are_taken_for_one_transport_and_family() {
    let (mut i, sources, mut table) = dual_stack_net();
    let (_, first) = connect(&mut table, &mut i, &sources, "192.0.2.1:443").unwrap();
    let (_, second) = connect(&mut table, &mut i, &sources, "192.0.2.1:443").unwrap();
    assert_eq!((first, second), (EPHEMERAL_PORT_FIRST, EPHEMERAL_PORT_FIRST + 1));
    assert!(table.port_in_use(Transport::Tcp, AddressFamily::Ipv4, first));
    assert!(!table.port_in_use(Transport::Tcp, AddressFamily::Ipv6, first));
    assert!(!table.port_in_use(Transport::Udp, AddressFamily::Ipv4, first));
    assert_eq!(table.allocate_port(Transport::Udp, AddressFamily::Ipv4, first), Ok(first));
    assert_eq!(table.allocate_port(Transport::Tcp, AddressFamily::Ipv4, first), Err(NetError::PortInUse(first)));
    assert_eq!(table.next_port, EPHEMERAL_PORT_FIRST + 2);
    assert_eq!(table.sockets.iter().filter(|(_, s)| matches!(s, Socket::Tcp(_))).count(), 2);
}

#[test]
fn unspecified_and_mixed_ends_cannot_be_connected() {
    let (mut i, sources, mut table) = dual_stack_net();
    let b = BufferSize::default();
    assert_eq!(
        connect(&mut table, &mut i, &sources, "0.0.0.0:443").err(),
        Some(NetError::Unaddressable)
    );
    assert_eq!(
        table.connect_tcp(&mut i, &b, V4, &addr("[2001:db8::1]:443")).err(),
        Some(NetError::Unaddressable)
    );
    let any = IpAddr::V4([0, 0, 0, 0]);
    assert_eq!(
        table.connect_tcp(&mut i, &b, any, &addr("192.0.2.1:443")).err(),
        Some(NetError::Unaddressable)
    );
    assert!(table.sockets.iter().next().is_none());
    assert!(b.tcp_rx_size <= MAX_TCP_BUFFER);
    assert!(buffers_fit(&b));
    assert!(!buffers_fit(&BufferSize { tcp_rx_size: MAX_TCP_BUFFER + 1, ..b }));
    assert!(!buffers_fit(&BufferSize { tcp_tx_size: usize::MAX, ..b }));
    assert!(!buffers_fit(&BufferSize { udp_rx_size: usize::MAX, ..b }));
    assert!(!buffers_fit(&BufferSize { udp_tx_meta_size: usize::MAX / 128, ..b }));
}

#[test]
fn requested_ports_are_checked_alone() {
    let mut next = 20000;
    assert_eq!(select_port(&mut next, 80, |_| false), Ok(80));
    assert_eq!(select_port(&mut next, 80, |p| p == 80), Err(NetError::PortInUse(80)));
    assert_eq!(next, 20000);
    assert_eq!(select_port(&mut next, 0, |p| p < 20003), Ok(20003));
    assert_eq!(next, 20004);
}

#[test]
fn interfaces_are_configured_or_refused() {
    let config = NetConfig::new(vec![], vec![]);
    assert_eq!(configure(&mut interface(), &config), Err(NetError::NoAddress));

    let config = NetConfig::new(vec![(V4, 32), (V4, 24)], vec![]);
    assert_eq!(configure(&mut interface(), &config), Err(NetError::DuplicateAddress));

    let many = vec![(V4, 32), (V6, 128), (IpAddr::V4([10, 0, 0, 1]), 32)];
    assert_eq!(
        configure(&mut interface(), &NetConfig::new(many, vec![])),
        Err(NetError::TooManyAddresses)
    );

    let mut full = interface();
    full.routes_mut().update(|routes| {
        for _ in 0..2 {
            let mut route = Route::new_ipv4_gateway([10, 0, 0, 9].into());
            route.cidr = smoltcp::wire::IpCidr::new(IpAddress::v4(10, 9, 0, 0), 16);
            routes.push(route).unwrap();
        }
    });
    let config = NetConfig::new(vec![(V4, 32)], vec![V4]);
    assert_eq!(configure(&mut full, &config), Err(NetError::Route(V4)));

    let mut i = interface();
    let second = IpAddr::V4([10, 0, 0, 1]);
    let config = NetConfig::new(vec![(V4, 32), (second, 24)], vec![V4, second]);
    let sources = configure(&mut i, &config).unwrap();
    assert_eq!(sources, Sources { v4: Some(V4), v6: None });
    assert_eq!(i.ip_addrs().len(), 2);
    assert_eq!(i.ip_addrs()[1].prefix_len(), 24);
    assert_eq!(i.ipv4_addr(), Some([172, 16, 0, 2].into()));
}

#[test]
fn assignable_addresses() {
    assert!(assignable(&V4) && assignable(&V6));
    assert!(assignable(&IpAddr::V4([0, 0, 0, 0])));
    assert!(!assignable(&IpAddr::V4([224, 0, 0, 1])));
    assert!(assignable(&IpAddr::V4([240, 0, 0, 1])));
    assert!(!assignable(&IpAddr::V4([255, 255, 255, 255])));
    assert!(assignable(&IpAddr::V4([255, 255, 255, 254])));
    let mut all_nodes = [0; 16];
    all_nodes[0] = 0xff;
    assert!(!assignable(&IpAddr::V6(all_nodes)));
}

#[test]
fn errors_in_words() {
    assert_eq!(NetError::NoAddress.message(), "netstack 至少需要一个接口地址");
    assert_eq!(NetError::DuplicateAddress.message(), "netstack 接口地址重复");
    assert_eq!(
        NetError::TooManyAddresses.message(),
        "netstack 接口地址数量超过 smoltcp 上限"
    );
    assert_eq!(
        NetError::Route(V4).message(),
        "添加默认路由 172.16.0.2 失败: Route table full"
    );
    assert_eq!(NetError::NoSource(true).message(), "未配置 IPv4 源地址");
    assert_eq!(NetError::PortInUse(80).message(), "端口 80 已被占用");
    assert_eq!(NetError::PortsExhausted.message(), "临时端口已耗尽");
    assert_eq!(NetError::Unaddressable.message(), "unaddressable destination");
}

#[test]
fn queues_keep_their_order_and_their_bound() {
    assert_eq!(BufferDevice::new(None).max_burst_size, DEFAULT_MAX_BURST_SIZE);
    let mut d = BufferDevice::new(Some(2));
    d.push_received(VecDeque::from(vec![vec![1], vec![2], vec![3]]));
    assert_eq!(d.receive(), Some(vec![1]));
    d.push_received(VecDeque::from(vec![vec![4], vec![5]]));
    assert_eq!(d.receive(), Some(vec![2]));
    assert_eq!(d.receive(), Some(vec![4]));
    assert_eq!(d.receive(), None);
    assert!(d.can_transmit());
    d.push_sent(vec![6]);
    d.push_sent(vec![7]);
    assert!(!d.can_transmit());
    assert_eq!(d.take_send_queue(), VecDeque::from(vec![vec![6], vec![7]]));
    assert!(d.can_transmit());
}

#[test]
fn rounds_of_the_reactor() {
    let mut d = BufferDevice::new(Some(2));
    let (mut round, step) = Round::start(&d);
    assert_eq!(step, ReactorStep::Wait);
    assert_eq!(round.on_wake(Woken::Nudged, 2), ReactorStep::Fill);
    assert_eq!(round.on_wake(Woken::DeviceFailed, 2), ReactorStep::Fail);
    assert_eq!(round.on_wake(Woken::DeviceEnded, 2), ReactorStep::Stop);
    assert_eq!(round.on_wake(Woken::Stopped, 2), ReactorStep::Stop);
    assert_eq!(round.on_wake(Woken::Packet(vec![1]), 2), ReactorStep::Fill);
    assert_eq!(round.on_ready(Ready::Nothing, 2), ReactorStep::Poll);
    assert_eq!(round.on_ready(Ready::DeviceFailed, 2), ReactorStep::Fail);
    assert_eq!(round.on_ready(Ready::DeviceEnded, 2), ReactorStep::PollAndStop);
    assert_eq!(round.on_ready(Ready::Packet(vec![2]), 2), ReactorStep::Poll);
    d.push_received(round.received);
    assert_eq!(Round::start(&d).1, ReactorStep::Poll);
}

#[test]
fn polls_of_sockets() {
    assert_eq!(poll_connected(true, true, false), Readiness::Stopped);
    assert_eq!(poll_connected(false, true, false), Readiness::Done);
    assert_eq!(poll_connected(false, false, true), Readiness::Refused);
    assert_eq!(poll_connected(false, false, false), Readiness::Pending);
    assert_eq!(poll_read(true, true, true), Readiness::Stopped);
    assert_eq!(poll_read(false, false, true), Readiness::Done);
    assert_eq!(poll_read(false, true, true), Readiness::Act);
    assert_eq!(poll_read(false, true, false), Readiness::Pending);
    assert_eq!(poll_write(true, true, true), Readiness::Stopped);
    assert_eq!(poll_write(false, false, true), Readiness::Refused);
    assert_eq!(poll_write(false, true, true), Readiness::Act);
    assert_eq!(poll_write(false, true, false), Readiness::Pending);
    assert_eq!(poll_flush(true, 0), Readiness::Stopped);
    assert_eq!(poll_flush(false, 0), Readiness::Done);
    assert_eq!(poll_flush(false, 1), Readiness::Pending);
    assert_eq!(poll_shutdown(true, true, false), Readiness::Done);
    assert_eq!(poll_shutdown(false, true, false), Readiness::Act);
    assert_eq!(poll_shutdown(false, false, true), Readiness::Done);
    assert_eq!(poll_shutdown(false, false, false), Readiness::Pending);
    assert_eq!(poll_datagram(true, false, false), Readiness::Stopped);
    assert_eq!(poll_datagram(false, true, false), Readiness::Pending);
    assert_eq!(poll_datagram(false, false, true), Readiness::Refused);
    assert_eq!(poll_datagram(false, false, false), Readiness::Done);
}

#[test]
fn sockets_have_the_buffers_asked_for() {
    let (mut i, sources, mut table) = dual_stack_net();
    let sizes = BufferSize {
        tcp_rx_size: 100,
        tcp_tx_size: 200,
        udp_rx_size: 300,
        udp_tx_size: 400,
        udp_rx_meta_size: 5,
        udp_tx_meta_size: 6,
    };
    let target = addr("192.0.2.1:443");
    let source = sources.source_for(&target).unwrap();
    let (h, _) = table.connect_tcp(&mut i, &sizes, source, &target).unwrap();
    let socket = table.sockets.get::<tcp::Socket>(h);
    assert_eq!((socket.recv_capacity(), socket.send_capacity()), (100, 200));
    let (h, _) = table.new_udp(&sizes, source, 0).unwrap();
    let socket = table.sockets.get::<udp::Socket>(h);
    assert_eq!((socket.packet_recv_capacity(), socket.payload_recv_capacity()), (5, 300));
    assert_eq!((socket.packet_send_capacity(), socket.payload_send_capacity()), (6, 400));
}

#[test]
fn the_search_for_a_port_goes_on_where_it_ended() {
    let (_, sources, mut table) = dual_stack_net();
    let first = bind(&mut table, &sources, "0.0.0.0:0").unwrap();
    assert_eq!(first.1, EPHEMERAL_PORT_FIRST);
    table.release(first.0);
    let second = bind(&mut table, &sources, "0.0.0.0:0").unwrap();
    assert_eq!(second.1, EPHEMERAL_PORT_FIRST + 1);
    table.next_port = EPHEMERAL_PORT_FIRST;
    assert_eq!(bind(&mut table, &sources, "0.0.0.0:0").unwrap().1, EPHEMERAL_PORT_FIRST);
    table.next_port = EPHEMERAL_PORT_FIRST;
    assert_eq!(bind(&mut table, &sources, "0.0.0.0:0").unwrap().1, EPHEMERAL_PORT_FIRST + 2);
    table.next_port = EPHEMERAL_PORT_LAST;
    assert_eq!(bind(&mut table, &sources, "0.0.0.0:0").unwrap().1, EPHEMERAL_PORT_LAST);
    assert_eq!(table.next_port, EPHEMERAL_PORT_FIRST);
}
