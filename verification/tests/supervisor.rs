use warp_socks::addr::{IpAddr, SocketAddr};
use warp_socks::appconfig::{
    env_var, is_true, sanitize_nonnegative_int, sanitize_positive_int, AppConfig, PROBE_TIMEOUT,
};
use warp_socks::endpoint::state::JsonFileEndpointStore;
use warp_socks::mixed::{
    accept_backoff, is_connection_error, protocol_of, AcceptFault, Protocol, MAX_CONNECTIONS,
};
use warp_socks::outbound::wireguard::{
    bind_addr, dns_server, resolved_target, takes_from, target_step, timeout_message, HealCtx,
    TargetStep, WgHealConfig,
};
use warp_socks::outbound::Host;
use warp_socks::relay;
use warp_socks::supervisor::{
    count_cooling, count_cooling_at, is_legacy_file,
    parse_listen_addrs, Candidates, CredentialStep, ListenError, RunStep, Startup, StartupStep,
    Supervisor, Watch, WatchEvent, WatchStep, ALL_FAILED, NEED_TOKEN, NO_CANDIDATES,
    PROBE_TIMED_OUT, SERVE_ENDED, TOO_MANY_FAILURES,
};
use warp_socks::tunnel::Trick;

fn env(vars: &[(&str, &str)]) -> Vec<(String, String)> {
    vars.iter().map(|(k, v)| (k.to_string(), v.to_string())).collect()
}

fn strings(items: &[&str]) -> Vec<String> {
    items.iter().map(|s| s.to_string()).collect()
}

fn store() -> JsonFileEndpointStore {
    JsonFileEndpointStore::load_at("p".to_string(), None, 0).0
}

#[test]
fn parses_ipv4_and_ipv6_listeners() {
    let addrs = parse_listen_addrs("127.0.0.1:1080, [2001:db8::10]:1080").unwrap();
    assert_eq!(addrs.len(), 2);
    assert!(addrs[0].ip.is_ipv4());
    assert!(!addrs[1].ip.is_ipv4());
}

#[test]
fn rejects_empty_or_invalid_listener_config() {
    assert!(parse_listen_addrs(" , ").is_err());
    assert!(parse_listen_addrs("192.0.2.10").is_err());
}

#[test]
fn listener_errors_in_words() {
    let e = parse_listen_addrs("127.0.0.1:1080,x , y").unwrap_err();
    assert_eq!(e, ListenError::Invalid("x".to_string()));
    assert_eq!(e.message(), "SOCKS_LISTEN_ADDRS 包含非法地址: x");
    let e = parse_listen_addrs("").unwrap_err();
    assert_eq!(e, ListenError::Empty);
    assert_eq!(e.message(), "SOCKS_LISTEN_ADDRS 至少需要一个监听地址");
    assert_eq!(
        parse_listen_addrs(",127.0.0.1:1,").unwrap(),
        vec![SocketAddr::new(IpAddr::V4([127, 0, 0, 1]), 1)]
    );
}

#[test]
fn settings_without_an_environment() {
    let c = AppConfig::from_env(&vec![]);
    assert_eq!(c.state_dir, "/etc/warp-socks");
    assert_eq!(c.wg_conf, "/etc/warp-socks/wg0.conf");
    assert_eq!(c.account_json, "/etc/warp-socks/account.json");
    assert_eq!(c.endpoint_state_file, "/etc/warp-socks/endpoint-state.json");
    assert_eq!(c.reg_json, "/etc/warp-socks/reg.json");
    assert_eq!(c.teams_token, "");
    assert_eq!(c.endpoint_candidates, "");
    assert!(c.enable_masque);
    assert_eq!(c.trick, Trick::Off);
    assert_eq!(c.listen_addrs, "127.0.0.1:1080");
    assert_eq!(c.register_retries, 2);
    assert_eq!(c.register_retry_delay, 2);
    assert_eq!(c.startup_probe_delay, 1);
    assert_eq!(c.startup_probe_timeout, 5);
    assert_eq!(c.startup_ready_timeout, 20);
    assert_eq!(c.startup_endpoint_cooldown, 30);
    assert_eq!(c.healthcheck_probe_timeout, 63);
    assert_eq!(c.healthcheck_failure_threshold, 3);
    assert_eq!(c.healthcheck_interval, 30);
    assert_eq!(c.runtime_endpoint_cooldown, 60);
    assert_eq!(c.heartbeat_max_age(), 103);
}

#[test]
fn settings_from_the_environment() {
    let c = AppConfig::from_env(&env(&[
        ("TEAMS_TOKEN", "t"),
        ("ENDPOINT_CANDIDATES", "a,b"),
        ("WARP_SOCKS_ENABLE_MASQUE", "0"),
        ("WARP_RS_TRICK", "t2"),
        ("SOCKS_LISTEN_ADDRS", "[::1]:1"),
        ("WARP_SOCKS_REGISTER_RETRIES", "0"),
        ("WARP_SOCKS_REGISTER_RETRY_DELAY", "0"),
        ("WARP_SOCKS_STARTUP_EGRESS_PROBE_DELAY", "x"),
        ("WARP_SOCKS_STARTUP_EGRESS_PROBE_TIMEOUT", " 4 "),
        ("WARP_SOCKS_STARTUP_SOCKS_READY_TIMEOUT", "15"),
        ("WARP_SOCKS_HEALTHCHECK_PROBE_TIMEOUT", "7"),
        ("WARP_SOCKS_HEALTHCHECK_FAILURE_THRESHOLD", "2"),
    ]));
    assert_eq!(c.teams_token, "t");
    assert_eq!(c.endpoint_candidates, "a,b");
    assert!(!c.enable_masque);
    assert_eq!(c.trick, Trick::T2);
    assert_eq!(c.listen_addrs, "[::1]:1");
    assert_eq!(c.register_retries, 2);
    assert_eq!(c.register_retry_delay, 0);
    assert_eq!(c.startup_probe_delay, 1);
    assert_eq!(c.startup_probe_timeout, 4);
    assert_eq!(c.startup_ready_timeout, 15);
    assert_eq!(c.healthcheck_probe_timeout, 7);
    assert_eq!(c.healthcheck_failure_threshold, 2);
    assert_eq!(c.heartbeat_max_age(), 47);
}

#[test]
fn values_of_settings() {
    let e = env(&[("A", "1"), ("A", "2")]);
    assert_eq!(env_var(&e, "A", "0"), "1");
    assert_eq!(env_var(&e, "B", "0"), "0");
    for yes in ["1", "true", "TRUE", "yes", "YES", "on", "ON"] {
        assert!(is_true(yes));
    }
    for no in ["", "0", "True", " 1", "off"] {
        assert!(!is_true(no));
    }
    assert_eq!(sanitize_positive_int(" 7 ", 1), 7);
    assert_eq!(sanitize_positive_int("0", 1), 1);
    assert_eq!(sanitize_positive_int("-1", 1), 1);
    assert_eq!(sanitize_positive_int("4294967296", 1), 1);
    assert_eq!(sanitize_nonnegative_int("0", 1), 0);
    assert_eq!(sanitize_nonnegative_int("", 1), 1);
    assert_eq!(sanitize_nonnegative_int("18446744073709551615", 1), u64::MAX);
}

#[test]
fn time_limits_nest() {
    assert_eq!(relay::CONNECT_TIMEOUT, 58);
    assert_eq!(u64::from(PROBE_TIMEOUT), relay::CONNECT_TIMEOUT + 5);
    assert_eq!(relay::timeout_message(), "连接目标超时（58s）");
}

#[test]
fn first_byte_tells_the_protocol() {
    assert_eq!(protocol_of(Some(5)), Some(Protocol::Socks5));
    assert_eq!(protocol_of(Some(4)), Some(Protocol::Socks4));
    assert_eq!(protocol_of(Some(b'C')), Some(Protocol::Http));
    assert_eq!(protocol_of(Some(0)), Some(Protocol::Http));
    assert_eq!(protocol_of(None), None);
    assert_eq!(MAX_CONNECTIONS, 4096);
}

#[test]
fn faults_of_a_connection_are_not_waited_for() {
    for f in [
        AcceptFault::ConnectionRefused,
        AcceptFault::ConnectionAborted,
        AcceptFault::ConnectionReset,
    ] {
        assert!(is_connection_error(f));
        assert_eq!(accept_backoff(f), 0);
    }
    assert!(!is_connection_error(AcceptFault::Other));
    assert_eq!(accept_backoff(AcceptFault::Other), 1);
}

#[test]
fn tunnels_are_tried_in_order() {
    let masque = Supervisor::new(AppConfig::from_env(&vec![]));
    assert_eq!(masque.first_step(), RunStep::TryMasque);
    assert_eq!(masque.after_masque(true), RunStep::Watch);
    assert_eq!(masque.after_masque(false), RunStep::RunWireguard);
    let plain = Supervisor::new(AppConfig::from_env(&env(&[("WARP_SOCKS_ENABLE_MASQUE", "no")])));
    assert_eq!(plain.first_step(), RunStep::RunWireguard);
}

#[test]
fn credentials_are_loaded_or_obtained() {
    let blank = Supervisor::new(AppConfig::from_env(&env(&[("TEAMS_TOKEN", "  ")])));
    assert_eq!(blank.account(true), CredentialStep::Load);
    assert_eq!(blank.account(false), CredentialStep::NeedToken);
    assert_eq!(blank.masque_credentials(true), CredentialStep::Load);
    assert_eq!(blank.masque_credentials(false), CredentialStep::Register);
    let token = Supervisor::new(AppConfig::from_env(&env(&[("TEAMS_TOKEN", "t")])));
    assert_eq!(token.account(false), CredentialStep::Register);
    assert_eq!(NEED_TOKEN, "首次启动或重建状态时必须提供 TEAMS_TOKEN。");
}

#[test]
fn candidates_are_gone_through_once() {
    assert!(Candidates::start(vec![], 30).is_none());
    assert_eq!(NO_CANDIDATES, "未生成任何可用 endpoint 候选。");
    let mut store = store();
    let mut c = Candidates::start(strings(&["a:1", "b:1"]), 30).unwrap();
    assert_eq!(c.current(), "a:1");
    assert!(c.on_failed_at(&mut store, 100));
    assert_eq!(c.current(), "b:1");
    assert_eq!(c.switch_message(), "切换到候选 2/2: b:1。");
    assert_eq!(store.remaining_at("a:1", 100), 30);
    c.on_ready(&mut store);
    assert_eq!(store.last_good().as_deref(), Some("b:1"));
    assert!(!c.on_failed_at(&mut store, 100));
    assert_eq!(store.remaining_at("b:1", 101), 29);
    assert_eq!(ALL_FAILED, "启动阶段出口探测失败，退出等待容器重启。");
    assert!(!c.on_failed(&mut store));
    assert!(store.is_cooling_down("b:1"));
}

#[test]
fn proxy_is_probed_until_it_is_ready() {
    let s = Startup { deadline: 20_000, probe_delay: 1000 };
    assert_eq!(s.step(true, 0), StartupStep::ServeEnded);
    assert_eq!(s.step(false, 0), StartupStep::Probe(20_000));
    assert_eq!(s.step(false, 19_999), StartupStep::Probe(1));
    assert_eq!(s.step(false, 20_000), StartupStep::TimedOut);
    assert_eq!(s.pause(20_000), 1000);
    assert_eq!(s.pause(1), 1);
    assert_eq!(PROBE_TIMED_OUT, "启动探测超时。");
    assert_eq!(SERVE_ENDED, "SOCKS5 服务提前退出。");
}

#[test]
fn old_state_is_told_from_the_present_one() {
    for name in ["state.json", "wgcf-account.toml", "wgcf-"] {
        assert!(is_legacy_file(name));
    }
    for name in ["account.json", "wg0.conf", "endpoint-state.json", "reg.json", "wgcf", "a-wgcf-"] {
        assert!(!is_legacy_file(name));
    }
}

#[test]
fn cooling_endpoints_are_counted() {
    let mut store = store();
    store.mark_cooldown_at("a:1", 60, 100);
    store.mark_cooldown_at("c:1", 10, 100);
    let list = strings(&["a:1", "b:1", "c:1"]);
    assert_eq!(count_cooling_at(&list, &store, 100), 2);
    assert_eq!(count_cooling_at(&list, &store, 110), 1);
    assert_eq!(count_cooling(&list, &store), 0);
}

#[test]
fn failures_count_unless_the_tunnel_was_mended() {
    let mut w = Watch::new(2);
    assert_eq!(w.on_event(WatchEvent::Probed(true)), (WatchStep::Continue, Some(true)));
    assert_eq!(w.on_event(WatchEvent::Probed(false)), (WatchStep::Heal, Some(false)));
    assert_eq!(w.on_event(WatchEvent::Healed(false)), (WatchStep::Continue, None));
    assert_eq!(w.on_event(WatchEvent::Probed(false)), (WatchStep::Heal, Some(false)));
    assert_eq!(w.on_event(WatchEvent::Healed(true)), (WatchStep::Continue, Some(true)));
    assert_eq!(w.recovery.consecutive_failures(), 0);
    assert_eq!(w.on_event(WatchEvent::Healed(false)), (WatchStep::Continue, None));
    assert_eq!(w.on_event(WatchEvent::Healed(false)), (WatchStep::FailThreshold, None));
    let mut w = Watch::new(1);
    assert_eq!(w.on_event(WatchEvent::Shutdown), (WatchStep::Stop, None));
    assert_eq!(w.on_event(WatchEvent::ServeEnded), (WatchStep::FailServeEnded, None));
    assert_eq!(TOO_MANY_FAILURES, "连续失败达到阈值，退出等待容器重启。");
}

fn heal_ctx(pool: &[&str], current: &str) -> HealCtx {
    let config = WgHealConfig {
        pool: strings(pool),
        endpoint_state_file: "s".to_string(),
        wg_conf_path: "c".to_string(),
        cooldown: 60,
    };
    HealCtx::new(config, current)
}

#[test]
fn healing_moves_to_another_endpoint() {
    let mut store = store();
    let mut ctx = heal_ctx(&["a:1", "b:1", "c:1"], "a:1");
    let next = ctx.begin_at(&mut store, 100).unwrap();
    assert_eq!(next, "b:1");
    assert_eq!(store.remaining_at("a:1", 100), 60);
    ctx.on_failed_at(&mut store, &next, 100);
    assert_eq!(ctx.current, "a:1");
    assert_eq!(store.remaining_at("b:1", 100), 60);
    let next = ctx.begin_at(&mut store, 110).unwrap();
    assert_eq!(next, "c:1");
    ctx.on_built(&mut store, &next);
    assert_eq!(ctx.current, "c:1");
    assert_eq!(store.last_good().as_deref(), Some("c:1"));
    // The others are cooling down, but one of them is still better than none.
    assert_eq!(ctx.begin_at(&mut store, 120).as_deref(), Some("a:1"));
    assert_eq!(heal_ctx(&["a:1"], "a:1").begin_at(&mut JsonFileEndpointStore::load_at("p".to_string(), None, 0).0, 0), None);
}

#[test]
fn healing_reads_the_clock() {
    let mut store = store();
    let ctx = heal_ctx(&["a:1", "b:1"], "a:1");
    assert_eq!(ctx.begin(&mut store).as_deref(), Some("b:1"));
    assert!(store.is_cooling_down("a:1"));
    ctx.on_failed(&mut store, "b:1");
    assert!(store.is_cooling_down("b:1"));
}

#[test]
fn targets_of_the_tunnel() {
    let ip = IpAddr::V4([1, 2, 3, 4]);
    let v6 = IpAddr::V6([1; 16]);
    assert!(matches!(target_step(Host::Ip(ip), 80), TargetStep::Ready(a) if a == SocketAddr::new(ip, 80)));
    assert!(matches!(target_step(Host::Domain("h".to_string()), 80), TargetStep::Resolve(n) if n == "h"));
    assert_eq!(resolved_target("h", 80, Ok(vec![ip, v6])), Ok(SocketAddr::new(ip, 80)));
    assert_eq!(resolved_target("h", 80, Ok(vec![])).unwrap_err(), "域名 h 未解析到地址");
    assert_eq!(
        resolved_target("h", 80, Err("e".to_string())).unwrap_err(),
        "隧道内解析域名 h 失败: e"
    );
    assert_eq!(timeout_message(&SocketAddr::new(ip, 80)), "连接 1.2.3.4:80 超时（10s）");
    assert_eq!(bind_addr(&SocketAddr::new(ip, 80)).to_text(), "0.0.0.0:0");
    assert_eq!(bind_addr(&SocketAddr::new(v6, 80)).to_text(), "[::]:0");
    assert!(takes_from(&SocketAddr::new(ip, 80), &SocketAddr::new(ip, 80)));
    assert!(!takes_from(&SocketAddr::new(ip, 80), &SocketAddr::new(ip, 81)));
    assert_eq!(dns_server().to_text(), "1.1.1.1:53");
}
