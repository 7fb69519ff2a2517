use warp_socks::addr::{IpAddr, SocketAddr};
use warp_socks::health::heartbeat::{check, evaluate, record, record_at, HEARTBEAT_PATH};
use warp_socks::health::probe::{
    extract_trace_field, judge, warp_marked, ProbeError, ProbeOutcome, SocksTraceProbe,
};
use warp_socks::health::recovery::{RecoveryAction, ThresholdRecovery};

#[test]
fn fresh_ok_heartbeat_passes() {
    assert!(evaluate("ok\n1000\n", 1010, 30).is_ok());
}

#[test]
fn stale_heartbeat_fails() {
    let err = evaluate("ok\n1000\n", 1031, 30).unwrap_err();
    assert!(err.contains("过期"));
}

#[test]
fn failed_probe_heartbeat_fails() {
    let err = evaluate("fail\n1000\n", 1005, 30).unwrap_err();
    assert!(err.contains("失败"));
}

#[test]
fn malformed_content_fails() {
    assert!(evaluate("garbage", 1000, 30).is_err());
}

#[test]
fn extracts_trace_fields() {
    let body = "ip=1.2.3.4\nwarp=on\ncolo=ABC\n";
    assert_eq!(extract_trace_field(body, "ip").as_deref(), Some("1.2.3.4"));
    assert_eq!(extract_trace_field(body, "colo").as_deref(), Some("ABC"));
    assert_eq!(extract_trace_field(body, "missing"), None);
}

#[test]
fn requests_exit_only_after_threshold_consecutive_failures() {
    let mut recovery = ThresholdRecovery::new(3);
    assert_eq!(recovery.on_failure("x"), RecoveryAction::Continue);
    assert_eq!(recovery.on_failure("x"), RecoveryAction::Continue);
    assert_eq!(recovery.on_failure("x"), RecoveryAction::RequestExit);
}

#[test]
fn success_resets_failure_count() {
    let mut recovery = ThresholdRecovery::new(2);
    recovery.on_failure("x");
    recovery.on_success();
    assert_eq!(recovery.on_failure("x"), RecoveryAction::Continue);
    assert_eq!(recovery.consecutive_failures(), 1);
}

#[test]
fn threshold_is_at_least_one() {
    let mut recovery = ThresholdRecovery::new(0);
    assert_eq!(recovery.on_failure("x"), RecoveryAction::RequestExit);
}

#[test]
fn heartbeat_texts() {
    assert_eq!(record_at(true, 1000), "ok\n1000\n");
    assert_eq!(record_at(false, 0), "fail\n0\n");
    assert_eq!(HEARTBEAT_PATH, "/tmp/warp-socks-health");
}

#[test]
fn complaints_in_words() {
    assert_eq!(
        evaluate("ok\n1000\n", 1031, 30).unwrap_err(),
        "心跳已过期（31s 未更新，运行期健康检查循环可能已卡住）"
    );
    assert_eq!(evaluate("fail\n1000\n", 1030, 30).unwrap_err(), "最近一次运行期探测失败");
    assert_eq!(evaluate("", 0, 30).unwrap_err(), "心跳文件格式异常");
    assert_eq!(evaluate("ok\nx\n", 0, 30).unwrap_err(), "心跳文件格式异常");
    // A time that is ahead is no age at all.
    assert!(evaluate("ok\n2000", 1000, 0).is_ok());
    // Age is judged before the result.
    assert!(evaluate("fail\n0\n", 100, 1).unwrap_err().contains("过期"));
}

#[test]
fn heartbeats_are_read_back() {
    for (ok, now, healthy) in [(true, 1030, true), (true, 1031, false), (false, 1000, false)] {
        assert_eq!(evaluate(&record_at(ok, 1000), now, 30).is_ok(), healthy);
    }
}

#[test]
fn clock_is_read_for_heartbeats() {
    let beat = record(true);
    assert!(beat.starts_with("ok\n1"));
    assert!(check(Some(&beat), 60).is_ok());
    assert!(check(Some("ok\n1000\n"), 60).unwrap_err().contains("过期"));
    assert_eq!(
        check(None, 60).unwrap_err(),
        "尚无心跳记录（可能刚启动，还没跑完第一次探测）"
    );
}

#[test]
fn probe_answers_are_judged() {
    let body = "fl=1\nip=1.2.3.4\nwarp=plus\n";
    assert_eq!(
        judge(true, "200 OK", body),
        Ok(ProbeOutcome { ip: Some("1.2.3.4".to_string()) })
    );
    assert_eq!(judge(true, "200 OK", "warp=on"), Ok(ProbeOutcome { ip: None }));
    assert_eq!(ProbeOutcome::default(), ProbeOutcome { ip: None });
    let refused = judge(false, "503 Service Unavailable", body).unwrap_err();
    assert_eq!(refused, ProbeError::Request("HTTP 503 Service Unavailable".to_string()));
    assert_eq!(refused.message(), "请求失败: HTTP 503 Service Unavailable");
    let unmarked = judge(true, "200 OK", " warp=off\n\n  ip=1 ").unwrap_err();
    assert_eq!(unmarked, ProbeError::MissingWarpMarker("warp=off ip=1".to_string()));
    assert_eq!(unmarked.message(), "响应缺少 warp 标记: warp=off ip=1");
    let long = judge(true, "200 OK", &"x".repeat(200)).unwrap_err();
    assert_eq!(long, ProbeError::MissingWarpMarker("x".repeat(180)));
}

#[test]
fn marker_is_a_whole_line() {
    assert!(warp_marked("a\r\nwarp=on\r\n"));
    assert!(!warp_marked("xwarp=on"));
    assert!(!warp_marked("warp=on "));
}

#[test]
fn first_field_counts() {
    assert_eq!(extract_trace_field("ip=1\nip=2", "ip").as_deref(), Some("1"));
    assert_eq!(extract_trace_field("xip=1\nip=", "ip").as_deref(), Some(""));
}

#[test]
fn probe_goes_through_the_proxy() {
    let probe = SocksTraceProbe::new(SocketAddr::new(IpAddr::V4([127, 0, 0, 1]), 1080), 5);
    assert_eq!(probe.proxy_url(), "socks5h://127.0.0.1:1080");
    assert_eq!(probe.trace_url, "https://cloudflare.com/cdn-cgi/trace");
    assert_eq!(probe.timeout, 5);
}
