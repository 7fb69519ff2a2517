//! The settings of the process, from its environment.

use crate::outbound::masque;
use crate::relay;
use crate::text;
use crate::tunnel::Trick;
use vstd::prelude::*;

verus! {

/// Seconds within which a probe through the proxy is answered, unless set: what
/// the proxy itself may need to connect, and a margin.
pub const PROBE_TIMEOUT: u32 = 63;

/// Seconds between two probes.
pub const HEALTHCHECK_INTERVAL: u64 = 30;

/// Seconds for which an endpoint that failed at start is left alone.
pub const STARTUP_ENDPOINT_COOLDOWN: u64 = 30;

/// Seconds for which an endpoint that failed later is left alone.
pub const RUNTIME_ENDPOINT_COOLDOWN: u64 = 60;

/// Seconds beyond which a heartbeat that should have come is late.
pub const HEARTBEAT_MARGIN: u64 = 10;

/// Every time limit leaves room for the one inside it: a probe for a connection
/// through the proxy, and that connection for the mending of the tunnel.
pub proof fn lemma_timeouts_nest()
    ensures
        masque::CONNECT_STREAM_TIMEOUT < relay::CONNECT_TIMEOUT < PROBE_TIMEOUT,
        PROBE_TIMEOUT == relay::CONNECT_TIMEOUT + 5,
{
}

/// The settings of the process. Times are in seconds.
#[derive(Debug, PartialEq, Eq)]
pub struct AppConfig {
    pub state_dir: String,
    pub wg_conf: String,
    pub account_json: String,
    pub endpoint_state_file: String,
    pub reg_json: String,
    pub teams_token: String,
    pub endpoint_candidates: String,
    pub enable_masque: bool,
    pub trick: Trick,
    pub listen_addrs: String,
    pub register_retries: u32,
    pub register_retry_delay: u64,
    pub startup_probe_delay: u64,
    pub startup_probe_timeout: u64,
    pub startup_ready_timeout: u64,
    pub startup_endpoint_cooldown: u64,
    pub healthcheck_probe_timeout: u64,
    pub healthcheck_failure_threshold: u32,
    pub healthcheck_interval: u64,
    pub runtime_endpoint_cooldown: u64,
}

/// The value of a variable; the default where it is not set.
pub open spec fn env_value(
    env: Seq<(String, String)>,
    name: Seq<char>,
    default: Seq<char>,
) -> Seq<char>
    decreases env.len(),
{
    if env.len() == 0 {
        default
    } else if env[0].0@ == name {
        env[0].1@
    } else {
        env_value(env.drop_first(), name, default)
    }
}

/// The value of a variable; the default where it is not set.
pub fn env_var(env: &Vec<(String, String)>, name: &str, default: &str) -> (s: String)
    ensures
        s@ == env_value(env@, name@, default@),
{
    let mut i: usize = 0;
    assert(env@.skip(0) =~= env@);
    while i < env.len()
        invariant
            i <= env@.len(),
            env_value(env@, name@, default@) == env_value(env@.skip(i as int), name@, default@),
        decreases env@.len() - i,
    {
        assert(env@.skip(i as int)[0] == env@[i as int]);
        assert(env@.skip(i as int).drop_first() =~= env@.skip(i + 1));
        if text::same_text(env[i].0.as_str(), name) {
            return env[i].1.as_str().to_owned();
        }
        i += 1;
    }
    default.to_owned()
}

/// A text that switches something on.
pub open spec fn says_true(s: Seq<char>) -> bool {
    s == "1"@ || s == "true"@ || s == "TRUE"@ || s == "yes"@ || s == "YES"@ || s == "on"@ || s
        == "ON"@
}

/// Whether a text switches something on.
pub fn is_true(raw: &str) -> (r: bool)
    ensures
        r == says_true(raw@),
{
    text::same_text(raw, "1") || text::same_text(raw, "true") || text::same_text(raw, "TRUE")
        || text::same_text(raw, "yes") || text::same_text(raw, "YES") || text::same_text(raw, "on")
        || text::same_text(raw, "ON")
}

/// The positive number that a text says; the fallback where it says none.
pub open spec fn positive_or(raw: Seq<char>, fallback: u32) -> u32 {
    match text::parsed_up_to(text::trimmed(raw), u32::MAX as nat) {
        Some(n) => if n > 0 {
            n as u32
        } else {
            fallback
        },
        None => fallback,
    }
}

/// The number that a text says; the fallback where it says none.
pub open spec fn number_or(raw: Seq<char>, fallback: u64) -> u64 {
    match text::parsed_up_to(text::trimmed(raw), u64::MAX as nat) {
        Some(n) => n as u64,
        None => fallback,
    }
}

/// Reads a positive number.
pub fn sanitize_positive_int(raw: &str, fallback: u32) -> (n: u32)
    ensures
        n == positive_or(raw@, fallback),
{
    let chars = text::chars_of(raw);
    let t = text::trim(chars.as_slice());
    match text::parse_up_to(t.as_slice(), u32::MAX as u64) {
        Some(n) => if n > 0 {
            n as u32
        } else {
            fallback
        },
        None => fallback,
    }
}

/// Reads a number.
pub fn sanitize_nonnegative_int(raw: &str, fallback: u64) -> (n: u64)
    ensures
        n == number_or(raw@, fallback),
{
    let chars = text::chars_of(raw);
    let t = text::trim(chars.as_slice());
    match text::parse_up_to(t.as_slice(), u64::MAX) {
        Some(n) => n,
        None => fallback,
    }
}

/// The disguise of a handshake that a text asks for: none unless it names one.
pub open spec fn trick_named(s: Seq<char>) -> Trick {
    match Trick::of_name(s) {
        Some(t) => t,
        None => Trick::Off,
    }
}

fn trick_of(s: &str) -> (t: Trick)
    ensures
        t == trick_named(s@),
{
    match Trick::named(s) {
        Some(t) => t,
        None => Trick::Off,
    }
}

impl AppConfig {
    /// The settings that an environment stands for: the variables that are set,
    /// by name.
    pub fn from_env(env: &Vec<(String, String)>) -> (c: AppConfig)
        ensures
            c.state_dir@ == "/etc/warp-socks"@,
            c.wg_conf@ == "/etc/warp-socks/wg0.conf"@,
            c.account_json@ == "/etc/warp-socks/account.json"@,
            c.endpoint_state_file@ == "/etc/warp-socks/endpoint-state.json"@,
            c.reg_json@ == "/etc/warp-socks/reg.json"@,
            c.teams_token@ == env_value(env@, "TEAMS_TOKEN"@, ""@),
            c.endpoint_candidates@ == env_value(env@, "ENDPOINT_CANDIDATES"@, ""@),
            c.enable_masque == says_true(env_value(env@, "WARP_SOCKS_ENABLE_MASQUE"@, "1"@)),
            c.trick == trick_named(env_value(env@, "WARP_RS_TRICK"@, "none"@)),
            c.listen_addrs@ == env_value(env@, "SOCKS_LISTEN_ADDRS"@, "127.0.0.1:1080"@),
            c.register_retries == positive_or(
                env_value(env@, "WARP_SOCKS_REGISTER_RETRIES"@, "2"@),
                2,
            ),
            c.register_retry_delay == number_or(
                env_value(env@, "WARP_SOCKS_REGISTER_RETRY_DELAY"@, "2"@),
                2,
            ),
            c.startup_probe_delay == number_or(
                env_value(env@, "WARP_SOCKS_STARTUP_EGRESS_PROBE_DELAY"@, "1"@),
                1,
            ),
            c.startup_probe_timeout == positive_or(
                env_value(env@, "WARP_SOCKS_STARTUP_EGRESS_PROBE_TIMEOUT"@, "5"@),
                5,
            ),
            c.startup_ready_timeout == positive_or(
                env_value(env@, "WARP_SOCKS_STARTUP_SOCKS_READY_TIMEOUT"@, "20"@),
                20,
            ),
            c.startup_endpoint_cooldown == STARTUP_ENDPOINT_COOLDOWN,
            c.startup_endpoint_cooldown == 30,
            c.healthcheck_probe_timeout == positive_or(
                env_value(env@, "WARP_SOCKS_HEALTHCHECK_PROBE_TIMEOUT"@, ""@),
                PROBE_TIMEOUT,
            ),
            c.healthcheck_failure_threshold == positive_or(
                env_value(env@, "WARP_SOCKS_HEALTHCHECK_FAILURE_THRESHOLD"@, "3"@),
                3,
            ),
            c.healthcheck_interval == HEALTHCHECK_INTERVAL,
            c.healthcheck_interval == 30,
            c.runtime_endpoint_cooldown == RUNTIME_ENDPOINT_COOLDOWN,
            c.runtime_endpoint_cooldown == 60,
    {
        AppConfig {
            state_dir: "/etc/warp-socks".to_owned(),
            wg_conf: "/etc/warp-socks/wg0.conf".to_owned(),
            account_json: "/etc/warp-socks/account.json".to_owned(),
            endpoint_state_file: "/etc/warp-socks/endpoint-state.json".to_owned(),
            reg_json: "/etc/warp-socks/reg.json".to_owned(),
            teams_token: env_var(env, "TEAMS_TOKEN", ""),
            endpoint_candidates: env_var(env, "ENDPOINT_CANDIDATES", ""),
            enable_masque: is_true(env_var(env, "WARP_SOCKS_ENABLE_MASQUE", "1").as_str()),
            trick: trick_of(env_var(env, "WARP_RS_TRICK", "none").as_str()),
            listen_addrs: env_var(env, "SOCKS_LISTEN_ADDRS", "127.0.0.1:1080"),
            register_retries: sanitize_positive_int(
                env_var(env, "WARP_SOCKS_REGISTER_RETRIES", "2").as_str(),
                2,
            ),
            register_retry_delay: sanitize_nonnegative_int(
                env_var(env, "WARP_SOCKS_REGISTER_RETRY_DELAY", "2").as_str(),
                2,
            ),
            startup_probe_delay: sanitize_nonnegative_int(
                env_var(env, "WARP_SOCKS_STARTUP_EGRESS_PROBE_DELAY", "1").as_str(),
                1,
            ),
            startup_probe_timeout: sanitize_positive_int(
                env_var(env, "WARP_SOCKS_STARTUP_EGRESS_PROBE_TIMEOUT", "5").as_str(),
                5,
            ) as u64,
            startup_ready_timeout: sanitize_positive_int(
                env_var(env, "WARP_SOCKS_STARTUP_SOCKS_READY_TIMEOUT", "20").as_str(),
                20,
            ) as u64,
            startup_endpoint_cooldown: STARTUP_ENDPOINT_COOLDOWN,
            healthcheck_probe_timeout: sanitize_positive_int(
                env_var(env, "WARP_SOCKS_HEALTHCHECK_PROBE_TIMEOUT", "").as_str(),
                PROBE_TIMEOUT,
            ) as u64,
            healthcheck_failure_threshold: sanitize_positive_int(
                env_var(env, "WARP_SOCKS_HEALTHCHECK_FAILURE_THRESHOLD", "3").as_str(),
                3,
            ),
            healthcheck_interval: HEALTHCHECK_INTERVAL,
            runtime_endpoint_cooldown: RUNTIME_ENDPOINT_COOLDOWN,
        }
    }

    /// The seconds after which a heartbeat is too old: a round of the probe and
    /// its time limit, and a margin. Past the end of time it is the end of time.
    pub fn heartbeat_max_age(&self) -> (secs: u64)
        ensures
            secs == if self.healthcheck_interval + self.healthcheck_probe_timeout
                + HEARTBEAT_MARGIN > u64::MAX {
                u64::MAX as int
            } else {
                self.healthcheck_interval + self.healthcheck_probe_timeout + HEARTBEAT_MARGIN
            },
            self.healthcheck_interval + self.healthcheck_probe_timeout + 10 <= u64::MAX ==> secs
                == self.healthcheck_interval + self.healthcheck_probe_timeout + 10,
    {
        self.healthcheck_interval.saturating_add(self.healthcheck_probe_timeout).saturating_add(
            HEARTBEAT_MARGIN,
        )
    }
}

} // verus!
