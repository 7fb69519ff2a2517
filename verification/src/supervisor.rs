//! The course of the process: which tunnel is tried, which endpoint, when the
//! proxy is ready, and when the process gives up and is started anew from
//! outside.

use crate::addr;
use crate::addr::SocketAddr;
use crate::appconfig::AppConfig;
use crate::endpoint::state;
use crate::endpoint::state::JsonFileEndpointStore;
use crate::health::recovery;
use crate::health::recovery::{RecoveryAction, ThresholdRecovery};
use crate::outbound::wireguard;
use crate::system;
use crate::text;
use vstd::prelude::*;

verus! {

// ---------------------------------------------------------------------------
// Listening addresses

/// Why a list of listening addresses is refused.
#[derive(Debug, PartialEq, Eq)]
pub enum ListenError {
    /// This is no address with a port.
    Invalid(String),
    /// There is no address.
    Empty,
}

impl ListenError {
    /// The error in words.
    pub fn message(&self) -> (s: String)
        ensures
            s@ == match self {
                ListenError::Invalid(v) => "SOCKS_LISTEN_ADDRS 包含非法地址: "@ + v@,
                ListenError::Empty => "SOCKS_LISTEN_ADDRS 至少需要一个监听地址"@,
            },
    {
        let mut out: Vec<char> = Vec::new();
        match self {
            ListenError::Invalid(v) => {
                text::push_str(&mut out, "SOCKS_LISTEN_ADDRS 包含非法地址: ");
                text::push_str(&mut out, v.as_str());
            },
            ListenError::Empty => {
                text::push_str(&mut out, "SOCKS_LISTEN_ADDRS 至少需要一个监听地址");
                assert(out@ =~= "SOCKS_LISTEN_ADDRS 至少需要一个监听地址"@);
            },
        }
        text::string_of(out.as_slice())
    }
}

/// The pieces of a list that are not blank, without the white space around them.
pub open spec fn listed(pieces: Seq<Seq<char>>) -> Seq<Seq<char>>
    decreases pieces.len(),
{
    if pieces.len() == 0 {
        Seq::empty()
    } else if text::trimmed(pieces.last()).len() == 0 {
        listed(pieces.drop_last())
    } else {
        listed(pieces.drop_last()).push(text::trimmed(pieces.last()))
    }
}

/// The entries of a list with commas.
pub open spec fn listen_entries(raw: Seq<char>) -> Seq<Seq<char>> {
    listed(text::split_at_char(raw, ','))
}

/// `a` is the address that `s` spells.
pub open spec fn spells_addr(s: Seq<char>, a: SocketAddr) -> bool {
    addr::socket_parts(s) == Some((a.ip@, a.port, a.scope_id))
}

/// Reads the list of listening addresses. Every entry has to be an address with
/// a port, and there has to be one.
pub fn parse_listen_addrs(raw: &str) -> (r: Result<Vec<SocketAddr>, ListenError>)
    ensures
        match r {
            Ok(v) => {
                &&& v@.len() > 0
                &&& v@.len() == listen_entries(raw@).len()
                &&& forall|i: int|
                    0 <= i < v@.len() ==> spells_addr(
                        listen_entries(raw@)[i],
                        #[trigger] v@[i],
                    )
            },
            Err(ListenError::Empty) => listen_entries(raw@).len() == 0,
            Err(ListenError::Invalid(s)) => exists|k: int|
                {
                    &&& 0 <= k < listen_entries(raw@).len()
                    &&& #[trigger] listen_entries(raw@)[k] == s@
                    &&& addr::socket_parts(s@) is None
                    &&& forall|j: int|
                        0 <= j < k ==> addr::socket_parts(
                            #[trigger] listen_entries(raw@)[j],
                        ) is Some
                },
        },
{
    let chars = text::chars_of(raw);
    let parts = text::split(chars.as_slice(), ',');
    let ghost all = text::pieces(parts@);
    let ghost entries = listen_entries(raw@);
    let mut out: Vec<SocketAddr> = Vec::new();
    let mut i: usize = 0;
    assert(all.take(0) =~= Seq::empty());
    proof {
        lemma_listed_prefix(all, 0);
    }
    while i < parts.len()
        invariant
            i <= parts@.len(),
            all == text::pieces(parts@),
            all == text::split_at_char(raw@, ','),
            entries == listen_entries(raw@),
            out@.len() == listed(all.take(i as int)).len(),
            out@.len() <= entries.len(),
            forall|k: int| 0 <= k < out@.len() ==> spells_addr(entries[k], #[trigger] out@[k]),
        decreases parts@.len() - i,
    {
        assert(all.take(i + 1).drop_last() =~= all.take(i as int));
        assert(all.take(i + 1).last() == parts@[i as int]@);
        proof {
            lemma_listed_prefix(all, i as int);
            lemma_listed_prefix(all, i + 1);
        }
        let t = text::trim(parts[i].as_slice());
        if t.len() > 0 {
            let ghost n = out@.len() as int;
            assert(listed(all.take(i + 1))[n] == t@);
            assert(entries[n] == t@);
            match addr::parse_socket_addr(t.as_slice()) {
                Some(a) => {
                    out.push(a);
                },
                None => {
                    let s = text::string_of(t.as_slice());
                    proof {
                        assert(entries[n] == s@);
                        assert forall|j: int| 0 <= j < n implies addr::socket_parts(
                            #[trigger] entries[j],
                        ) is Some by {
                            assert(spells_addr(entries[j], out@[j]));
                        }
                    }
                    return Err(ListenError::Invalid(s));
                },
            }
        }
        i += 1;
    }
    assert(all.take(i as int) =~= all);
    if out.len() == 0 {
        return Err(ListenError::Empty);
    }
    Ok(out)
}

/// The entries of the first pieces are the first entries.
proof fn lemma_listed_prefix(all: Seq<Seq<char>>, k: int)
    requires
        0 <= k <= all.len(),
    ensures
        listed(all.take(k)).len() <= listed(all).len(),
        forall|j: int|
            0 <= j < listed(all.take(k)).len() ==> #[trigger] listed(all.take(k))[j] == listed(
                all,
            )[j],
    decreases all.len() - k,
{
    if k == all.len() {
        assert(all.take(k) =~= all);
    } else {
        lemma_listed_prefix(all, k + 1);
        assert(all.take(k + 1).drop_last() =~= all.take(k));
        assert forall|j: int| 0 <= j < listed(all.take(k)).len() implies #[trigger] listed(
            all.take(k),
        )[j] == listed(all)[j] by {
            assert(listed(all.take(k + 1))[j] == listed(all.take(k))[j]);
        }
    }
}

// ---------------------------------------------------------------------------
// Which tunnel

/// What the process does.
#[derive(Clone, Copy, Debug, PartialEq, Eq, Structural)]
pub enum RunStep {
    /// Set up the MASQUE tunnel.
    TryMasque,
    /// Go through the endpoints of WireGuard.
    RunWireguard,
    /// Serve through the tunnel that is there, and watch it.
    Watch,
}

/// Where the credentials of a tunnel come from.
#[derive(Clone, Copy, Debug, PartialEq, Eq, Structural)]
pub enum CredentialStep {
    /// They are in their file.
    Load,
    /// They are obtained by registering.
    Register,
    /// They cannot be obtained without a token.
    NeedToken,
}

/// What is said where a token is needed and none is set.
pub const NEED_TOKEN: &'static str = "首次启动或重建状态时必须提供 TEAMS_TOKEN。";

/// The process, with its settings.
#[derive(Debug, PartialEq, Eq)]
pub struct Supervisor {
    pub config: AppConfig,
}

impl Supervisor {
    /// A process with these settings.
    pub fn new(config: AppConfig) -> (s: Self)
        ensures
            s.config == config,
    {
        Supervisor { config }
    }

    /// The tunnel that is tried first.
    pub fn first_step(&self) -> (s: RunStep)
        ensures
            s == if self.config.enable_masque {
                RunStep::TryMasque
            } else {
                RunStep::RunWireguard
            },
    {
        if self.config.enable_masque {
            RunStep::TryMasque
        } else {
            RunStep::RunWireguard
        }
    }

    /// What follows the attempt at the MASQUE tunnel: without it, WireGuard.
    pub fn after_masque(&self, ready: bool) -> (s: RunStep)
        ensures
            s == if ready {
                RunStep::Watch
            } else {
                RunStep::RunWireguard
            },
    {
        if ready {
            RunStep::Watch
        } else {
            RunStep::RunWireguard
        }
    }

    /// Where the credentials of the MASQUE tunnel come from. No token is needed.
    pub fn masque_credentials(&self, file_exists: bool) -> (s: CredentialStep)
        ensures
            s == if file_exists {
                CredentialStep::Load
            } else {
                CredentialStep::Register
            },
    {
        if file_exists {
            CredentialStep::Load
        } else {
            CredentialStep::Register
        }
    }

    /// Where the account of WireGuard comes from. Only a first registration
    /// needs a token.
    pub fn account(&self, file_exists: bool) -> (s: CredentialStep)
        ensures
            s == if file_exists {
                CredentialStep::Load
            } else if text::trimmed(self.config.teams_token@).len() == 0 {
                CredentialStep::NeedToken
            } else {
                CredentialStep::Register
            },
    {
        if file_exists {
            return CredentialStep::Load;
        }
        let chars = text::chars_of(self.config.teams_token.as_str());
        let token = text::trim(chars.as_slice());
        if token.len() == 0 {
            CredentialStep::NeedToken
        } else {
            CredentialStep::Register
        }
    }
}

/// A file that an older kind of state left in the directory: `state.json`, or a
/// name that begins with `wgcf-`.
pub open spec fn names_legacy_file(name: Seq<char>) -> bool {
    name == "state.json"@ || text::begins_with(name, "wgcf-"@)
}

/// Whether a file of this name is removed once there is an account.
pub fn is_legacy_file(name: &str) -> (r: bool)
    ensures
        r == names_legacy_file(name@),
{
    let chars = text::chars_of(name);
    let prefix = text::chars_of("wgcf-");
    text::same_text(name, "state.json") || text::has_prefix(chars.as_slice(), prefix.as_slice())
}

// ---------------------------------------------------------------------------
// Going through the endpoints

/// How many of these endpoints are left alone at `now`.
pub open spec fn cooling_among(list: Seq<String>, cooldowns: Map<Seq<char>, u64>, now: u64) -> nat
    decreases list.len(),
{
    if list.len() == 0 {
        0
    } else {
        cooling_among(list.drop_last(), cooldowns, now) + if state::cooldown_left(
            cooldowns,
            list.last()@,
            now,
        ) > 0 {
            1nat
        } else {
            0
        }
    }
}

/// How many of these endpoints are left alone at `now`.
pub fn count_cooling_at(list: &Vec<String>, store: &JsonFileEndpointStore, now: u64) -> (n: usize)
    requires
        store.wf(),
    ensures
        n == cooling_among(list@, store.cooldowns(), now),
{
    let mut n: usize = 0;
    let mut i: usize = 0;
    while i < list.len()
        invariant
            store.wf(),
            n <= i <= list@.len(),
            n == cooling_among(list@.take(i as int), store.cooldowns(), now),
        decreases list@.len() - i,
    {
        assert(list@.take(i + 1).drop_last() =~= list@.take(i as int));
        if store.remaining_at(list[i].as_str(), now) > 0 {
            n += 1;
        }
        i += 1;
    }
    assert(list@.take(i as int) =~= list@);
    n
}

/// How many of these endpoints are left alone now.
pub fn count_cooling(list: &Vec<String>, store: &JsonFileEndpointStore) -> (n: usize)
    requires
        store.wf(),
    ensures
        exists|now: u64| n == #[trigger] cooling_among(list@, store.cooldowns(), now),
{
    let now: u64 = system::now_unix();
    count_cooling_at(list, store, now)
}

/// What is said where there is nothing to try.
pub const NO_CANDIDATES: &'static str = "未生成任何可用 endpoint 候选。";

/// What is said when every endpoint has failed.
pub const ALL_FAILED: &'static str = "启动阶段出口探测失败，退出等待容器重启。";

/// The endpoints that are still to be tried at start, the present one first.
#[derive(Debug, PartialEq, Eq)]
pub struct Candidates {
    pub list: Vec<String>,
    pub index: usize,
    pub cooldown: u64,
}

impl Candidates {
    /// There is an endpoint to try.
    pub open spec fn wf(&self) -> bool {
        self.index < self.list@.len()
    }

    /// The endpoint that is being tried.
    pub open spec fn at(&self) -> Seq<char> {
        self.list@[self.index as int]@
    }

    /// A plan, from its beginning; `None` for an empty one.
    pub fn start(list: Vec<String>, cooldown: u64) -> (r: Option<Self>)
        ensures
            r is Some == (list@.len() > 0),
            r matches Some(c) ==> c.wf() && c.list == list && c.index == 0 && c.cooldown
                == cooldown,
    {
        if list.len() == 0 {
            None
        } else {
            Some(Candidates { list, index: 0, cooldown })
        }
    }

    /// The endpoint that is being tried.
    pub fn current(&self) -> (s: &str)
        requires
            self.wf(),
        ensures
            s@ == self.at(),
    {
        self.list[self.index].as_str()
    }

    /// The present endpoint works: it is remembered.
    pub fn on_ready(&self, store: &mut JsonFileEndpointStore)
        requires
            self.wf(),
            old(store).wf(),
        ensures
            final(store).wf(),
            final(store).path == old(store).path,
            final(store).state@.last_good == self.at(),
            final(store).cooldowns() == old(store).cooldowns().remove(self.at()),
    {
        store.record_success(self.current());
    }

    /// The present endpoint does not work: it is left alone from `now` on, and
    /// the next one is tried. `false` where it was the last.
    pub fn on_failed_at(&mut self, store: &mut JsonFileEndpointStore, now: u64) -> (more: bool)
        requires
            old(self).wf(),
            old(store).wf(),
        ensures
            final(store).wf(),
            final(store).path == old(store).path,
            final(store).state@ == wireguard::with_cooldown(
                old(store).state@,
                old(self).at(),
                old(self).cooldown,
                now,
            ),
            final(self).list == old(self).list,
            final(self).cooldown == old(self).cooldown,
            more == (old(self).index + 1 < old(self).list@.len()),
            more ==> final(self).wf() && final(self).index == old(self).index + 1,
            !more ==> final(self).index == old(self).index,
    {
        store.mark_cooldown_at(self.current(), self.cooldown, now);
        assert(store.state@ =~= wireguard::with_cooldown(
            old(store).state@,
            old(self).at(),
            old(self).cooldown,
            now,
        ));
        let total: usize = self.list.len();
        if self.index + 1 < total {
            self.index = self.index + 1;
            true
        } else {
            false
        }
    }

    /// The present endpoint does not work.
    pub fn on_failed(&mut self, store: &mut JsonFileEndpointStore) -> (more: bool)
        requires
            old(self).wf(),
            old(store).wf(),
        ensures
            final(store).wf(),
            final(store).path == old(store).path,
            exists|now: u64|
                final(store).state@ == #[trigger] wireguard::with_cooldown(
                    old(store).state@,
                    old(self).at(),
                    old(self).cooldown,
                    now,
                ),
            final(self).list == old(self).list,
            final(self).cooldown == old(self).cooldown,
            more == (old(self).index + 1 < old(self).list@.len()),
            more ==> final(self).wf() && final(self).index == old(self).index + 1,
            !more ==> final(self).index == old(self).index,
    {
        let now: u64 = system::now_unix();
        self.on_failed_at(store, now)
    }

    /// What is said when the next endpoint is tried.
    pub fn switch_message(&self) -> (s: String)
        requires
            self.wf(),
        ensures
            s@ == "切换到候选 "@ + text::decimal((self.index + 1) as nat) + "/"@ + text::decimal(
                self.list@.len(),
            ) + ": "@ + self.at() + "。"@,
    {
        let mut out: Vec<char> = Vec::new();
        let total: usize = self.list.len();
        text::push_str(&mut out, "切换到候选 ");
        text::push_decimal(&mut out, (self.index + 1) as u64);
        text::push_str(&mut out, "/");
        text::push_decimal(&mut out, total as u64);
        text::push_str(&mut out, ": ");
        text::push_str(&mut out, self.current());
        text::push_str(&mut out, "。");
        text::string_of(out.as_slice())
    }
}

// ---------------------------------------------------------------------------
// Until the proxy is ready

/// What is said when the proxy does not become ready in time.
pub const PROBE_TIMED_OUT: &'static str = "启动探测超时。";

/// What is said when the proxy ends before its time.
pub const SERVE_ENDED: &'static str = "SOCKS5 服务提前退出。";

/// What is done while the proxy is not ready. Times are in milliseconds.
#[derive(Clone, Copy, Debug, PartialEq, Eq, Structural)]
pub enum StartupStep {
    /// The proxy has ended.
    ServeEnded,
    /// The time is over.
    TimedOut,
    /// Probe; so much time was left.
    Probe(u64),
}

/// The wait for the proxy: when it is given up, and how long to wait between two
/// probes, in milliseconds.
#[derive(Clone, Copy, Debug, PartialEq, Eq, Structural)]
pub struct Startup {
    pub deadline: u64,
    pub probe_delay: u64,
}

impl Startup {
    /// What is done at `now`.
    pub fn step(&self, serve_ended: bool, now: u64) -> (s: StartupStep)
        ensures
            s == if serve_ended {
                StartupStep::ServeEnded
            } else if now >= self.deadline {
                StartupStep::TimedOut
            } else {
                StartupStep::Probe((self.deadline - now) as u64)
            },
            s is Probe <==> !serve_ended && now < self.deadline,
            s matches StartupStep::Probe(left) ==> now + left == self.deadline,
    {
        if serve_ended {
            StartupStep::ServeEnded
        } else if now >= self.deadline {
            StartupStep::TimedOut
        } else {
            StartupStep::Probe(self.deadline - now)
        }
    }

    /// How long to wait after a probe that failed: not longer than the time that
    /// was left before it.
    pub fn pause(&self, remaining: u64) -> (ms: u64)
        ensures
            ms == if self.probe_delay < remaining {
                self.probe_delay
            } else {
                remaining
            },
            ms <= self.probe_delay,
            ms <= remaining,
            ms == self.probe_delay || ms == remaining,
    {
        if self.probe_delay < remaining {
            self.probe_delay
        } else {
            remaining
        }
    }
}

// ---------------------------------------------------------------------------
// While the proxy serves

/// What is said when the threshold of failures is reached.
pub const TOO_MANY_FAILURES: &'static str = "连续失败达到阈值，退出等待容器重启。";

/// What happened while the proxy serves.
#[derive(Clone, Copy, Debug, PartialEq, Eq, Structural)]
pub enum WatchEvent {
    /// The process was asked to end.
    Shutdown,
    /// The proxy ended by itself.
    ServeEnded,
    /// The probe of this round succeeded or failed.
    Probed(bool),
    /// The tunnel was mended after a probe that failed: that worked, and so did
    /// a second probe; or it did not.
    Healed(bool),
}

/// What is done then.
#[derive(Clone, Copy, Debug, PartialEq, Eq, Structural)]
pub enum WatchStep {
    /// Wait for the next round.
    Continue,
    /// Try to mend the tunnel, and probe again.
    Heal,
    /// End well.
    Stop,
    /// End, since the proxy has.
    FailServeEnded,
    /// End, since too many probes have failed.
    FailThreshold,
}

/// The failures in a row after an event: only a round that ends counts.
pub open spec fn watch_step(failures: nat, event: WatchEvent) -> nat {
    match event {
        WatchEvent::Probed(true) => 0,
        WatchEvent::Healed(ok) => recovery::failures_step(failures, ok),
        _ => failures,
    }
}

/// The failures in a row after these events.
pub open spec fn watch_failures(events: Seq<WatchEvent>) -> nat
    decreases events.len(),
{
    if events.len() == 0 {
        0
    } else {
        watch_step(watch_failures(events.drop_last()), events.last())
    }
}

/// The rounds that have ended, `true` for one whose probe succeeded or whose
/// tunnel was mended.
pub open spec fn rounds(events: Seq<WatchEvent>) -> Seq<bool>
    decreases events.len(),
{
    if events.len() == 0 {
        Seq::empty()
    } else {
        let before = rounds(events.drop_last());
        match events.last() {
            WatchEvent::Probed(true) => before.push(true),
            WatchEvent::Healed(ok) => before.push(ok),
            _ => before,
        }
    }
}

/// The watch gives up exactly when that many of the latest rounds have failed:
/// a probe that failed does not count where the tunnel was mended.
pub proof fn lemma_watch_gives_up(events: Seq<WatchEvent>, threshold: nat)
    ensures
        watch_failures(events) >= threshold <==> threshold <= rounds(events).len() && forall|i: int|
            rounds(events).len() - threshold <= i < rounds(events).len() ==> !#[trigger] rounds(
                events,
            )[i],
{
    lemma_watch_counts_rounds(events);
    recovery::lemma_threshold_means_failures_in_a_row(rounds(events), threshold);
}

proof fn lemma_watch_counts_rounds(events: Seq<WatchEvent>)
    ensures
        watch_failures(events) == recovery::failures_after(rounds(events)),
    decreases events.len(),
{
    if events.len() > 0 {
        lemma_watch_counts_rounds(events.drop_last());
        let before = rounds(events.drop_last());
        assert(before.push(true).drop_last() =~= before);
        assert(before.push(false).drop_last() =~= before);
    }
}

/// The watch over a proxy that serves.
pub struct Watch {
    pub recovery: ThresholdRecovery,
}

impl Watch {
    /// The threshold has not been reached.
    pub open spec fn wf(&self) -> bool {
        self.recovery.failures() < self.recovery.threshold()
    }

    /// A watch that gives up after so many failures in a row; it begins with the
    /// heartbeat of a success, since the proxy was found ready.
    pub fn new(failure_threshold: u32) -> (w: Self)
        ensures
            w.wf(),
            w.recovery.failures() == 0,
            w.recovery.threshold() == if failure_threshold == 0 {
                1
            } else {
                failure_threshold
            },
    {
        Watch { recovery: ThresholdRecovery::new(failure_threshold) }
    }

    /// The heartbeat that an event leaves.
    pub open spec fn beat(event: WatchEvent) -> Option<bool> {
        match event {
            WatchEvent::Probed(ok) => Some(ok),
            WatchEvent::Healed(true) => Some(true),
            _ => None,
        }
    }

    /// What is done after an event, and the heartbeat that is written, if any. A
    /// probe that failed counts only where mending the tunnel did not help.
    pub fn on_event(&mut self, event: WatchEvent) -> (r: (WatchStep, Option<bool>))
        requires
            old(self).wf(),
        ensures
            final(self).recovery.threshold() == old(self).recovery.threshold(),
            final(self).recovery.failures() == watch_step(
                old(self).recovery.failures() as nat,
                event,
            ),
            r.0 == match event {
                WatchEvent::Shutdown => WatchStep::Stop,
                WatchEvent::ServeEnded => WatchStep::FailServeEnded,
                WatchEvent::Probed(true) => WatchStep::Continue,
                WatchEvent::Probed(false) => WatchStep::Heal,
                WatchEvent::Healed(true) => WatchStep::Continue,
                WatchEvent::Healed(false) => if final(self).recovery.failures() >= old(
                    self,
                ).recovery.threshold() {
                    WatchStep::FailThreshold
                } else {
                    WatchStep::Continue
                },
            },
            r.1 == Self::beat(event),
            r.0 != WatchStep::FailThreshold ==> final(self).wf(),
    {
        match event {
            WatchEvent::Shutdown => (WatchStep::Stop, None),
            WatchEvent::ServeEnded => (WatchStep::FailServeEnded, None),
            WatchEvent::Probed(ok) => if ok {
                let _action = self.recovery.on_success();
                (WatchStep::Continue, Some(true))
            } else {
                (WatchStep::Heal, Some(false))
            },
            WatchEvent::Healed(ok) => if ok {
                let _action = self.recovery.on_success();
                (WatchStep::Continue, Some(true))
            } else {
                match self.recovery.on_failure("") {
                    RecoveryAction::RequestExit => (WatchStep::FailThreshold, None),
                    RecoveryAction::Continue => (WatchStep::Continue, None),
                }
            },
        }
    }
}

} // verus!
