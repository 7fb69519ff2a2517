//! What is remembered of endpoints from one start to the next: the one that
//! worked last, and until when each of the others is left alone.

use crate::system;
use crate::table::TextTable;
use vstd::prelude::*;

verus! {

/// The endpoint that worked last, and the ends of the cooldowns in seconds since
/// the Unix epoch.
#[derive(Debug, PartialEq, Eq)]
pub struct State {
    pub last_good_endpoint: String,
    pub cooldowns: TextTable<u64>,
}

/// A state: the endpoint that worked last, and the ends of the cooldowns.
#[verifier::ext_equal]
pub struct StateView {
    pub last_good: Seq<char>,
    pub cooldowns: Map<Seq<char>, u64>,
}

impl View for State {
    type V = StateView;

    open spec fn view(&self) -> StateView {
        StateView { last_good: self.last_good_endpoint@, cooldowns: self.cooldowns@ }
    }
}

/// The map that entries stand for; of two entries for one endpoint the later
/// counts.
pub open spec fn entries_map(e: Seq<(String, u64)>) -> Map<Seq<char>, u64>
    decreases e.len(),
{
    if e.len() == 0 {
        Map::empty()
    } else {
        entries_map(e.drop_last()).insert(e.last().0@, e.last().1)
    }
}

/// The cooldowns that have not ended.
pub open spec fn unexpired(m: Map<Seq<char>, u64>, now: u64) -> Map<Seq<char>, u64> {
    m.restrict(Set::new(|k: Seq<char>| m.dom().contains(k) && m[k] > now))
}

/// The seconds that are left of an endpoint's cooldown.
pub open spec fn cooldown_left(m: Map<Seq<char>, u64>, endpoint: Seq<char>, now: u64) -> u64 {
    if m.dom().contains(endpoint) && m[endpoint] > now {
        (m[endpoint] - now) as u64
    } else {
        0
    }
}

/// The end of a cooldown that begins at `now`.
pub open spec fn cooldown_end(now: u64, secs: u64) -> u64 {
    if now + secs > u64::MAX {
        u64::MAX
    } else {
        (now + secs) as u64
    }
}

impl Default for State {
    fn default() -> (s: Self)
        ensures
            s.wf(),
            s@ == (StateView { last_good: Seq::empty(), cooldowns: Map::empty() }),
    {
        let s = State { last_good_endpoint: String::new(), cooldowns: TextTable::new() };
        assert(s@ =~= (StateView { last_good: Seq::empty(), cooldowns: Map::empty() }));
        s
    }
}

impl State {
    /// No endpoint has two cooldowns.
    pub open spec fn wf(&self) -> bool {
        self.cooldowns.wf()
    }

    /// The state that a file describes.
    pub fn from_entries(last_good_endpoint: String, entries: &Vec<(String, u64)>) -> (s: Self)
        ensures
            s.wf(),
            s@ == (StateView {
                last_good: last_good_endpoint@,
                cooldowns: entries_map(entries@),
            }),
    {
        let mut cooldowns: TextTable<u64> = TextTable::new();
        let mut i: usize = 0;
        assert(entries@.take(0) =~= Seq::empty());
        while i < entries.len()
            invariant
                i <= entries@.len(),
                cooldowns.wf(),
                cooldowns@ == entries_map(entries@.take(i as int)),
            decreases entries@.len() - i,
        {
            assert(entries@.take(i + 1).drop_last() =~= entries@.take(i as int));
            cooldowns.insert(entries[i].0.as_str(), entries[i].1);
            i += 1;
        }
        assert(entries@.take(i as int) =~= entries@);
        State { last_good_endpoint, cooldowns }
    }

    /// The cooldowns as entries, for a file.
    pub fn entries(&self) -> (out: Vec<(String, u64)>)
        requires
            self.wf(),
        ensures
            entries_map(out@) == self@.cooldowns,
            out@.len() == self.cooldowns.size(),
    {
        let mut out: Vec<(String, u64)> = Vec::new();
        let n: usize = self.cooldowns.len();
        let mut i: usize = 0;
        while i < n
            invariant
                i <= n == self.cooldowns.size(),
                self.wf(),
                out@.len() == i,
                forall|k: int| 0 <= k < i ==> (#[trigger] out@[k]).0@ == self.cooldowns.key(k),
                forall|k: Seq<char>| #[trigger]
                    entries_map(out@).dom().contains(k) ==> self.cooldowns@.dom().contains(k)
                        && entries_map(out@)[k] == self.cooldowns@[k],
                forall|k: int|
                    0 <= k < i ==> entries_map(out@).dom().contains(
                        #[trigger] self.cooldowns.key(k),
                    ),
            decreases n - i,
        {
            let (key, until) = self.cooldowns.at(i);
            let ghost before = out@;
            out.push((key.as_str().to_owned(), *until));
            proof {
                assert(out@.drop_last() =~= before);
                assert(out@.last().0@ == key@);
                assert(entries_map(out@) == entries_map(before).insert(key@, *until));
                assert forall|k: Seq<char>| #[trigger]
                    entries_map(out@).dom().contains(k) implies self.cooldowns@.dom().contains(k)
                    && entries_map(out@)[k] == self.cooldowns@[k] by {
                    if k != key@ {
                        assert(entries_map(before).dom().contains(k));
                    }
                }
                assert forall|k: int| 0 <= k < i + 1 implies entries_map(out@).dom().contains(
                    #[trigger] self.cooldowns.key(k),
                ) by {
                    if k < i {
                        assert(entries_map(before).dom().contains(self.cooldowns.key(k)));
                    }
                }
            }
            i += 1;
        }
        proof {
            assert forall|k: Seq<char>| #[trigger] self.cooldowns@.dom().contains(k) implies
                entries_map(out@).dom().contains(k) by {
                self.cooldowns.lemma_key_position(k);
                let p = choose|p: int|
                    0 <= p < self.cooldowns.size() && #[trigger] self.cooldowns.key(p) == k;
                assert(entries_map(out@).dom().contains(self.cooldowns.key(p)));
            }
            assert(entries_map(out@) =~= self.cooldowns@);
        }
        out
    }
}

/// The endpoint state together with the file that it is kept in.
#[derive(Debug, PartialEq, Eq)]
pub struct JsonFileEndpointStore {
    pub path: String,
    pub state: State,
}

impl JsonFileEndpointStore {
    /// The state is well-formed.
    pub open spec fn wf(&self) -> bool {
        self.state.wf()
    }

    /// The ends of the cooldowns.
    pub open spec fn cooldowns(&self) -> Map<Seq<char>, u64> {
        self.state@.cooldowns
    }

    /// The store at `now` for what its file holds: `None` where there is no
    /// file. Cooldowns that have ended are dropped. The second result says
    /// whether the file has to be written: where there was none, or where
    /// something was dropped.
    pub fn load_at(path: String, existing: Option<State>, now: u64) -> (r: (Self, bool))
        requires
            existing matches Some(s) ==> s.wf(),
        ensures
            r.0.wf(),
            r.0.path@ == path@,
            match existing {
                Some(s) => {
                    &&& r.0.state@.last_good == s@.last_good
                    &&& r.0.cooldowns() == unexpired(s@.cooldowns, now)
                    &&& r.1 == (unexpired(s@.cooldowns, now) != s@.cooldowns)
                },
                None => {
                    &&& r.0.state@.last_good == Seq::<char>::empty()
                    &&& r.0.cooldowns() == Map::<Seq<char>, u64>::empty()
                    &&& r.1
                },
            },
    {
        match existing {
            None => (JsonFileEndpointStore { path, state: State::default() }, true),
            Some(state) => {
                let mut store = JsonFileEndpointStore { path, state };
                let dropped = store.prune_at(now);
                (store, dropped)
            },
        }
    }

    /// The store at the present time.
    pub fn load(path: String, existing: Option<State>) -> (r: (Self, bool))
        requires
            existing matches Some(s) ==> s.wf(),
        ensures
            r.0.wf(),
            r.0.path@ == path@,
            match existing {
                Some(s) => {
                    &&& r.0.state@.last_good == s@.last_good
                    &&& exists|now: u64| r.0.cooldowns() == #[trigger] unexpired(s@.cooldowns, now)
                    &&& r.1 == (r.0.cooldowns() != s@.cooldowns)
                },
                None => {
                    &&& r.0.state@.last_good == Seq::<char>::empty()
                    &&& r.0.cooldowns() == Map::<Seq<char>, u64>::empty()
                    &&& r.1
                },
            },
    {
        let now: u64 = system::now_unix();
        Self::load_at(path, existing, now)
    }

    /// Drops the cooldowns that have ended, and says whether there were any.
    pub fn prune_at(&mut self, now: u64) -> (dropped: bool)
        requires
            old(self).wf(),
        ensures
            final(self).wf(),
            final(self).path == old(self).path,
            final(self).state@.last_good == old(self).state@.last_good,
            final(self).cooldowns() == unexpired(old(self).cooldowns(), now),
            dropped == (final(self).cooldowns() != old(self).cooldowns()),
    {
        let ghost all = self.cooldowns();
        let mut dropped: bool = false;
        let mut i: usize = 0;
        while i < self.state.cooldowns.len()
            invariant
                i <= self.state.cooldowns.size(),
                self.wf(),
                self.path == old(self).path,
                self.state.last_good_endpoint == old(self).state.last_good_endpoint,
                all == old(self).cooldowns(),
                forall|k: Seq<char>| #[trigger]
                    self.cooldowns().dom().contains(k) ==> all.dom().contains(k) && all[k]
                        == self.cooldowns()[k],
                forall|k: Seq<char>|
                    all.dom().contains(k) && all[k] > now ==> #[trigger] self.cooldowns().dom().contains(
                        k,
                    ),
                forall|k: int|
                    0 <= k < i ==> self.cooldowns()[#[trigger] self.state.cooldowns.key(k)] > now,
                dropped ==> exists|k: Seq<char>|
                    all.dom().contains(k) && !#[trigger] self.cooldowns().dom().contains(k),
                !dropped ==> self.cooldowns() == all,
            decreases self.state.cooldowns.size() - i,
        {
            let (key, until) = self.state.cooldowns.at(i);
            if *until > now {
                i += 1;
            } else {
                let ghost k = key@;
                let ghost before = self.cooldowns();
                let ghost table = self.state.cooldowns;
                self.state.cooldowns.remove_at(i);
                proof {
                    assert(all.dom().contains(k) && !self.cooldowns().dom().contains(k));
                    assert(self.cooldowns() == before.remove(k));
                    assert forall|p: int| 0 <= p < i implies self.cooldowns()[
                        #[trigger] self.state.cooldowns.key(p)
                    ] > now by {
                        assert(before[table.key(p)] > now);
                    }
                }
                dropped = true;
            }
        }
        proof {
            assert forall|k: Seq<char>| #[trigger] self.cooldowns().dom().contains(k) implies
                self.cooldowns()[k] > now by {
                self.state.cooldowns.lemma_key_position(k);
                let p = choose|p: int|
                    0 <= p < self.state.cooldowns.size() && #[trigger] self.state.cooldowns.key(p)
                        == k;
                assert(self.cooldowns()[self.state.cooldowns.key(p)] > now);
            }
            assert(self.cooldowns() =~= unexpired(all, now));
        }
        dropped
    }

    /// The endpoint that worked last.
    pub fn last_good(&self) -> (r: Option<String>)
        ensures
            match r {
                Some(s) => s@ == self.state@.last_good && s@.len() > 0,
                None => self.state@.last_good.len() == 0,
            },
    {
        let s = self.state.last_good_endpoint.as_str();
        if crate::text::same_text(s, "") {
            assert(self.state@.last_good.len() == 0) by {
                reveal_strlit("");
            }
            None
        } else {
            proof {
                reveal_strlit("");
                if s@.len() == 0 {
                    assert(s@ =~= ""@);
                }
            }
            Some(s.to_owned())
        }
    }

    /// The seconds that are left at `now` of an endpoint's cooldown.
    pub fn remaining_at(&self, endpoint: &str, now: u64) -> (secs: u64)
        requires
            self.wf(),
        ensures
            secs == cooldown_left(self.cooldowns(), endpoint@, now),
    {
        match self.state.cooldowns.get(endpoint) {
            Some(until) => if *until > now {
                *until - now
            } else {
                0
            },
            None => 0,
        }
    }

    /// The seconds that are left of an endpoint's cooldown.
    pub fn cooldown_remaining(&self, endpoint: &str) -> (secs: u64)
        requires
            self.wf(),
        ensures
            exists|now: u64|
                secs == #[trigger] cooldown_left(self.cooldowns(), endpoint@, now),
    {
        let now: u64 = system::now_unix();
        let secs: u64 = self.remaining_at(endpoint, now);
        assert(secs == cooldown_left(self.cooldowns(), endpoint@, now));
        secs
    }

    /// Whether an endpoint is cooling down.
    pub fn is_cooling_down(&self, endpoint: &str) -> (r: bool)
        requires
            self.wf(),
        ensures
            exists|now: u64|
                r == (#[trigger] cooldown_left(self.cooldowns(), endpoint@, now) > 0),
    {
        let now: u64 = system::now_unix();
        let secs: u64 = self.remaining_at(endpoint, now);
        assert(secs == cooldown_left(self.cooldowns(), endpoint@, now));
        secs > 0
    }

    /// Remembers that an endpoint worked, and ends its cooldown.
    pub fn record_success(&mut self, endpoint: &str)
        requires
            old(self).wf(),
        ensures
            final(self).wf(),
            final(self).path == old(self).path,
            final(self).state@.last_good == endpoint@,
            final(self).cooldowns() == old(self).cooldowns().remove(endpoint@),
    {
        self.state.last_good_endpoint = endpoint.to_owned();
        self.state.cooldowns.remove(endpoint);
    }

    /// Leaves an endpoint alone for some seconds from `now` on.
    pub fn mark_cooldown_at(&mut self, endpoint: &str, secs: u64, now: u64)
        requires
            old(self).wf(),
        ensures
            final(self).wf(),
            final(self).path == old(self).path,
            final(self).state@.last_good == old(self).state@.last_good,
            final(self).cooldowns() == old(self).cooldowns().insert(
                endpoint@,
                cooldown_end(now, secs),
            ),
    {
        let until: u64 = if secs > u64::MAX - now {
            u64::MAX
        } else {
            now + secs
        };
        self.state.cooldowns.insert(endpoint, until);
    }

    /// Leaves an endpoint alone for some seconds.
    pub fn mark_cooldown(&mut self, endpoint: &str, secs: u64)
        requires
            old(self).wf(),
        ensures
            final(self).wf(),
            final(self).path == old(self).path,
            final(self).state@.last_good == old(self).state@.last_good,
            exists|now: u64|
                final(self).cooldowns() == old(self).cooldowns().insert(
                    endpoint@,
                    #[trigger] cooldown_end(now, secs),
                ),
    {
        let now: u64 = system::now_unix();
        self.mark_cooldown_at(endpoint, secs, now);
        assert(self.cooldowns() == old(self).cooldowns().insert(
            endpoint@,
            cooldown_end(now, secs),
        ));
    }
}

/// An endpoint that has just been recorded as working is not cooling down at any
/// time, and the cooldowns of the others stay as they were.
pub proof fn lemma_success_ends_cooldown(
    m: Map<Seq<char>, u64>,
    endpoint: Seq<char>,
    other: Seq<char>,
    now: u64,
)
    ensures
        cooldown_left(m.remove(endpoint), endpoint, now) == 0,
        other != endpoint ==> cooldown_left(m.remove(endpoint), other, now) == cooldown_left(
            m,
            other,
            now,
        ),
{
}

/// A cooldown lasts for as many seconds as it was given: at every later time
/// before its end what is left is what has not passed.
pub proof fn lemma_cooldown_lasts(
    m: Map<Seq<char>, u64>,
    endpoint: Seq<char>,
    secs: u64,
    start: u64,
    now: u64,
)
    requires
        start + secs <= u64::MAX,
        start <= now,
    ensures
        cooldown_left(m.insert(endpoint, cooldown_end(start, secs)), endpoint, now) == if now
            < start + secs {
            start + secs - now
        } else {
            0
        },
{
}

/// Dropping cooldowns that have ended changes nothing for any endpoint, now or
/// later.
pub proof fn lemma_prune_keeps_cooldowns(
    m: Map<Seq<char>, u64>,
    endpoint: Seq<char>,
    pruned: u64,
    now: u64,
)
    requires
        pruned <= now,
    ensures
        cooldown_left(unexpired(m, pruned), endpoint, now) == cooldown_left(m, endpoint, now),
{
}

} // verus!
