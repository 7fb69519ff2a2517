//! Where the candidates for the tunnel's endpoint come from, and the order in
//! which they are tried.

use crate::endpoint::state;
use crate::endpoint::state::{JsonFileEndpointStore, StateView};
use crate::system;
use crate::text;
use vstd::prelude::*;

verus! {

/// The port of an endpoint that names none.
pub const DEFAULT_PORT: u16 = 2408;

// ---------------------------------------------------------------------------
// One endpoint

/// The host and the port of an endpoint, as texts: `[host]:port`, `[host]`,
/// `host:port` or `host`. Without brackets the last colon counts.
pub open spec fn endpoint_parts(t: Seq<char>) -> Option<(Seq<char>, Seq<char>)> {
    if t.len() > 0 && t[0] == '[' {
        let rest = t.skip(1);
        let i = text::first_at(rest, ']');
        let after = rest.skip(i + 1);
        if i >= rest.len() {
            None
        } else if after.len() > 0 && after[0] == ':' {
            Some((rest.take(i), after.skip(1)))
        } else {
            Some((rest.take(i), Seq::empty()))
        }
    } else {
        let i = text::last_at(t, ':');
        if i < 0 {
            Some((t, Seq::empty()))
        } else {
            Some((t.take(i), t.skip(i + 1)))
        }
    }
}

/// The port that a text names; the usual one where there is no text.
pub open spec fn port_of(p: Seq<char>) -> Option<nat> {
    if p.len() == 0 {
        Some(DEFAULT_PORT as nat)
    } else {
        match text::parsed_up_to(p, 65535) {
            Some(n) => if n >= 1 {
                Some(n)
            } else {
                None
            },
            None => None,
        }
    }
}

/// An endpoint as text; a host with a colon stands in brackets.
pub open spec fn endpoint_text(host: Seq<char>, port: nat) -> Seq<char> {
    if host.contains(':') {
        seq!['['] + host + seq![']', ':'] + text::decimal(port)
    } else {
        host + seq![':'] + text::decimal(port)
    }
}

/// An endpoint in its usual form; `None` for what is no endpoint.
pub open spec fn normalized(raw: Seq<char>) -> Option<Seq<char>> {
    match endpoint_parts(text::trimmed(raw)) {
        None => None,
        Some((host, p)) => if host.len() == 0 {
            None
        } else {
            match port_of(p) {
                None => None,
                Some(n) => Some(endpoint_text(host, n)),
            }
        },
    }
}

fn split_endpoint(t: &[char]) -> (r: Option<(Vec<char>, Vec<char>)>)
    ensures
        match r {
            Some((h, p)) => endpoint_parts(t@) == Some((h@, p@)),
            None => endpoint_parts(t@) is None,
        },
{
    let n: usize = t.len();
    if n > 0 && t[0] == '[' {
        let i: usize = text::find_char(t, 1, ']');
        let ghost rest = t@.skip(1);
        if i >= n {
            return None;
        }
        let host = text::part(t, 1, i);
        assert(host@ =~= rest.take(i - 1));
        assert(rest.skip(i as int) =~= t@.skip(i + 1));
        if i + 1 < n && t[i + 1] == ':' {
            let port = text::part(t, i + 2, n);
            assert(port@ =~= rest.skip(i as int).skip(1));
            Some((host, port))
        } else {
            let none: Vec<char> = Vec::new();
            assert(none@ =~= Seq::empty());
            Some((host, none))
        }
    } else {
        match text::find_last_char(t, ':') {
            None => {
                let host = text::part(t, 0, n);
                assert(host@ =~= t@);
                let none: Vec<char> = Vec::new();
                assert(none@ =~= Seq::empty());
                Some((host, none))
            },
            Some(i) => {
                let host = text::part(t, 0, i);
                let port = text::part(t, i + 1, n);
                assert(host@ =~= t@.take(i as int));
                assert(port@ =~= t@.skip(i + 1));
                Some((host, port))
            },
        }
    }
}

fn format_endpoint(host: &[char], port: u16) -> (out: String)
    ensures
        out@ == endpoint_text(host@, port as nat),
{
    let mut out: Vec<char> = Vec::new();
    if text::contains_char(host, ':') {
        out.push('[');
        text::push_chars(&mut out, host);
        out.push(']');
        out.push(':');
    } else {
        text::push_chars(&mut out, host);
        out.push(':');
    }
    text::push_decimal(&mut out, port as u64);
    assert(out@ =~= endpoint_text(host@, port as nat));
    text::string_of(out.as_slice())
}

fn normalize(raw: &[char]) -> (r: Option<String>)
    ensures
        match r {
            Some(s) => normalized(raw@) == Some(s@),
            None => normalized(raw@) is None,
        },
{
    let t = text::trim(raw);
    match split_endpoint(t.as_slice()) {
        None => None,
        Some((host, p)) => {
            if host.len() == 0 {
                return None;
            }
            if p.len() == 0 {
                return Some(format_endpoint(host.as_slice(), DEFAULT_PORT));
            }
            match text::parse_up_to(p.as_slice(), 65535) {
                None => None,
                Some(n) => if n >= 1 {
                    Some(format_endpoint(host.as_slice(), n as u16))
                } else {
                    None
                },
            }
        },
    }
}

/// Brings an endpoint into its usual form: `host:port`, or `[host]:port` for a
/// host with colons.
pub fn normalize_endpoint(raw: &str) -> (r: Option<String>)
    ensures
        match r {
            Some(s) => normalized(raw@) == Some(s@),
            None => normalized(raw@) is None,
        },
{
    let chars = text::chars_of(raw);
    normalize(chars.as_slice())
}

/// A host that stands in an endpoint's text as it is: in brackets it holds no
/// closing one; without them it begins with neither white space nor a bracket.
pub open spec fn is_plain_host(host: Seq<char>) -> bool {
    &&& host.len() > 0
    &&& if host.contains(':') {
        !host.contains(']')
    } else {
        !text::is_space(host[0]) && host[0] != '['
    }
}

/// Bringing an endpoint that is in its usual form into that form changes
/// nothing.
pub proof fn lemma_normalized_again(host: Seq<char>, port: nat)
    requires
        is_plain_host(host),
        1 <= port <= 65535,
    ensures
        normalized(endpoint_text(host, port)) == Some(endpoint_text(host, port)),
{
    let d = text::decimal(port);
    let t = endpoint_text(host, port);
    text::lemma_decimal(port);
    text::lemma_decimal_read_back(port);
    assert(t.last() == d.last());
    assert(text::is_digit(d[d.len() - 1]));
    if host.contains(':') {
        assert(t[0] == '[');
        text::lemma_trimmed_unchanged(t);
        let rest = t.skip(1);
        let n = host.len() as int;
        assert forall|k: int| 0 <= k < n implies rest[k] != ']' by {
            assert(rest[k] == host[k]);
        }
        assert(rest[n] == ']');
        text::lemma_first_at_is(rest, ']', n);
        assert(rest.take(n) =~= host);
        let after = rest.skip(n + 1);
        assert(after[0] == ':');
        assert(after.skip(1) =~= d);
    } else {
        assert(t[0] == host[0]);
        text::lemma_trimmed_unchanged(t);
        let n = host.len() as int;
        assert(t[n] == ':');
        text::lemma_last_at(t, ':');
        let i = text::last_at(t, ':');
        if i > n {
            assert(t[i] == d[i - n - 1]);
            assert(text::is_digit(d[i - n - 1]));
        }
        assert(i == n);
        assert(t.take(n) =~= host);
        assert(t.skip(n + 1) =~= d);
    }
}

// ---------------------------------------------------------------------------
// Lists of endpoints

/// The list without what has occurred before.
pub open spec fn deduped(s: Seq<Seq<char>>) -> Seq<Seq<char>>
    decreases s.len(),
{
    if s.len() == 0 {
        Seq::empty()
    } else {
        let d = deduped(s.drop_last());
        if d.contains(s.last()) {
            d
        } else {
            d.push(s.last())
        }
    }
}

/// Whether a text is in a list.
pub fn list_has(list: &Vec<String>, s: &str) -> (r: bool)
    ensures
        r == text::texts(list@).contains(s@),
{
    let mut i: usize = 0;
    while i < list.len()
        invariant
            i <= list@.len(),
            forall|k: int| 0 <= k < i ==> #[trigger] text::texts(list@)[k] != s@,
        decreases list@.len() - i,
    {
        if text::same_text(list[i].as_str(), s) {
            assert(text::texts(list@)[i as int] == s@);
            return true;
        }
        i += 1;
    }
    false
}

/// Drops from a list what has occurred before.
pub fn dedup_preserve_order(items: &Vec<String>) -> (out: Vec<String>)
    ensures
        text::texts(out@) == deduped(text::texts(items@)),
{
    let mut out: Vec<String> = Vec::new();
    let ghost all = text::texts(items@);
    let mut i: usize = 0;
    assert(all.take(0) =~= Seq::empty());
    assert(text::texts(out@) =~= deduped(all.take(0)));
    while i < items.len()
        invariant
            i <= items@.len(),
            all == text::texts(items@),
            text::texts(out@) == deduped(all.take(i as int)),
        decreases items@.len() - i,
    {
        assert(all.take(i + 1).drop_last() =~= all.take(i as int));
        assert(all.take(i + 1).last() == items@[i as int]@);
        if !list_has(&out, items[i].as_str()) {
            let ghost before = text::texts(out@);
            out.push(items[i].as_str().to_owned());
            assert(text::texts(out@) =~= before.push(items@[i as int]@));
        }
        i += 1;
    }
    assert(all.take(i as int) =~= all);
    out
}

/// A list without duplicates has each thing once, and it has what the list had.
pub proof fn lemma_deduped(s: Seq<Seq<char>>)
    ensures
        deduped(s).no_duplicates(),
        forall|e: Seq<char>| #[trigger] deduped(s).contains(e) <==> s.contains(e),
        deduped(s).len() <= s.len(),
        s.len() > 0 ==> deduped(s).len() > 0 && deduped(s)[0] == s[0],
    decreases s.len(),
{
    if s.len() > 0 {
        let p = s.drop_last();
        let d = deduped(p);
        lemma_deduped(p);
        let r = deduped(s);
        if s.len() > 1 {
            assert(p[0] == s[0]);
        } else {
            assert(p =~= Seq::empty());
        }
        assert forall|e: Seq<char>| #[trigger] r.contains(e) <==> s.contains(e) by {
            if r.contains(e) {
                let i = choose|i: int| 0 <= i < r.len() && r[i] == e;
                if i < d.len() {
                    assert(d[i] == e);
                    assert(d.contains(e));
                    assert(p.contains(e));
                    let j = choose|j: int| 0 <= j < p.len() && p[j] == e;
                    assert(s[j] == e);
                } else {
                    assert(s[s.len() - 1] == e);
                }
            }
            if s.contains(e) {
                let j = choose|j: int| 0 <= j < s.len() && s[j] == e;
                if j < p.len() {
                    assert(p[j] == e);
                    assert(p.contains(e));
                    assert(d.contains(e));
                    let i = choose|i: int| 0 <= i < d.len() && d[i] == e;
                    assert(r[i] == e);
                } else if !d.contains(e) {
                    assert(r[d.len() as int] == e);
                }
            }
        }
    }
}

/// The endpoints that a list of texts names, in their usual form.
pub open spec fn all_normalized(s: Seq<Seq<char>>) -> Seq<Seq<char>>
    decreases s.len(),
{
    if s.len() == 0 {
        Seq::empty()
    } else {
        match normalized(s.last()) {
            Some(e) => all_normalized(s.drop_last()).push(e),
            None => all_normalized(s.drop_last()),
        }
    }
}

/// The candidates for which nothing has to be configured.
pub open spec fn builtin_candidates() -> Seq<Seq<char>> {
    seq![
        "162.159.193.5:2408"@,
        "162.159.193.9:2408"@,
        "162.159.193.8:2408"@,
        "162.159.193.3:2408"@,
        "162.159.193.7:2408"@,
        "162.159.193.47:2408"@,
        "162.159.192.1:2408"@,
        "162.159.195.1:2408"@,
    ]
}

fn builtin() -> (out: Vec<String>)
    ensures
        text::texts(out@) == builtin_candidates(),
{
    let mut out: Vec<String> = Vec::new();
    out.push("162.159.193.5:2408".to_owned());
    out.push("162.159.193.9:2408".to_owned());
    out.push("162.159.193.8:2408".to_owned());
    out.push("162.159.193.3:2408".to_owned());
    out.push("162.159.193.7:2408".to_owned());
    out.push("162.159.193.47:2408".to_owned());
    out.push("162.159.192.1:2408".to_owned());
    out.push("162.159.195.1:2408".to_owned());
    assert(text::texts(out@) =~= builtin_candidates());
    out
}

/// The candidates: those of a list with commas, each once; where it names none,
/// the built-in ones.
pub open spec fn pool_of(csv: Seq<char>) -> Seq<Seq<char>> {
    let manual = deduped(all_normalized(text::split_at_char(csv, ',')));
    if manual.len() == 0 {
        builtin_candidates()
    } else {
        manual
    }
}

/// The candidates that a configured list stands for.
pub fn candidate_pool(manual_csv: &str) -> (out: Vec<String>)
    ensures
        text::texts(out@) == pool_of(manual_csv@),
{
    let chars = text::chars_of(manual_csv);
    let parts = text::split(chars.as_slice(), ',');
    let ghost all = text::pieces(parts@);
    let mut found: Vec<String> = Vec::new();
    let mut i: usize = 0;
    assert(all.take(0) =~= Seq::empty());
    assert(text::texts(found@) =~= Seq::empty());
    while i < parts.len()
        invariant
            i <= parts@.len(),
            all == text::pieces(parts@),
            text::texts(found@) == all_normalized(all.take(i as int)),
        decreases parts@.len() - i,
    {
        assert(all.take(i + 1).drop_last() =~= all.take(i as int));
        assert(all.take(i + 1).last() == parts@[i as int]@);
        if let Some(e) = normalize(parts[i].as_slice()) {
            let ghost before = text::texts(found@);
            let ghost one = e@;
            found.push(e);
            assert(text::texts(found@) =~= before.push(one));
        }
        i += 1;
    }
    assert(all.take(i as int) =~= all);
    let manual = dedup_preserve_order(&found);
    assert(text::texts(manual@).len() == manual@.len());
    if manual.len() == 0 {
        builtin()
    } else {
        manual
    }
}

/// There is always a candidate, and none is there twice.
pub proof fn lemma_pool(csv: Seq<char>)
    ensures
        pool_of(csv).len() > 0,
        pool_of(csv).no_duplicates(),
{
    lemma_deduped(all_normalized(text::split_at_char(csv, ',')));
    let b = builtin_candidates();
    assert forall|i: int, j: int| 0 <= i < j < b.len() implies b[i] != b[j] by {
        reveal_strlit("162.159.193.5:2408");
        reveal_strlit("162.159.193.9:2408");
        reveal_strlit("162.159.193.8:2408");
        reveal_strlit("162.159.193.3:2408");
        reveal_strlit("162.159.193.7:2408");
        reveal_strlit("162.159.193.47:2408");
        reveal_strlit("162.159.192.1:2408");
        reveal_strlit("162.159.195.1:2408");
        assert(b[i][10] != b[j][10] || b[i][12] != b[j][12] || b[i][13] != b[j][13]);
    }
}

// ---------------------------------------------------------------------------
// The plan

/// The endpoints of a list that are cooling down at `now`, or those that are
/// not, in order.
pub open spec fn with_cooling(
    s: Seq<Seq<char>>,
    m: Map<Seq<char>, u64>,
    now: u64,
    cooling: bool,
) -> Seq<Seq<char>>
    decreases s.len(),
{
    if s.len() == 0 {
        Seq::empty()
    } else if (state::cooldown_left(m, s.last(), now) > 0) == cooling {
        with_cooling(s.drop_last(), m, now, cooling).push(s.last())
    } else {
        with_cooling(s.drop_last(), m, now, cooling)
    }
}

/// The endpoint that worked last, and then the pool; each once.
pub open spec fn merged(pool: Seq<Seq<char>>, last_good: Seq<char>) -> Seq<Seq<char>> {
    if last_good.len() == 0 {
        deduped(pool)
    } else {
        deduped(seq![last_good] + pool)
    }
}

/// The order in which candidates are tried: first the endpoint that worked last,
/// then the pool in its order; but those that are cooling down come after all
/// others.
pub open spec fn plan_of(pool: Seq<Seq<char>>, s: StateView, now: u64) -> Seq<Seq<char>> {
    let all = merged(pool, s.last_good);
    with_cooling(all, s.cooldowns, now, false) + with_cooling(all, s.cooldowns, now, true)
}

fn select(list: &Vec<String>, store: &JsonFileEndpointStore, now: u64, cooling: bool) -> (out: Vec<
    String,
>)
    requires
        store.wf(),
    ensures
        text::texts(out@) == with_cooling(text::texts(list@), store.cooldowns(), now, cooling),
{
    let mut out: Vec<String> = Vec::new();
    let ghost all = text::texts(list@);
    let mut i: usize = 0;
    assert(all.take(0) =~= Seq::empty());
    assert(text::texts(out@) =~= Seq::empty());
    while i < list.len()
        invariant
            i <= list@.len(),
            store.wf(),
            all == text::texts(list@),
            text::texts(out@) == with_cooling(
                all.take(i as int),
                store.cooldowns(),
                now,
                cooling,
            ),
        decreases list@.len() - i,
    {
        assert(all.take(i + 1).drop_last() =~= all.take(i as int));
        assert(all.take(i + 1).last() == list@[i as int]@);
        if (store.remaining_at(list[i].as_str(), now) > 0) == cooling {
            let ghost before = text::texts(out@);
            out.push(list[i].as_str().to_owned());
            assert(text::texts(out@) =~= before.push(list@[i as int]@));
        }
        i += 1;
    }
    assert(all.take(i as int) =~= all);
    out
}

/// The order in which candidates are tried at `now`.
pub fn plan_candidates_at(pool: Vec<String>, store: &JsonFileEndpointStore, now: u64) -> (out: Vec<
    String,
>)
    requires
        store.wf(),
    ensures
        text::texts(out@) == plan_of(text::texts(pool@), store.state@, now),
{
    let mut list: Vec<String> = Vec::new();
    let mut i: usize = 0;
    if let Some(good) = store.last_good() {
        list.push(good);
    }
    let ghost first = text::texts(list@);
    let ghost all = text::texts(pool@);
    assert(first + all.take(0) =~= first);
    while i < pool.len()
        invariant
            i <= pool@.len(),
            all == text::texts(pool@),
            text::texts(list@) == first + all.take(i as int),
        decreases pool@.len() - i,
    {
        let ghost before = text::texts(list@);
        list.push(pool[i].as_str().to_owned());
        assert(text::texts(list@) =~= before.push(pool@[i as int]@));
        assert(first + all.take(i + 1) =~= before.push(pool@[i as int]@));
        i += 1;
    }
    assert(all.take(i as int) =~= all);
    proof {
        if store.state@.last_good.len() == 0 {
            assert(first + all =~= all);
        } else {
            assert(first =~= seq![store.state@.last_good]);
        }
    }
    let list = dedup_preserve_order(&list);
    let mut out = select(&list, store, now, false);
    let mut cooling = select(&list, store, now, true);
    let ghost a = out@;
    let ghost b = cooling@;
    out.append(&mut cooling);
    assert(text::texts(out@) =~= text::texts(a) + text::texts(b));
    out
}

/// The order in which candidates are tried.
pub fn plan_candidates(pool: Vec<String>, store: &JsonFileEndpointStore) -> (out: Vec<String>)
    requires
        store.wf(),
    ensures
        exists|now: u64|
            text::texts(out@) == #[trigger] plan_of(text::texts(pool@), store.state@, now),
{
    let now: u64 = system::now_unix();
    plan_candidates_at(pool, store, now)
}

proof fn lemma_with_cooling(s: Seq<Seq<char>>, m: Map<Seq<char>, u64>, now: u64, cooling: bool)
    requires
        s.no_duplicates(),
    ensures
        with_cooling(s, m, now, cooling).no_duplicates(),
        forall|e: Seq<char>| #[trigger]
            with_cooling(s, m, now, cooling).contains(e) <==> s.contains(e) && (state::cooldown_left(
                m,
                e,
                now,
            ) > 0) == cooling,
    decreases s.len(),
{
    if s.len() > 0 {
        let p = s.drop_last();
        assert forall|i: int, j: int| 0 <= i < p.len() && 0 <= j < p.len() && i != j implies p[i]
            != p[j] by {
            assert(p[i] == s[i] && p[j] == s[j]);
        }
        lemma_with_cooling(p, m, now, cooling);
        let d = with_cooling(p, m, now, cooling);
        let r = with_cooling(s, m, now, cooling);
        let x = s.last();
        assert(!p.contains(x)) by {
            if p.contains(x) {
                let i = choose|i: int| 0 <= i < p.len() && p[i] == x;
                assert(s[i] == s[s.len() - 1]);
            }
        }
        assert forall|e: Seq<char>| #[trigger] r.contains(e) <==> s.contains(e) && (
        state::cooldown_left(m, e, now) > 0) == cooling by {
            if r.contains(e) {
                let i = choose|i: int| 0 <= i < r.len() && r[i] == e;
                if i < d.len() {
                    assert(d[i] == e);
                    assert(d.contains(e));
                    let k = choose|k: int| 0 <= k < p.len() && p[k] == e;
                    assert(s[k] == e);
                } else {
                    assert(s[s.len() - 1] == e);
                }
            }
            if s.contains(e) && (state::cooldown_left(m, e, now) > 0) == cooling {
                let k = choose|k: int| 0 <= k < s.len() && s[k] == e;
                if k < p.len() {
                    assert(p[k] == e);
                    assert(d.contains(e));
                    let i = choose|i: int| 0 <= i < d.len() && d[i] == e;
                    assert(r[i] == e);
                } else {
                    assert(r[d.len() as int] == e);
                }
            }
        }
        assert forall|i: int, j: int| 0 <= i < r.len() && 0 <= j < r.len() && i != j implies r[i]
            != r[j] by {
            if i < d.len() && j < d.len() {
                assert(d[i] != d[j]);
            } else if i < d.len() {
                assert(d.contains(d[i]));
                assert(r[j] == x);
            } else if j < d.len() {
                assert(d.contains(d[j]));
                assert(r[i] == x);
            }
        }
    }
}

/// A plan tries each candidate once: the pool's, and the one that worked last.
/// No endpoint that is cooling down comes before one that is not.
pub proof fn lemma_plan(pool: Seq<Seq<char>>, s: StateView, now: u64)
    ensures
        plan_of(pool, s, now).no_duplicates(),
        forall|e: Seq<char>| #[trigger]
            plan_of(pool, s, now).contains(e) <==> pool.contains(e) || (e == s.last_good
                && e.len() > 0),
        forall|i: int, j: int|
            0 <= i < j < plan_of(pool, s, now).len() && state::cooldown_left(
                s.cooldowns,
                #[trigger] plan_of(pool, s, now)[i],
                now,
            ) > 0 ==> state::cooldown_left(
                s.cooldowns,
                #[trigger] plan_of(pool, s, now)[j],
                now,
            ) > 0,
{
    let all = merged(pool, s.last_good);
    let full = if s.last_good.len() == 0 {
        pool
    } else {
        seq![s.last_good] + pool
    };
    lemma_deduped(full);
    let a = with_cooling(all, s.cooldowns, now, false);
    let b = with_cooling(all, s.cooldowns, now, true);
    lemma_with_cooling(all, s.cooldowns, now, false);
    lemma_with_cooling(all, s.cooldowns, now, true);
    let r = plan_of(pool, s, now);
    assert forall|i: int, j: int| 0 <= i < r.len() && 0 <= j < r.len() && i != j implies r[i]
        != r[j] by {
        if i < a.len() && j < a.len() {
            assert(a[i] != a[j]);
        } else if i >= a.len() && j >= a.len() {
            assert(b[i - a.len()] != b[j - a.len()]);
        } else if i < a.len() {
            assert(a.contains(a[i]));
            assert(b.contains(b[j - a.len()]));
        } else {
            assert(a.contains(a[j]));
            assert(b.contains(b[i - a.len()]));
        }
    }
    assert forall|e: Seq<char>| #[trigger] r.contains(e) <==> pool.contains(e) || (e == s.last_good
        && e.len() > 0) by {
        assert(full.contains(e) <==> pool.contains(e) || (e == s.last_good && e.len() > 0)) by {
            if full.contains(e) {
                let i = choose|i: int| 0 <= i < full.len() && full[i] == e;
                if s.last_good.len() > 0 && i > 0 {
                    assert(pool[i - 1] == e);
                }
            }
            if pool.contains(e) {
                let i = choose|i: int| 0 <= i < pool.len() && pool[i] == e;
                if s.last_good.len() > 0 {
                    assert(full[i + 1] == e);
                }
            }
            if e == s.last_good && e.len() > 0 {
                assert(full[0] == e);
            }
        }
        if r.contains(e) {
            let i = choose|i: int| 0 <= i < r.len() && r[i] == e;
            if i < a.len() {
                assert(a[i] == e);
                assert(a.contains(e));
            } else {
                assert(b[i - a.len()] == e);
                assert(b.contains(e));
            }
        }
        if all.contains(e) {
            if a.contains(e) {
                let i = choose|i: int| 0 <= i < a.len() && a[i] == e;
                assert(r[i] == e);
            } else {
                assert(b.contains(e));
                let i = choose|i: int| 0 <= i < b.len() && b[i] == e;
                assert(r[i + a.len()] == e);
            }
        }
    }
    assert forall|i: int, j: int|
        0 <= i < j < r.len() && state::cooldown_left(s.cooldowns, #[trigger] r[i], now)
            > 0 implies state::cooldown_left(s.cooldowns, #[trigger] r[j], now) > 0 by {
        if i < a.len() {
            assert(a.contains(a[i]));
        }
        assert(b.contains(b[j - a.len()]));
    }
}

proof fn lemma_first_ready(s: Seq<Seq<char>>, m: Map<Seq<char>, u64>, now: u64)
    requires
        s.len() > 0,
        state::cooldown_left(m, s[0], now) == 0,
    ensures
        with_cooling(s, m, now, false).len() > 0,
        with_cooling(s, m, now, false)[0] == s[0],
    decreases s.len(),
{
    if s.len() > 1 {
        lemma_first_ready(s.drop_last(), m, now);
    } else {
        assert(with_cooling(s.drop_last(), m, now, false) =~= Seq::empty());
    }
}

/// The endpoint that worked last is tried first, unless it is cooling down.
pub proof fn lemma_last_good_first(pool: Seq<Seq<char>>, s: StateView, now: u64)
    requires
        s.last_good.len() > 0,
        state::cooldown_left(s.cooldowns, s.last_good, now) == 0,
    ensures
        plan_of(pool, s, now).len() > 0,
        plan_of(pool, s, now)[0] == s.last_good,
{
    lemma_deduped(seq![s.last_good] + pool);
    lemma_first_ready(merged(pool, s.last_good), s.cooldowns, now);
}

} // verus!
