//! Endpoints of the tunnel: how they are written, in which order they are tried, and
//! what is remembered of them.

use crate::endpoint::source;
use crate::endpoint::state;
use crate::endpoint::state::StateView;
use crate::laws::texts;
use crate::text;
use vstd::prelude::*;

verus! {

/// A host without colons, brackets at its beginning and white space at its ends.
pub open spec fn is_simple_host(host: Seq<char>) -> bool {
    &&& host.len() > 0
    &&& !host.contains(':')
    &&& host[0] != '['
    &&& !texts::white_space().contains(host[0])
    &&& !texts::white_space().contains(host.last())
}

/// An endpoint is a host and a port; without a port it is on 2408. White space around
/// it does not count.
pub proof fn lemma_simple_endpoint(
    before: Seq<char>,
    host: Seq<char>,
    port: nat,
    after: Seq<char>,
)
    requires
        texts::is_blank(before),
        texts::is_blank(after),
        is_simple_host(host),
    ensures
        source::normalized(before + host + after) == Some(host + seq![':', '2', '4', '0', '8']),
        source::normalized(before + (host + seq![':']) + after) == Some(
            host + seq![':', '2', '4', '0', '8'],
        ),
        1 <= port <= 65535 ==> source::normalized(
            before + (host + seq![':'] + text::decimal(port)) + after,
        ) == Some(host + seq![':'] + text::decimal(port)),
        port == 0 || port > 65535 ==> source::normalized(
            before + (host + seq![':'] + text::decimal(port)) + after,
        ) is None,
{
    let d = text::decimal(port);
    let t = host + seq![':'] + d;
    text::lemma_decimal(port);
    text::lemma_decimal_read_back(port);
    assert(text::is_digit(d[d.len() - 1]));
    texts::lemma_white_space(d.last());
    assert(t[0] == host[0] && t.last() == d.last());
    assert(!texts::white_space().contains(d.last()));
    texts::lemma_trimmed(before, host, after);
    texts::lemma_trimmed(before, t, after);
    text::lemma_last_at(host, ':');
    if text::last_at(host, ':') >= 0 {
        assert(host.contains(host[text::last_at(host, ':')]));
    }
    lemma_last_colon(host, d);
    let u = host + seq![':'];
    texts::lemma_white_space(':');
    texts::lemma_trimmed(before, u, after);
    assert(u =~= host + seq![':'] + Seq::<char>::empty());
    lemma_last_colon(host, Seq::empty());
    lemma_usual_port();
    assert(host + seq![':'] + text::decimal(2408) =~= host + seq![':', '2', '4', '0', '8']);
}

proof fn lemma_usual_port()
    ensures
        text::decimal(2408) == seq!['2', '4', '0', '8'],
{
    reveal_with_fuel(text::decimal, 5);
    assert(text::decimal(2408) =~= seq!['2', '4', '0', '8']);
}

proof fn lemma_last_colon(host: Seq<char>, d: Seq<char>)
    requires
        !host.contains(':'),
        text::all_digits(d),
    ensures
        ({
            let t = host + seq![':'] + d;
            let i = text::last_at(t, ':');
            i == host.len() && t.take(i) == host && t.skip(i + 1) == d
        }),
{
    let t = host + seq![':'] + d;
    let n = host.len() as int;
    text::lemma_last_at(t, ':');
    let i = text::last_at(t, ':');
    assert(t[n] == ':');
    if i > n {
        assert(t[i] == d[i - n - 1]);
        assert(text::is_digit(d[i - n - 1]));
    }
    assert(t.take(n) =~= host);
    assert(t.skip(n + 1) =~= d);
}

/// A host in brackets may hold colons; the brackets stay where it does and go where it
/// does not. Without a port it is on 2408.
pub proof fn lemma_bracketed_endpoint(
    before: Seq<char>,
    host: Seq<char>,
    port: nat,
    after: Seq<char>,
)
    requires
        texts::is_blank(before),
        texts::is_blank(after),
        host.len() > 0,
        !host.contains(']'),
    ensures
        ({
            let inner = seq!['['] + host + seq![']'];
            let shown = if host.contains(':') {
                inner
            } else {
                host
            };
            &&& source::normalized(before + inner + after) == Some(
                shown + seq![':', '2', '4', '0', '8'],
            )
            &&& 1 <= port <= 65535 ==> source::normalized(
                before + (inner + seq![':'] + text::decimal(port)) + after,
            ) == Some(shown + seq![':'] + text::decimal(port))
            &&& port == 0 || port > 65535 ==> source::normalized(
                before + (inner + seq![':'] + text::decimal(port)) + after,
            ) is None
        }),
{
    let inner = seq!['['] + host + seq![']'];
    let d = text::decimal(port);
    let t = inner + seq![':'] + d;
    text::lemma_decimal(port);
    text::lemma_decimal_read_back(port);
    assert(text::is_digit(d[d.len() - 1]));
    texts::lemma_white_space(d.last());
    texts::lemma_white_space('[');
    texts::lemma_white_space(']');
    assert(t[0] == '[' && t.last() == d.last() && inner[0] == '[' && inner.last() == ']');
    texts::lemma_trimmed(before, inner, after);
    texts::lemma_trimmed(before, t, after);
    lemma_closing(host, Seq::empty());
    lemma_closing(host, seq![':'] + d);
    assert(inner =~= seq!['['] + host + seq![']'] + Seq::<char>::empty());
    assert(t =~= seq!['['] + host + seq![']'] + (seq![':'] + d));
    assert((seq![':'] + d).skip(1) =~= d);
    lemma_usual_port();
    let n: nat = 2408;
    assert(source::endpoint_text(host, n) =~= (if host.contains(':') {
        inner
    } else {
        host
    }) + seq![':', '2', '4', '0', '8']);
    assert(source::endpoint_text(host, port) =~= (if host.contains(':') {
        inner
    } else {
        host
    }) + seq![':'] + d);
}

proof fn lemma_closing(host: Seq<char>, more: Seq<char>)
    requires
        !host.contains(']'),
    ensures
        ({
            let t = seq!['['] + host + seq![']'] + more;
            let rest = t.skip(1);
            let i = text::first_at(rest, ']');
            &&& t[0] == '['
            &&& i == host.len()
            &&& i < rest.len()
            &&& rest.take(i) == host
            &&& rest.skip(i + 1) == more
        }),
{
    let t = seq!['['] + host + seq![']'] + more;
    let rest = t.skip(1);
    let n = host.len() as int;
    assert forall|k: int| 0 <= k < n implies rest[k] != ']' by {
        assert(rest[k] == host[k]);
        assert(host.contains(host[k]));
    }
    assert(rest[n] == ']');
    text::lemma_first_at_is(rest, ']', n);
    assert(rest.take(n) =~= host);
    assert(rest.skip(n + 1) =~= more);
}

/// Without brackets the port is what follows the last colon: a host may hold colons, and
/// gets its brackets.
pub proof fn lemma_colons_in_host(host: Seq<char>, port: nat)
    requires
        host.len() > 0,
        host.contains(':'),
        host[0] != '[',
        !texts::white_space().contains(host[0]),
        1 <= port <= 65535,
    ensures
        source::normalized(host + seq![':'] + text::decimal(port)) == Some(
            seq!['['] + host + seq![']', ':'] + text::decimal(port),
        ),
{
    let d = text::decimal(port);
    let t = host + seq![':'] + d;
    text::lemma_decimal(port);
    text::lemma_decimal_read_back(port);
    assert(text::is_digit(d[d.len() - 1]));
    texts::lemma_white_space(host[0]);
    assert(t[0] == host[0] && t.last() == d.last());
    text::lemma_trimmed_unchanged(t);
    assert(!d.contains(':')) by {
        if d.contains(':') {
            let k = choose|k: int| 0 <= k < d.len() && d[k] == ':';
            assert(text::is_digit(d[k]));
        }
    }
    lemma_colon_before(host, d);
}

/// What has no host, or a port that is no number, is no endpoint.
pub proof fn lemma_no_endpoint(host: Seq<char>, port: Seq<char>, i: int)
    requires
        is_simple_host(host),
        !port.contains(':'),
        0 < i < port.len(),
        !('0' <= port[i] <= '9'),
        !texts::white_space().contains(port.last()),
    ensures
        source::normalized(Seq::empty()) is None,
        source::normalized(host + seq![':'] + port) is None,
        source::normalized(seq![':'] + port) is None,
{
    let none = Seq::<char>::empty();
    text::lemma_trimmed_unchanged(none);
    assert(source::endpoint_parts(none) is Some);
    text::lemma_last_at(none, ':');
    assert(none.take(0) =~= none);
    let t = host + seq![':'] + port;
    let u = seq![':'] + port;
    texts::lemma_white_space(host[0]);
    texts::lemma_white_space(port.last());
    texts::lemma_white_space(':');
    assert(t[0] == host[0] && t.last() == port.last() && u[0] == ':' && u.last() == port.last());
    text::lemma_trimmed_unchanged(t);
    text::lemma_trimmed_unchanged(u);
    lemma_colon_before(host, port);
    lemma_colon_before(none, port);
    assert(none + seq![':'] + port =~= u);
    texts::lemma_no_number(port, i, 65535);
}

proof fn lemma_colon_before(host: Seq<char>, port: Seq<char>)
    requires
        !port.contains(':'),
    ensures
        ({
            let t = host + seq![':'] + port;
            let i = text::last_at(t, ':');
            i == host.len() && t.take(i) == host && t.skip(i + 1) == port
        }),
{
    let t = host + seq![':'] + port;
    let n = host.len() as int;
    text::lemma_last_at(t, ':');
    let i = text::last_at(t, ':');
    assert(t[n] == ':');
    if i > n {
        assert(t[i] == port[i - n - 1]);
        assert(port.contains(port[i - n - 1]));
    }
    assert(t.take(n) =~= host);
    assert(t.skip(n + 1) =~= port);
}

// ---------------------------------------------------------------------------
// Lists

/// What occurs for the first time stays in the order that it came in.
pub proof fn lemma_first_occurrences(s: Seq<Seq<char>>, i: int, j: int)
    requires
        0 <= i < j < s.len(),
        forall|k: int| 0 <= k < j ==> s[k] != s[j],
    ensures
        exists|p: int, q: int|
            0 <= p < q < source::deduped(s).len() && #[trigger] source::deduped(s)[p] == s[i]
                && #[trigger] source::deduped(s)[q] == s[j],
    decreases s.len(),
{
    let front = s.drop_last();
    let d = source::deduped(front);
    let r = source::deduped(s);
    source::lemma_deduped(front);
    if j == s.len() - 1 {
        assert(front[i] == s[i]);
        assert(front.contains(s[i]));
        assert(d.contains(s[i]));
        let p = choose|p: int| 0 <= p < d.len() && d[p] == s[i];
        assert(!d.contains(s[j])) by {
            if front.contains(s[j]) {
                let k = choose|k: int| 0 <= k < front.len() && front[k] == s[j];
                assert(s[k] == s[j]);
            }
        }
        assert(r[p] == s[i] && r[d.len() as int] == s[j]);
    } else {
        assert forall|k: int| 0 <= k < j implies front[k] != front[j] by {
            assert(front[k] == s[k] && front[j] == s[j]);
        }
        lemma_first_occurrences(front, i, j);
        let (p, q) = choose|p: int, q: int|
            0 <= p < q < d.len() && #[trigger] d[p] == front[i] && #[trigger] d[q] == front[j];
        assert(r[p] == s[i] && r[q] == s[j]);
    }
}

/// The texts with commas between them.
pub open spec fn with_commas(parts: Seq<Seq<char>>) -> Seq<char>
    decreases parts.len(),
{
    if parts.len() == 0 {
        Seq::empty()
    } else if parts.len() == 1 {
        parts[0]
    } else {
        parts[0] + seq![','] + with_commas(parts.drop_first())
    }
}

proof fn lemma_commas(parts: Seq<Seq<char>>)
    requires
        parts.len() > 0,
        forall|i: int| 0 <= i < parts.len() ==> !(#[trigger] parts[i]).contains(','),
    ensures
        text::split_at_char(with_commas(parts), ',') == parts,
    decreases parts.len(),
{
    assert(!parts[0].contains(','));
    if parts.len() == 1 {
        crate::addr::lemma_split_one(parts[0], ',');
        assert(parts =~= seq![parts[0]]);
    } else {
        let rest = parts.drop_first();
        assert forall|i: int| 0 <= i < rest.len() implies !(#[trigger] rest[i]).contains(',') by {
            assert(rest[i] == parts[i + 1]);
        }
        lemma_commas(rest);
        crate::addr::lemma_split_cons(parts[0], ',', with_commas(rest));
        assert(parts =~= seq![parts[0]] + rest);
    }
}

proof fn lemma_all_normalized(parts: Seq<Seq<char>>, e: Seq<char>)
    ensures
        source::all_normalized(parts).contains(e) <==> exists|i: int|
            0 <= i < parts.len() && source::normalized(#[trigger] parts[i]) == Some(e),
    decreases parts.len(),
{
    let all = source::all_normalized(parts);
    if parts.len() > 0 {
        let front = parts.drop_last();
        let n = parts.len() - 1;
        lemma_all_normalized(front, e);
        let before = source::all_normalized(front);
        if all.contains(e) {
            let k = choose|k: int| 0 <= k < all.len() && all[k] == e;
            if k < before.len() {
                assert(before[k] == e);
                assert(before.contains(e));
                let i = choose|i: int|
                    0 <= i < front.len() && source::normalized(#[trigger] front[i]) == Some(e);
                assert(parts[i] == front[i]);
            } else {
                assert(source::normalized(parts[n]) == Some(e));
            }
        }
        if exists|i: int| 0 <= i < parts.len() && source::normalized(#[trigger] parts[i]) == Some(
            e,
        ) {
            let i = choose|i: int|
                0 <= i < parts.len() && source::normalized(#[trigger] parts[i]) == Some(e);
            if i < n {
                assert(front[i] == parts[i]);
                assert(before.contains(e));
                let k = choose|k: int| 0 <= k < before.len() && before[k] == e;
                assert(all[k] == e);
            } else {
                assert(all[before.len() as int] == e);
            }
        }
    }
}

/// The candidates are the endpoints of the configured list, whatever stands between
/// them that is no endpoint; the built-in ones count only where the list has none.
pub proof fn lemma_pool_members(parts: Seq<Seq<char>>, e: Seq<char>, i: int)
    requires
        parts.len() > 0,
        forall|k: int| 0 <= k < parts.len() ==> !(#[trigger] parts[k]).contains(','),
    ensures
        0 <= i < parts.len() && source::normalized(parts[i]) is Some ==> (source::pool_of(
            with_commas(parts),
        ).contains(e) <==> exists|k: int|
            0 <= k < parts.len() && source::normalized(#[trigger] parts[k]) == Some(e)),
        (forall|k: int| 0 <= k < parts.len() ==> source::normalized(#[trigger] parts[k]) is None)
            ==> source::pool_of(with_commas(parts)) == seq![
            "162.159.193.5:2408"@,
            "162.159.193.9:2408"@,
            "162.159.193.8:2408"@,
            "162.159.193.3:2408"@,
            "162.159.193.7:2408"@,
            "162.159.193.47:2408"@,
            "162.159.192.1:2408"@,
            "162.159.195.1:2408"@,
        ],
{
    lemma_commas(parts);
    lemma_all_normalized(parts, e);
    let all = source::all_normalized(parts);
    source::lemma_deduped(all);
    if 0 <= i < parts.len() && source::normalized(parts[i]) is Some {
        let x = source::normalized(parts[i])->Some_0;
        lemma_all_normalized(parts, x);
        assert(all.contains(x));
        assert(source::deduped(all).contains(x));
    }
    if forall|k: int| 0 <= k < parts.len() ==> source::normalized(#[trigger] parts[k]) is None {
        if all.len() > 0 {
            lemma_all_normalized(parts, all[0]);
            assert(all.contains(all[0]));
        }
        assert(source::deduped(all).len() == 0);
    }
}

/// Endpoints in their usual form that are all different are the candidates, in the
/// order of the list.
pub proof fn lemma_pool_order(parts: Seq<Seq<char>>)
    requires
        parts.len() > 0,
        parts.no_duplicates(),
        forall|k: int| 0 <= k < parts.len() ==> !(#[trigger] parts[k]).contains(','),
        forall|k: int|
            0 <= k < parts.len() ==> source::normalized(#[trigger] parts[k]) == Some(parts[k]),
    ensures
        source::pool_of(with_commas(parts)) == parts,
{
    lemma_commas(parts);
    lemma_usual_forms(parts);
    lemma_nothing_twice(parts);
}

proof fn lemma_usual_forms(parts: Seq<Seq<char>>)
    requires
        forall|k: int|
            0 <= k < parts.len() ==> source::normalized(#[trigger] parts[k]) == Some(parts[k]),
    ensures
        source::all_normalized(parts) == parts,
    decreases parts.len(),
{
    if parts.len() > 0 {
        let front = parts.drop_last();
        assert forall|k: int| 0 <= k < front.len() implies source::normalized(#[trigger] front[k])
            == Some(front[k]) by {
            assert(front[k] == parts[k]);
        }
        lemma_usual_forms(front);
        assert(source::normalized(parts[parts.len() - 1]) == Some(parts.last()));
        assert(front.push(parts.last()) =~= parts);
    } else {
        assert(source::all_normalized(parts) =~= parts);
    }
}

proof fn lemma_nothing_twice(s: Seq<Seq<char>>)
    requires
        s.no_duplicates(),
    ensures
        source::deduped(s) == s,
    decreases s.len(),
{
    if s.len() > 0 {
        let front = s.drop_last();
        assert forall|i: int, j: int| 0 <= i < front.len() && 0 <= j < front.len() && i
            != j implies front[i] != front[j] by {
            assert(front[i] == s[i] && front[j] == s[j]);
        }
        lemma_nothing_twice(front);
        assert(!front.contains(s.last())) by {
            if front.contains(s.last()) {
                let i = choose|i: int| 0 <= i < front.len() && front[i] == s.last();
                assert(s[i] == s[s.len() - 1]);
            }
        }
        assert(front.push(s.last()) =~= s);
    } else {
        assert(source::deduped(s) =~= s);
    }
}

// ---------------------------------------------------------------------------
// Plans

/// What is tried, before the cooldowns count: the endpoint that worked last, if there
/// is one, and then the pool.
pub open spec fn wished(pool: Seq<Seq<char>>, last_good: Seq<char>) -> Seq<Seq<char>> {
    if last_good.len() == 0 {
        pool
    } else {
        seq![last_good] + pool
    }
}

/// The endpoint's cooldown ends after `now`.
pub open spec fn cools(s: StateView, endpoint: Seq<char>, now: u64) -> bool {
    s.cooldowns.dom().contains(endpoint) && s.cooldowns[endpoint] > now
}

/// Of two endpoints the first of the wished ones is tried first, unless it is cooling
/// down and the other is not.
pub proof fn lemma_plan_order(pool: Seq<Seq<char>>, s: StateView, now: u64, i: int, j: int)
    requires
        0 <= i < j < wished(pool, s.last_good).len(),
        forall|k: int|
            0 <= k < j ==> wished(pool, s.last_good)[k] != wished(pool, s.last_good)[j],
    ensures
        ({
            let w = wished(pool, s.last_good);
            let plan = source::plan_of(pool, s, now);
            let first = if cools(s, w[i], now) && !cools(s, w[j], now) {
                w[j]
            } else {
                w[i]
            };
            let second = if cools(s, w[i], now) && !cools(s, w[j], now) {
                w[i]
            } else {
                w[j]
            };
            exists|p: int, q: int|
                0 <= p < q < plan.len() && #[trigger] plan[p] == first && #[trigger] plan[q]
                    == second
        }),
{
    let w = wished(pool, s.last_good);
    let all = source::deduped(w);
    let m = s.cooldowns;
    lemma_first_occurrences(w, i, j);
    let (a, b) = choose|a: int, b: int|
        0 <= a < b < all.len() && #[trigger] all[a] == w[i] && #[trigger] all[b] == w[j];
    let ready = source::with_cooling(all, m, now, false);
    let cooling = source::with_cooling(all, m, now, true);
    let plan = source::plan_of(pool, s, now);
    assert(plan == ready + cooling);
    let x = cools(s, w[i], now);
    let y = cools(s, w[j], now);
    if x == y {
        lemma_selected_order(all, m, now, x, a, b);
        let chosen = source::with_cooling(all, m, now, x);
        let (p, q) = choose|p: int, q: int|
            0 <= p < q < chosen.len() && #[trigger] chosen[p] == all[a] && #[trigger] chosen[q]
                == all[b];
        if x {
            assert(plan[p + ready.len()] == w[i] && plan[q + ready.len()] == w[j]);
        } else {
            assert(plan[p] == w[i] && plan[q] == w[j]);
        }
    } else {
        lemma_selected(all, m, now, x, a);
        lemma_selected(all, m, now, y, b);
        let one = source::with_cooling(all, m, now, x);
        let two = source::with_cooling(all, m, now, y);
        let p = choose|p: int| 0 <= p < one.len() && #[trigger] one[p] == all[a];
        let q = choose|q: int| 0 <= q < two.len() && #[trigger] two[q] == all[b];
        if x {
            assert(plan[q] == w[j] && plan[p + ready.len()] == w[i]);
        } else {
            assert(plan[p] == w[i] && plan[q + ready.len()] == w[j]);
        }
    }
}

proof fn lemma_selected(
    s: Seq<Seq<char>>,
    m: Map<Seq<char>, u64>,
    now: u64,
    cooling: bool,
    i: int,
)
    requires
        0 <= i < s.len(),
        (m.dom().contains(s[i]) && m[s[i]] > now) == cooling,
    ensures
        exists|p: int|
            0 <= p < source::with_cooling(s, m, now, cooling).len()
                && #[trigger] source::with_cooling(s, m, now, cooling)[p] == s[i],
    decreases s.len(),
{
    let front = s.drop_last();
    let d = source::with_cooling(front, m, now, cooling);
    let r = source::with_cooling(s, m, now, cooling);
    if i < s.len() - 1 {
        assert(front[i] == s[i]);
        lemma_selected(front, m, now, cooling, i);
        let p = choose|p: int| 0 <= p < d.len() && #[trigger] d[p] == front[i];
        assert(r[p] == s[i]);
    } else {
        assert(r[d.len() as int] == s[i]);
    }
}

proof fn lemma_selected_order(
    s: Seq<Seq<char>>,
    m: Map<Seq<char>, u64>,
    now: u64,
    cooling: bool,
    i: int,
    j: int,
)
    requires
        0 <= i < j < s.len(),
        (m.dom().contains(s[i]) && m[s[i]] > now) == cooling,
        (m.dom().contains(s[j]) && m[s[j]] > now) == cooling,
    ensures
        exists|p: int, q: int|
            0 <= p < q < source::with_cooling(s, m, now, cooling).len()
                && #[trigger] source::with_cooling(s, m, now, cooling)[p] == s[i]
                && #[trigger] source::with_cooling(s, m, now, cooling)[q] == s[j],
    decreases s.len(),
{
    let front = s.drop_last();
    let d = source::with_cooling(front, m, now, cooling);
    let r = source::with_cooling(s, m, now, cooling);
    assert(front[i] == s[i]);
    if j < s.len() - 1 {
        assert(front[j] == s[j]);
        lemma_selected_order(front, m, now, cooling, i, j);
        let (p, q) = choose|p: int, q: int|
            0 <= p < q < d.len() && #[trigger] d[p] == front[i] && #[trigger] d[q] == front[j];
        assert(r[p] == s[i] && r[q] == s[j]);
    } else {
        lemma_selected(front, m, now, cooling, i);
        let p = choose|p: int| 0 <= p < d.len() && #[trigger] d[p] == front[i];
        assert(r[p] == s[i] && r[d.len() as int] == s[j]);
    }
}

// ---------------------------------------------------------------------------
// Cooldowns

/// What is left of a cooldown is the time up to its end, and nothing once it has come;
/// an endpoint without a cooldown has nothing left.
pub proof fn lemma_cooldown_left(s: StateView, endpoint: Seq<char>, now: u64)
    ensures
        cools(s, endpoint, now) ==> state::cooldown_left(s.cooldowns, endpoint, now)
            == s.cooldowns[endpoint] - now,
        !cools(s, endpoint, now) ==> state::cooldown_left(s.cooldowns, endpoint, now) == 0,
{
}

/// Of the entries of a file for one endpoint the last counts, and no endpoint without
/// an entry has a cooldown.
pub proof fn lemma_entries(e: Seq<(String, u64)>, i: int, endpoint: Seq<char>)
    ensures
        0 <= i < e.len() && e[i].0@ == endpoint && (forall|k: int|
            i < k < e.len() ==> (#[trigger] e[k]).0@ != endpoint) ==> state::entries_map(
            e,
        ).dom().contains(endpoint) && state::entries_map(e)[endpoint] == e[i].1,
        (forall|k: int| 0 <= k < e.len() ==> (#[trigger] e[k]).0@ != endpoint)
            ==> !state::entries_map(e).dom().contains(endpoint),
    decreases e.len(),
{
    if e.len() > 0 {
        let front = e.drop_last();
        lemma_entries(front, i, endpoint);
        let n = e.len() - 1;
        if 0 <= i < e.len() && e[i].0@ == endpoint && (forall|k: int|
            i < k < e.len() ==> (#[trigger] e[k]).0@ != endpoint) {
            if i < n {
                assert(e[n].0@ != endpoint);
                assert(front[i] == e[i]);
                assert forall|k: int| i < k < front.len() implies (#[trigger] front[k]).0@
                    != endpoint by {
                    assert(front[k] == e[k]);
                }
            }
        }
        if forall|k: int| 0 <= k < e.len() ==> (#[trigger] e[k]).0@ != endpoint {
            assert(e[n].0@ != endpoint);
            assert forall|k: int| 0 <= k < front.len() implies (#[trigger] front[k]).0@
                != endpoint by {
                assert(front[k] == e[k]);
            }
        }
    }
}

/// Dropping cooldowns drops exactly those whose end has come.
pub proof fn lemma_unexpired(m: Map<Seq<char>, u64>, endpoint: Seq<char>, now: u64)
    ensures
        state::unexpired(m, now).dom().contains(endpoint) <==> m.dom().contains(endpoint)
            && m[endpoint] > now,
        state::unexpired(m, now).dom().contains(endpoint) ==> state::unexpired(m, now)[endpoint]
            == m[endpoint],
{
}

/// A cooldown ends so many seconds after it began, but never after the last second that
/// can be told.
pub proof fn lemma_cooldown_end(now: u64, secs: u64)
    ensures
        now + secs <= u64::MAX ==> state::cooldown_end(now, secs) == now + secs,
        now + secs > u64::MAX ==> state::cooldown_end(now, secs) == u64::MAX,
{
}

} // verus!
