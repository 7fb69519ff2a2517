//! Settings: the lines of `wg0.conf`, the environment, and the signs of health.

use crate::addr;
use crate::appconfig;
use crate::config;
use crate::config::{Draft, Resolution, WgConfFault};
use crate::health::heartbeat;
use crate::health::probe;
use crate::laws::texts;
use crate::text;
use vstd::prelude::*;

verus! {

// ---------------------------------------------------------------------------
// Lines of wg0.conf

/// A text without white space at its ends.
pub open spec fn is_bare(s: Seq<char>) -> bool {
    s.len() > 0 ==> !texts::white_space().contains(s[0]) && !texts::white_space().contains(s.last())
}

/// A setting is a key and a value around the first equals sign of a line; white space
/// around each does not count. A line without an equals sign is none.
pub proof fn lemma_setting(
    a: Seq<char>,
    key: Seq<char>,
    b: Seq<char>,
    c: Seq<char>,
    value: Seq<char>,
    d: Seq<char>,
)
    requires
        texts::is_blank(a),
        texts::is_blank(b),
        texts::is_blank(c),
        texts::is_blank(d),
        key.len() > 0,
        is_bare(key),
        !key.contains('='),
        is_bare(value),
        value.len() > 0,
    ensures
        config::setting_of(a + (key + b + seq!['='] + c + value) + d) == Some((key, value)),
        config::setting_of(a + key + d) is None,
{
    let core = key + b + seq!['='] + c + value;
    assert(core[0] == key[0] && core.last() == value.last());
    texts::lemma_trimmed(a, core, d);
    texts::lemma_trimmed(a, key, d);
    text::lemma_first_at(key, '=');
    let n = (key.len() + b.len()) as int;
    assert forall|k: int| 0 <= k < n implies core[k] != '=' by {
        if k < key.len() {
            assert(core[k] == key[k]);
            assert(key.contains(key[k]));
        } else {
            assert(core[k] == b[k - key.len()]);
            assert(texts::white_space().contains(b[k - key.len()]));
            texts::lemma_white_space(b[k - key.len()]);
        }
    }
    assert(core[n] == '=');
    text::lemma_first_at_is(core, '=', n);
    let none = Seq::<char>::empty();
    assert(core.take(n) =~= none + key + b);
    assert(core.skip(n + 1) =~= c + value + none);
    texts::lemma_trimmed(none, key, b);
    texts::lemma_trimmed(c, value, none);
}

/// The key of a line.
pub open spec fn key_of(line: Seq<char>) -> Option<Seq<char>> {
    match config::setting_of(line) {
        Some((key, _)) => Some(key),
        None => None,
    }
}

/// The value of a line.
pub open spec fn value_of(line: Seq<char>) -> Seq<char> {
    config::setting_of(line)->Some_0.1
}

/// The line at `k` is the last with this key.
pub open spec fn sets_last(lines: Seq<Seq<char>>, key: Seq<char>, k: int) -> bool {
    &&& 0 <= k < lines.len()
    &&& key_of(lines[k]) == Some(key)
    &&& forall|i: int| k < i < lines.len() ==> key_of(#[trigger] lines[i]) != Some(key)
}

/// No line has this key.
pub open spec fn never_set(lines: Seq<Seq<char>>, key: Seq<char>) -> bool {
    forall|i: int| 0 <= i < lines.len() ==> key_of(#[trigger] lines[i]) != Some(key)
}

proof fn lemma_keys_differ()
    ensures
        "PrivateKey"@ != "PublicKey"@,
        "PrivateKey"@ != "Endpoint"@,
        "PrivateKey"@ != "Reserved"@,
        "PrivateKey"@ != "Address"@,
        "PublicKey"@ != "Endpoint"@,
        "PublicKey"@ != "Reserved"@,
        "PublicKey"@ != "Address"@,
        "Endpoint"@ != "Reserved"@,
        "Endpoint"@ != "Address"@,
        "Reserved"@ != "Address"@,
{
    reveal_strlit("PrivateKey");
    reveal_strlit("PublicKey");
    reveal_strlit("Endpoint");
    reveal_strlit("Reserved");
    reveal_strlit("Address");
    assert("PrivateKey"@.len() == 10 && "PublicKey"@.len() == 9 && "Endpoint"@.len() == 8
        && "Reserved"@.len() == 8 && "Address"@.len() == 7);
    assert("Endpoint"@[0] != "Reserved"@[0]);
}

/// The private key is what the last line `PrivateKey` says, and there is none without
/// such a line.
pub proof fn lemma_private_key(lines: Seq<Seq<char>>, answers: Seq<Resolution>, k: int)
    requires
        config::draft_of(lines, answers) is Ok,
    ensures
        sets_last(lines, "PrivateKey"@, k) ==> config::key_bytes(value_of(lines[k])) is Ok
            && config::draft_of(lines, answers)->Ok_0.private_key == Some(
            config::key_bytes(value_of(lines[k]))->Ok_0,
        ),
        never_set(lines, "PrivateKey"@) ==> config::draft_of(
            lines,
            answers,
        )->Ok_0.private_key is None,
    decreases lines.len(),
{
    if lines.len() > 0 {
        lemma_keys_differ();
        let front = lines.drop_last();
        lemma_private_key(front, answers, k);
        lemma_key_steps(lines, "PrivateKey"@, k);
    }
}

proof fn lemma_key_steps(lines: Seq<Seq<char>>, key: Seq<char>, k: int)
    requires
        lines.len() > 0,
    ensures
        sets_last(lines, key, k) && k < lines.len() - 1 ==> sets_last(lines.drop_last(), key, k)
            && lines.drop_last()[k] == lines[k] && key_of(lines.last()) != Some(key),
        sets_last(lines, key, k) && k == lines.len() - 1 ==> key_of(lines.last()) == Some(key),
        never_set(lines, key) ==> never_set(lines.drop_last(), key) && key_of(lines.last()) != Some(
            key,
        ),
{
    let front = lines.drop_last();
    let n = lines.len() - 1;
    if sets_last(lines, key, k) && k < n {
        assert(key_of(lines[n]) != Some(key));
        assert forall|i: int| k < i < front.len() implies key_of(#[trigger] front[i]) != Some(
            key,
        ) by {
            assert(front[i] == lines[i]);
        }
    }
    if never_set(lines, key) {
        assert(key_of(lines[n]) != Some(key));
        assert forall|i: int| 0 <= i < front.len() implies key_of(#[trigger] front[i]) != Some(
            key,
        ) by {
            assert(front[i] == lines[i]);
        }
    }
}

/// The peer's public key is what the last line `PublicKey` says, and there is none
/// without such a line.
pub proof fn lemma_public_key(lines: Seq<Seq<char>>, answers: Seq<Resolution>, k: int)
    requires
        config::draft_of(lines, answers) is Ok,
    ensures
        sets_last(lines, "PublicKey"@, k) ==> config::key_bytes(value_of(lines[k])) is Ok
            && config::draft_of(lines, answers)->Ok_0.peer_public_key == Some(
            config::key_bytes(value_of(lines[k]))->Ok_0,
        ),
        never_set(lines, "PublicKey"@) ==> config::draft_of(
            lines,
            answers,
        )->Ok_0.peer_public_key is None,
    decreases lines.len(),
{
    if lines.len() > 0 {
        lemma_keys_differ();
        lemma_public_key(lines.drop_last(), answers, k);
        lemma_key_steps(lines, "PublicKey"@, k);
    }
}

/// The names that the lines ask the resolver for are the values of the lines `Endpoint`
/// that are no addresses, in their order.
pub proof fn lemma_names(lines: Seq<Seq<char>>, line: Seq<char>)
    ensures
        config::names_of(Seq::empty()) == Seq::<Seq<char>>::empty(),
        key_of(line) == Some("Endpoint"@) && addr::socket_parts(value_of(line)) is None
            ==> config::names_of(lines.push(line)) == config::names_of(lines).push(value_of(line)),
        key_of(line) != Some("Endpoint"@) || addr::socket_parts(value_of(line)) is Some
            ==> config::names_of(lines.push(line)) == config::names_of(lines),
{
    assert(lines.push(line).drop_last() =~= lines);
}

/// The answers of the resolver go to the endpoints that are names, in their order: as
/// many are used as there are such lines.
pub proof fn lemma_names_in_order(lines: Seq<Seq<char>>, answers: Seq<Resolution>)
    requires
        config::draft_of(lines, answers) is Ok,
    ensures
        config::draft_of(lines, answers)->Ok_0.names == config::names_of(lines).len(),
        config::names_of(lines).len() <= answers.len(),
    decreases lines.len(),
{
    if lines.len() > 0 {
        lemma_keys_differ();
        lemma_names_in_order(lines.drop_last(), answers);
    }
}

/// The endpoint is the address that the last line `Endpoint` says, or, where that is a
/// name, the answer of the resolver that comes after those for the names above it; there
/// is none without such a line.
pub proof fn lemma_endpoint(lines: Seq<Seq<char>>, answers: Seq<Resolution>, k: int)
    requires
        config::draft_of(lines, answers) is Ok,
    ensures
        sets_last(lines, "Endpoint"@, k) && addr::socket_parts(value_of(lines[k])) is Some
            ==> config::draft_of(lines, answers)->Ok_0.endpoint == addr::socket_parts(
            value_of(lines[k]),
        ),
        sets_last(lines, "Endpoint"@, k) && addr::socket_parts(value_of(lines[k])) is None ==> ({
            let n = config::names_of(lines.take(k)).len() as int;
            &&& n < answers.len()
            &&& answers[n] is Found
            &&& config::draft_of(lines, answers)->Ok_0.endpoint == Some(
                config::parts_of(answers[n]->Found_0),
            )
        }),
        never_set(lines, "Endpoint"@) ==> config::draft_of(lines, answers)->Ok_0.endpoint is None,
    decreases lines.len(),
{
    if lines.len() > 0 {
        lemma_keys_differ();
        let front = lines.drop_last();
        lemma_endpoint(front, answers, k);
        lemma_names_in_order(front, answers);
        lemma_key_steps(lines, "Endpoint"@, k);
        if sets_last(lines, "Endpoint"@, k) {
            if k == lines.len() - 1 {
                assert(lines.take(k) =~= front);
            } else {
                assert(lines.take(k) =~= front.take(k));
            }
        }
    }
}

/// The reserved bytes are what the last line `Reserved` says, and zero without such a
/// line.
pub proof fn lemma_reserved(lines: Seq<Seq<char>>, answers: Seq<Resolution>, k: int)
    requires
        config::draft_of(lines, answers) is Ok,
    ensures
        sets_last(lines, "Reserved"@, k) ==> config::reserved_of(value_of(lines[k])) is Ok
            && config::draft_of(lines, answers)->Ok_0.reserved == config::reserved_of(
            value_of(lines[k]),
        )->Ok_0,
        never_set(lines, "Reserved"@) ==> config::draft_of(lines, answers)->Ok_0.reserved == seq![
            0u8,
            0,
            0,
        ],
    decreases lines.len(),
{
    if lines.len() > 0 {
        lemma_keys_differ();
        lemma_reserved(lines.drop_last(), answers, k);
        lemma_key_steps(lines, "Reserved"@, k);
    }
}

/// The octets of the address that a line says.
pub open spec fn octets_said(line: Seq<char>) -> Option<Seq<u8>> {
    match config::setting_of(line) {
        Some((key, value)) => if key == "Address"@ {
            match config::address_of(value) {
                Ok(o) => Some(o),
                Err(_) => None,
            }
        } else {
            None
        },
        None => None,
    }
}

/// The line says an address of this size: four octets, or more than four.
pub open spec fn says_address(line: Seq<char>, v4: bool) -> bool {
    octets_said(line) is Some && (octets_said(line)->Some_0.len() == 4) == v4
}

/// Each of the two addresses is what the last line `Address` with one of its kind says,
/// whatever addresses of the other kind stand around it.
pub proof fn lemma_addresses(lines: Seq<Seq<char>>, answers: Seq<Resolution>, v4: bool, k: int)
    requires
        config::draft_of(lines, answers) is Ok,
    ensures
        ({
            let d = config::draft_of(lines, answers)->Ok_0;
            let got = if v4 {
                d.address_v4
            } else {
                d.address_v6
            };
            &&& 0 <= k < lines.len() && says_address(lines[k], v4) && (forall|i: int|
                k < i < lines.len() ==> !says_address(#[trigger] lines[i], v4)) ==> got
                == octets_said(lines[k])
            &&& (forall|i: int| 0 <= i < lines.len() ==> !says_address(#[trigger] lines[i], v4))
                ==> got is None
        }),
    decreases lines.len(),
{
    if lines.len() > 0 {
        lemma_keys_differ();
        let front = lines.drop_last();
        let n = lines.len() - 1;
        lemma_addresses(front, answers, v4, k);
        if 0 <= k < n && says_address(lines[k], v4) && (forall|i: int|
            k < i < lines.len() ==> !says_address(#[trigger] lines[i], v4)) {
            assert(front[k] == lines[k]);
            assert(!says_address(lines[n], v4));
            assert forall|i: int| k < i < front.len() implies !says_address(
                #[trigger] front[i],
                v4,
            ) by {
                assert(front[i] == lines[i]);
            }
        }
        if forall|i: int| 0 <= i < lines.len() ==> !says_address(#[trigger] lines[i], v4) {
            assert(!says_address(lines[n], v4));
            assert forall|i: int| 0 <= i < front.len() implies !says_address(
                #[trigger] front[i],
                v4,
            ) by {
                assert(front[i] == lines[i]);
            }
        }
    }
}

/// A configuration is accepted only where each of the five settings that it needs is
/// there.
pub proof fn lemma_nothing_missing(s: Seq<char>, answers: Seq<Resolution>)
    requires
        config::conf_fault(s, answers) is None,
    ensures
        !never_set(text::lines_of(s), "PrivateKey"@),
        !never_set(text::lines_of(s), "PublicKey"@),
        !never_set(text::lines_of(s), "Endpoint"@),
        !never_set(text::lines_of(s), "Address"@),
        exists|i: int|
            0 <= i < text::lines_of(s).len() && says_address(#[trigger] text::lines_of(s)[i], true),
        exists|i: int|
            0 <= i < text::lines_of(s).len() && says_address(
                #[trigger] text::lines_of(s)[i],
                false,
            ),
{
    let lines = text::lines_of(s);
    lemma_private_key(lines, answers, 0);
    lemma_public_key(lines, answers, 0);
    lemma_endpoint(lines, answers, 0);
    lemma_addresses(lines, answers, true, 0);
    lemma_addresses(lines, answers, false, 0);
    let i = choose|i: int| 0 <= i < lines.len() && says_address(#[trigger] lines[i], true);
    assert(key_of(lines[i]) == Some("Address"@));
}

/// The reserved bytes are three numbers up to 255 with commas between them.
pub proof fn lemma_reserved_value(a: nat, b: nat, c: nat)
    ensures
        ({
            let value = text::decimal(a) + seq![','] + (text::decimal(b) + seq![',']
                + text::decimal(c));
            let two = text::decimal(a) + seq![','] + text::decimal(b);
            &&& a <= 255 && b <= 255 && c <= 255 ==> config::reserved_of(value) == Ok::<
                Seq<u8>,
                WgConfFault,
            >(seq![a as u8, b as u8, c as u8])
            &&& a > 255 || b > 255 || c > 255 ==> config::reserved_of(value) == Err::<
                Seq<u8>,
                WgConfFault,
            >(WgConfFault::ReservedNumber(value))
            &&& config::reserved_of(two) == Err::<Seq<u8>, WgConfFault>(
                WgConfFault::ReservedShape(two),
            )
        }),
{
    let x = text::decimal(a);
    let y = text::decimal(b);
    let z = text::decimal(c);
    lemma_plain_number(a);
    lemma_plain_number(b);
    lemma_plain_number(c);
    addr::lemma_split_one(z, ',');
    addr::lemma_split_one(y, ',');
    addr::lemma_split_cons(y, ',', z);
    addr::lemma_split_cons(x, ',', y + seq![','] + z);
    addr::lemma_split_cons(x, ',', y);
    let value = x + seq![','] + (y + seq![','] + z);
    assert(text::split_at_char(value, ',') =~= seq![x, y, z]);
    assert(text::split_at_char(x + seq![','] + y, ',') =~= seq![x, y]);
}

proof fn lemma_plain_number(n: nat)
    ensures
        text::trimmed(text::decimal(n)) == text::decimal(n),
        text::parsed_number(text::decimal(n)) == Some(n),
        !text::decimal(n).contains(','),
        !text::decimal(n).contains('\n'),
        text::decimal(n).last() != '\r',
{
    let d = text::decimal(n);
    text::lemma_decimal(n);
    text::lemma_decimal_read_back(n);
    assert(text::is_digit(d[0]) && text::is_digit(d[d.len() - 1]));
    text::lemma_trimmed_unchanged(d);
    assert forall|i: int| 0 <= i < d.len() implies d[i] != ',' && d[i] != '\n' by {
        assert(text::is_digit(d[i]));
    }
}

/// A key is 32 bytes in base64; any other number of bytes is told.
pub proof fn lemma_key_size(value: Seq<char>, bytes: Seq<u8>)
    requires
        crate::b64::base64_bytes(text::trimmed(value)) == Some(bytes),
    ensures
        bytes.len() == 32 ==> config::key_bytes(value) == Ok::<Seq<u8>, WgConfFault>(bytes),
        bytes.len() != 32 ==> config::key_bytes(value) == Err::<Seq<u8>, WgConfFault>(
            WgConfFault::KeyLength(bytes.len()),
        ),
{
}

// ---------------------------------------------------------------------------
// The environment

/// A variable has the value of its first entry, and the default without one.
pub proof fn lemma_env(env: Seq<(String, String)>, name: Seq<char>, default: Seq<char>, k: int)
    ensures
        0 <= k < env.len() && env[k].0@ == name && (forall|i: int|
            0 <= i < k ==> (#[trigger] env[i]).0@ != name) ==> appconfig::env_value(
            env,
            name,
            default,
        ) == env[k].1@,
        (forall|i: int| 0 <= i < env.len() ==> (#[trigger] env[i]).0@ != name)
            ==> appconfig::env_value(env, name, default) == default,
    decreases env.len(),
{
    if env.len() > 0 {
        let rest = env.drop_first();
        lemma_env(rest, name, default, k - 1);
        if 0 < k < env.len() && env[k].0@ == name && (forall|i: int|
            0 <= i < k ==> (#[trigger] env[i]).0@ != name) {
            assert(env[0].0@ != name);
            assert(rest[k - 1] == env[k]);
            assert forall|i: int| 0 <= i < k - 1 implies (#[trigger] rest[i]).0@ != name by {
                assert(rest[i] == env[i + 1]);
            }
        }
        if forall|i: int| 0 <= i < env.len() ==> (#[trigger] env[i]).0@ != name {
            assert(env[0].0@ != name);
            assert forall|i: int| 0 <= i < rest.len() implies (#[trigger] rest[i]).0@ != name by {
                assert(rest[i] == env[i + 1]);
            }
        }
    }
}

/// A number counts as it is, with white space around it or not; a zero, where the
/// number has to be positive, and a number that is too large count as the fallback.
pub proof fn lemma_numbers(before: Seq<char>, n: nat, after: Seq<char>, a: u32, b: u64)
    requires
        texts::is_blank(before),
        texts::is_blank(after),
    ensures
        ({
            let raw = before + text::decimal(n) + after;
            &&& 1 <= n <= u32::MAX ==> appconfig::positive_or(raw, a) == n
            &&& n == 0 || n > u32::MAX ==> appconfig::positive_or(raw, a) == a
            &&& n <= u64::MAX ==> appconfig::number_or(raw, b) == n
            &&& n > u64::MAX ==> appconfig::number_or(raw, b) == b
        }),
{
    let d = text::decimal(n);
    text::lemma_decimal(n);
    text::lemma_decimal_read_back(n);
    assert(text::is_digit(d[0]) && text::is_digit(d[d.len() - 1]));
    texts::lemma_white_space(d[0]);
    texts::lemma_white_space(d.last());
    texts::lemma_trimmed(before, d, after);
}

/// What is no number counts as the fallback.
pub proof fn lemma_no_numbers(raw: Seq<char>, i: int, a: u32, b: u64)
    requires
        is_bare(raw),
        raw.len() == 0 || (0 < i < raw.len() && !('0' <= raw[i] <= '9')),
    ensures
        appconfig::positive_or(raw, a) == a,
        appconfig::number_or(raw, b) == b,
{
    let none = Seq::<char>::empty();
    texts::lemma_trimmed(none, raw, none);
    assert(none + raw + none =~= raw);
    texts::lemma_no_number(raw, i, u32::MAX as nat);
    texts::lemma_no_number(raw, i, u64::MAX as nat);
}

/// Something is switched on by `1`, and by `true`, `yes` and `on` in small or capital
/// letters, and by nothing else.
pub proof fn lemma_switch(s: Seq<char>)
    ensures
        appconfig::says_true(s) <==> {
            ||| s == seq!['1']
            ||| s == seq!['t', 'r', 'u', 'e']
            ||| s == seq!['T', 'R', 'U', 'E']
            ||| s == seq!['y', 'e', 's']
            ||| s == seq!['Y', 'E', 'S']
            ||| s == seq!['o', 'n']
            ||| s == seq!['O', 'N']
        },
{
    reveal_strlit("1");
    reveal_strlit("true");
    reveal_strlit("TRUE");
    reveal_strlit("yes");
    reveal_strlit("YES");
    reveal_strlit("on");
    reveal_strlit("ON");
    assert("1"@ =~= seq!['1']);
    assert("true"@ =~= seq!['t', 'r', 'u', 'e']);
    assert("TRUE"@ =~= seq!['T', 'R', 'U', 'E']);
    assert("yes"@ =~= seq!['y', 'e', 's']);
    assert("YES"@ =~= seq!['Y', 'E', 'S']);
    assert("on"@ =~= seq!['o', 'n']);
    assert("ON"@ =~= seq!['O', 'N']);
}

/// A disguise that is none of the known ones is none at all.
pub proof fn lemma_trick_setting(s: Seq<char>)
    ensures
        s != "t1"@ && s != "t2"@ ==> appconfig::trick_named(s) == crate::tunnel::Trick::Off,
        appconfig::trick_named("t1"@) == crate::tunnel::Trick::T1,
        appconfig::trick_named("t2"@) == crate::tunnel::Trick::T2,
{
    reveal_strlit("none");
    reveal_strlit("t1");
    reveal_strlit("t2");
    assert("none"@.len() == 4 && "t1"@.len() == 2 && "t2"@.len() == 2);
    assert("t1"@[1] != "t2"@[1]);
}

// ---------------------------------------------------------------------------
// Signs of health

/// A heartbeat speaks for a working tunnel exactly where its first line is `ok` and the
/// time in its second line is not too long ago; a time that is still to come is now.
pub proof fn lemma_heartbeat(
    first: Seq<char>,
    then: u64,
    rest: Seq<char>,
    now: u64,
    max_age: u64,
)
    requires
        !first.contains('\n'),
        first.len() > 0 ==> first.last() != '\r',
    ensures
        heartbeat::complaint(
            first + seq!['\n'] + (text::decimal(then as nat) + seq!['\n'] + rest),
            now,
            max_age,
        ) is None <==> first == seq!['o', 'k'] && (now <= then || now - then <= max_age),
{
    let d = text::decimal(then as nat);
    lemma_plain_number(then as nat);
    text::lemma_decimal(then as nat);
    text::lemma_lines_cons(first, d + seq!['\n'] + rest);
    text::lemma_lines_cons(d, rest);
    let lines = text::lines_of(first + seq!['\n'] + (d + seq!['\n'] + rest));
    assert(lines[0] == first && lines[1] == d);
    reveal_strlit("ok");
    assert("ok"@ =~= seq!['o', 'k']);
}

/// A heartbeat of one line, or without a time, speaks for nothing.
pub proof fn lemma_heartbeat_unreadable(line: Seq<char>, second: Seq<char>, i: int, now: u64, max_age: u64)
    requires
        !line.contains('\n'),
        line.len() > 0 ==> line.last() != '\r',
        !second.contains('\n'),
        0 < i < second.len(),
        !('0' <= second[i] <= '9'),
    ensures
        heartbeat::complaint(Seq::empty(), now, max_age) is Some,
        heartbeat::complaint(line, now, max_age) is Some,
        heartbeat::complaint(line + seq!['\n'] + second, now, max_age) is Some,
{
    texts::lemma_line_endings(line, second);
    texts::lemma_line_endings(second, Seq::empty());
    assert(text::lines_of(line + seq!['\n'] + second) =~= seq![line, second]);
    texts::lemma_no_number(second, i, u64::MAX as nat);
}

/// The heartbeat that is written: the result, the time, each in a line.
pub proof fn lemma_heartbeat_text(now: u64)
    ensures
        heartbeat::heartbeat_text(true, now) == seq!['o', 'k', '\n'] + text::decimal(now as nat)
            + seq!['\n'],
        heartbeat::heartbeat_text(false, now) == seq!['f', 'a', 'i', 'l', '\n'] + text::decimal(
            now as nat,
        ) + seq!['\n'],
{
    reveal_strlit("ok");
    reveal_strlit("fail");
    let d = text::decimal(now as nat);
    assert(heartbeat::heartbeat_text(true, now) =~= seq!['o', 'k', '\n'] + d + seq!['\n']);
    assert(heartbeat::heartbeat_text(false, now) =~= seq!['f', 'a', 'i', 'l', '\n'] + d + seq![
        '\n',
    ]);
}

/// A field of the trace page is what follows its name and an equals sign in the first
/// line that begins so.
pub proof fn lemma_trace_field(
    lines: Seq<Seq<char>>,
    field: Seq<char>,
    value: Seq<char>,
    k: int,
)
    requires
        forall|i: int| 0 <= i < lines.len() ==> !(#[trigger] lines[i]).contains('\n'),
        forall|i: int|
            0 <= i < lines.len() ==> (#[trigger] lines[i]).len() > 0 ==> lines[i].last() != '\r',
    ensures
        0 <= k < lines.len() && lines[k] == field + seq!['='] + value && (forall|i: int|
            0 <= i < k ==> !text::begins_with(#[trigger] lines[i], field + seq!['=']))
            ==> probe::trace_field(text::joined_lines(lines), field) == Some(value),
        (forall|i: int|
            0 <= i < lines.len() ==> !text::begins_with(#[trigger] lines[i], field + seq!['=']))
            ==> probe::trace_field(text::joined_lines(lines), field) is None,
{
    text::lemma_joined_lines(lines);
    lemma_after_prefix(lines, field + seq!['='], value, k);
}

proof fn lemma_after_prefix(lines: Seq<Seq<char>>, p: Seq<char>, value: Seq<char>, k: int)
    ensures
        0 <= k < lines.len() && lines[k] == p + value && (forall|i: int|
            0 <= i < k ==> !text::begins_with(#[trigger] lines[i], p)) ==> probe::after_prefix(
            lines,
            p,
        ) == Some(value),
        (forall|i: int| 0 <= i < lines.len() ==> !text::begins_with(#[trigger] lines[i], p))
            ==> probe::after_prefix(lines, p) is None,
    decreases lines.len(),
{
    if lines.len() > 0 {
        let rest = lines.drop_first();
        lemma_after_prefix(rest, p, value, k - 1);
        if 0 <= k < lines.len() && lines[k] == p + value && (forall|i: int|
            0 <= i < k ==> !text::begins_with(#[trigger] lines[i], p)) {
            if k == 0 {
                assert(lines[0].take(p.len() as int) =~= p);
                assert(lines[0].skip(p.len() as int) =~= value);
            } else {
                assert(!text::begins_with(lines[0], p));
                assert(rest[k - 1] == lines[k]);
                assert forall|i: int| 0 <= i < k - 1 implies !text::begins_with(
                    #[trigger] rest[i],
                    p,
                ) by {
                    assert(rest[i] == lines[i + 1]);
                }
            }
        }
        if forall|i: int| 0 <= i < lines.len() ==> !text::begins_with(#[trigger] lines[i], p) {
            assert(!text::begins_with(lines[0], p));
            assert forall|i: int| 0 <= i < rest.len() implies !text::begins_with(
                #[trigger] rest[i],
                p,
            ) by {
                assert(rest[i] == lines[i + 1]);
            }
        }
    }
}

/// A trace page tells of the tunnel exactly where one of its lines, whichever, is
/// `warp=on` or `warp=plus`.
pub proof fn lemma_warp_marker(lines: Seq<Seq<char>>)
    requires
        forall|i: int| 0 <= i < lines.len() ==> !(#[trigger] lines[i]).contains('\n'),
        forall|i: int|
            0 <= i < lines.len() ==> (#[trigger] lines[i]).len() > 0 ==> lines[i].last() != '\r',
    ensures
        probe::has_warp_marker(text::joined_lines(lines)) <==> lines.contains(
            seq!['w', 'a', 'r', 'p', '=', 'o', 'n'],
        ) || lines.contains(seq!['w', 'a', 'r', 'p', '=', 'p', 'l', 'u', 's']),
{
    text::lemma_joined_lines(lines);
    reveal_strlit("warp=on");
    reveal_strlit("warp=plus");
    let on = seq!['w', 'a', 'r', 'p', '=', 'o', 'n'];
    let plus = seq!['w', 'a', 'r', 'p', '=', 'p', 'l', 'u', 's'];
    assert("warp=on"@ =~= on);
    assert("warp=plus"@ =~= plus);
    let body = text::joined_lines(lines);
    if lines.contains(on) {
        let i = choose|i: int| 0 <= i < lines.len() && lines[i] == on;
        assert(probe::is_warp_marker(text::lines_of(body)[i]));
    }
    if lines.contains(plus) {
        let i = choose|i: int| 0 <= i < lines.len() && lines[i] == plus;
        assert(probe::is_warp_marker(text::lines_of(body)[i]));
    }
}

} // verus!
