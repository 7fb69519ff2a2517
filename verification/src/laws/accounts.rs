//! Accounts and registrations: tokens, tries, the texts of requests, and what is kept
//! of the replies.

use crate::b64;
use crate::laws::settings;
use crate::laws::texts;
use crate::registration::masque;
use crate::registration::teams;
use crate::registration::teams::{AccountError, TeamsError, TeamsStep, WgAccount};
use crate::system::UtcTime;
use crate::text;
use vstd::prelude::*;
use vstd::utf8::*;

verus! {

// ---------------------------------------------------------------------------
// Tokens

/// A token that is no link counts as it is, without the white space around it.
pub proof fn lemma_plain_token(before: Seq<char>, token: Seq<char>, after: Seq<char>)
    requires
        texts::is_blank(before),
        texts::is_blank(after),
        settings::is_bare(token),
        !text::begins_with(token, "com.cloudflare.warp://"@),
    ensures
        teams::token_of(before + token + after) == token,
{
    texts::lemma_trimmed(before, token, after);
}

/// Of a link the token is what follows the last `token=`, up to an ampersand.
pub proof fn lemma_link_token(
    before: Seq<char>,
    path: Seq<char>,
    token: Seq<char>,
    more: Seq<char>,
    after: Seq<char>,
)
    requires
        texts::is_blank(before),
        texts::is_blank(after),
        token.len() > 0,
        !token.contains('&'),
        more.len() > 0 ==> more[0] == '&',
        settings::is_bare(token + more),
        ({
            let link = "com.cloudflare.warp://"@ + path + "token="@ + token + more;
            let at = ("com.cloudflare.warp://"@ + path).len() as int;
            forall|i: int| at < i ==> !#[trigger] text::match_at(link, "token="@, i)
        }),
    ensures
        teams::token_of(
            before + ("com.cloudflare.warp://"@ + path + "token="@ + token + more) + after,
        ) == token,
{
    let scheme = "com.cloudflare.warp://"@;
    let mark = "token="@;
    reveal_strlit("com.cloudflare.warp://");
    reveal_strlit("token=");
    let link = scheme + path + mark + token + more;
    let at = (scheme + path).len() as int;
    assert(link[0] == 'c');
    assert(link.last() == (token + more).last());
    texts::lemma_white_space('c');
    texts::lemma_trimmed(before, link, after);
    assert(link.take(scheme.len() as int) =~= scheme);
    assert(link.subrange(at, at + 6) =~= mark);
    assert(text::match_at(link, mark, at));
    text::lemma_last_match(link, mark, link.len() as int);
    let found = text::last_match(link, mark, link.len() as int);
    assert(found == at);
    let tail = link.skip(at + 6);
    assert(tail =~= token + more);
    assert forall|k: int| 0 <= k < token.len() implies tail[k] != '&' by {
        assert(token.contains(token[k]));
    }
    text::lemma_first_at_is(tail, '&', token.len() as int);
    assert(tail.take(token.len() as int) =~= token);
}

/// A link without `token=` counts as it is.
pub proof fn lemma_link_without_token(link: Seq<char>)
    requires
        settings::is_bare(link),
        !text::occurs_in(link, "token="@),
    ensures
        teams::token_of(link) == link,
{
    let none = Seq::<char>::empty();
    texts::lemma_trimmed(none, link, none);
    assert(none + link + none =~= link);
    text::lemma_last_match(link, "token="@, link.len() as int);
}

// ---------------------------------------------------------------------------
// Tries

/// A reply is an account exactly where its status is 200 and it has one.
pub proof fn lemma_accepts(
    attempt: u32,
    retries: u32,
    delay: u64,
    status: Option<u16>,
    retry_after: Option<Seq<char>>,
    body: Seq<char>,
    has_account: bool,
)
    ensures
        teams::step_for(attempt, retries, delay, status, retry_after, body, has_account)
            == TeamsStep::Accept <==> status == Some(200u16) && has_account,
{
}

/// A token is found expired exactly where the status is 401 and the body says so
/// somewhere.
pub proof fn lemma_expired(
    attempt: u32,
    retries: u32,
    delay: u64,
    status: Option<u16>,
    retry_after: Option<Seq<char>>,
    a: Seq<char>,
    b: Seq<char>,
    has_account: bool,
)
    ensures
        status == Some(401u16) ==> teams::step_for(
            attempt,
            retries,
            delay,
            status,
            retry_after,
            a + "token is expired"@ + b,
            has_account,
        ) == TeamsStep::Fail(TeamsError::TokenExpired),
        status != Some(401u16) || !text::occurs_in(a, "token is expired"@) ==> teams::step_for(
            attempt,
            retries,
            delay,
            status,
            retry_after,
            a,
            has_account,
        ) != TeamsStep::Fail(TeamsError::TokenExpired),
{
    let said = "token is expired"@;
    let body = a + said + b;
    let at = a.len() as int;
    assert(body.subrange(at, at + said.len()) =~= said);
    assert(text::match_at(body, said, at));
}

/// What is neither an account nor an expired token is tried again until the last try,
/// after the delay times the number of the try, or after what the server asks for in
/// seconds where that is longer.
pub proof fn lemma_waits(
    attempt: u32,
    retries: u32,
    delay: u64,
    status: Option<u16>,
    asked: u64,
    body: Seq<char>,
)
    requires
        status != Some(401u16),
        delay * attempt <= u64::MAX,
    ensures
        attempt >= retries ==> teams::step_for(
            attempt,
            retries,
            delay,
            status,
            None,
            body,
            false,
        ) == TeamsStep::Fail(TeamsError::RetriesExhausted),
        attempt < retries ==> teams::step_for(
            attempt,
            retries,
            delay,
            status,
            None,
            body,
            false,
        ) == TeamsStep::RetryAfter((delay * attempt) as u64),
        attempt < retries ==> teams::step_for(
            attempt,
            retries,
            delay,
            status,
            Some(text::decimal(asked as nat)),
            body,
            false,
        ) == TeamsStep::RetryAfter(
            if asked >= delay * attempt {
                asked
            } else {
                (delay * attempt) as u64
            },
        ),
{
    let d = text::decimal(asked as nat);
    text::lemma_decimal(asked as nat);
    text::lemma_decimal_read_back(asked as nat);
    assert(text::is_digit(d[0]) && text::is_digit(d[d.len() - 1]));
    text::lemma_trimmed_unchanged(d);
    assert(delay * attempt >= 0) by (nonlinear_arith);
}

/// A registration begins with the token that was given, with its first try of at least
/// one, and with identifiers of a fixed size: the second begins with the first.
pub proof fn lemma_session(s: teams::TeamsSession, r: teams::TeamsRegistrar)
    requires
        teams::session_holds(s, r),
    ensures
        s.token@ == teams::token_of(r.token@),
        s.attempt == 1,
        s.retries >= 1,
        r.retries >= 1 ==> s.retries == r.retries,
        s.retry_delay == r.retry_delay,
        s.install_id@.len() == 22,
        s.fcm_token@.len() == 22 + 7 + 134,
        s.fcm_token@.take(29) == s.install_id@ + seq![':', 'A', 'P', 'A', '9', '1', 'b'],
        exists|secret: Seq<u8>|
            secret.len() == 32 && b64::base64_bytes(s.private_key@) == Some(secret)
                && b64::base64_bytes(s.public_key@) == Some(
                #[trigger] crate::keys::x25519_public(secret),
            ),
{
    reveal_strlit(":APA91b");
    let mark = seq![':', 'A', 'P', 'A', '9', '1', 'b'];
    assert(":APA91b"@ =~= mark);
    let tail = choose|tail: Seq<char>| #[trigger]
        teams::is_alnum_text(tail, 134) && s.fcm_token@ == s.install_id@ + ":APA91b"@ + tail;
    assert(s.fcm_token@.take(29) =~= s.install_id@ + mark);
    let secret = choose|secret: Seq<u8>|
        secret.len() == 32 && s.private_key@ == #[trigger] b64::base64_text(secret)
            && s.public_key@ == b64::base64_text(crate::keys::x25519_public(secret));
    b64::lemma_base64_read_back(secret);
    b64::lemma_base64_read_back(crate::keys::x25519_public(secret));
}

// ---------------------------------------------------------------------------
// Texts of requests

/// The letters and digits, in the order of their numbers.
pub proof fn lemma_alnum(i: int)
    requires
        0 <= i < 62,
    ensures
        teams::alnum_char(i)
            == "ABCDEFGHIJKLMNOPQRSTUVWXYZabcdefghijklmnopqrstuvwxyz0123456789"@[i],
{
    reveal_strlit("ABCDEFGHIJKLMNOPQRSTUVWXYZabcdefghijklmnopqrstuvwxyz0123456789");
}

/// The digit for a number.
pub open spec fn digit(n: int) -> char {
    "0123456789"@[n]
}

/// Two digits.
pub open spec fn two_digits(n: int) -> Seq<char> {
    seq![digit(n / 10), digit(n % 10)]
}

proof fn lemma_digit(n: nat)
    requires
        n < 10,
    ensures
        text::digit_char(n) == digit(n as int),
{
    reveal_strlit("0123456789");
}

proof fn lemma_two_digits(n: nat)
    requires
        n < 100,
    ensures
        teams::padded(n, 2) == two_digits(n as int),
{
    reveal_with_fuel(text::decimal, 3);
    lemma_digit(n / 10);
    lemma_digit(n % 10);
    reveal_strlit("0123456789");
    if n < 10 {
        assert(teams::zeros(1) =~= seq!['0']);
        assert(digit(0) == '0');
    } else {
        assert(teams::zeros(0) =~= Seq::empty());
    }
    assert(teams::padded(n, 2) =~= two_digits(n as int));
}

proof fn lemma_four_digits(n: nat)
    requires
        n < 10000,
    ensures
        teams::padded(n, 4) == two_digits(n as int / 100) + two_digits(n as int % 100),
{
    reveal_with_fuel(text::decimal, 5);
    lemma_digit(n / 1000);
    lemma_digit(n / 100 % 10);
    lemma_digit(n / 10 % 10);
    lemma_digit(n % 10);
    reveal_strlit("0123456789");
    assert(digit(0) == '0');
    assert(n as int / 100 / 10 == n / 1000);
    assert(n as int / 100 % 10 == n / 100 % 10);
    assert(n as int % 100 / 10 == n / 10 % 10);
    assert(n as int % 100 % 10 == n % 10);
    assert(n / 10 / 10 == n / 100 && n / 10 / 10 / 10 == n / 1000);
    if n < 10 {
        assert(teams::zeros(3) =~= seq!['0', '0', '0']);
    } else if n < 100 {
        assert(teams::zeros(2) =~= seq!['0', '0']);
    } else if n < 1000 {
        assert(teams::zeros(1) =~= seq!['0']);
    } else {
        assert(teams::zeros(0) =~= Seq::empty());
    }
    assert(teams::padded(n, 4) =~= two_digits(n as int / 100) + two_digits(n as int % 100));
}

/// A moment of the years 0 to 9999 is written with four digits for the year and two for
/// everything else, in UTC and to the second.
pub proof fn lemma_moment(t: UtcTime)
    requires
        0 <= t.year < 10000,
        t.month < 100,
        t.day < 100,
        t.hour < 100,
        t.minute < 100,
        t.second < 100,
    ensures
        teams::timestamp(t) == two_digits(t.year as int / 100) + two_digits(t.year as int % 100)
            + seq!['-'] + two_digits(t.month as int) + seq!['-'] + two_digits(t.day as int) + seq![
            'T',
        ] + two_digits(t.hour as int) + seq![':'] + two_digits(t.minute as int) + seq![':']
            + two_digits(t.second as int) + seq!['.', '0', '0', '0', 'Z'],
{
    lemma_four_digits(t.year as nat);
    lemma_two_digits(t.month as nat);
    lemma_two_digits(t.day as nat);
    lemma_two_digits(t.hour as nat);
    lemma_two_digits(t.minute as nat);
    lemma_two_digits(t.second as nat);
    reveal_strlit(".000Z");
    assert(".000Z"@ =~= seq!['.', '0', '0', '0', 'Z']);
}

/// The address of a device is that of registrations, a slash, and the device's
/// identifier.
pub proof fn lemma_device_url(id: Seq<char>)
    ensures
        masque::device_url_text(id) == masque::register_url_text() + seq!['/'] + id,
{
    reveal_strlit("https://api.cloudflareclient.com/v0/reg/");
    reveal_strlit("https://api.cloudflareclient.com/v0/reg");
    assert(masque::device_url_text(id) =~= masque::register_url_text() + seq!['/'] + id);
}

/// A reply succeeded exactly where its status is of the two hundreds.
pub proof fn lemma_success(status: u16)
    ensures
        masque::is_success_status(status) <==> status / 100 == 2,
{
}

// ---------------------------------------------------------------------------
// wg0.conf

/// An address without a prefix length gets the one of a single host; one that has a
/// prefix length keeps it.
pub proof fn lemma_prefix_length(address: Seq<char>)
    ensures
        !address.contains('/') ==> teams::with_cidr(address, "/32"@) == address + seq!['/', '3', '2'],
        !address.contains('/') ==> teams::with_cidr(address, "/128"@) == address + seq![
            '/',
            '1',
            '2',
            '8',
        ],
        address.contains('/') ==> teams::with_cidr(address, "/32"@) == address && teams::with_cidr(
            address,
            "/128"@,
        ) == address,
{
    reveal_strlit("/32");
    reveal_strlit("/128");
    assert("/32"@ =~= seq!['/', '3', '2']);
    assert("/128"@ =~= seq!['/', '1', '2', '8']);
}

/// The endpoint that is asked for comes before the peer's, and the peer's before the
/// public one; an empty one does not count.
pub proof fn lemma_endpoint_choice(asked: Seq<char>, host: Seq<char>)
    ensures
        asked.len() > 0 ==> teams::chosen_endpoint(Some(asked), host) == asked,
        asked.len() == 0 ==> teams::chosen_endpoint(Some(asked), host) == teams::chosen_endpoint(
            None,
            host,
        ),
        host.len() > 0 ==> teams::chosen_endpoint(None, host) == host,
        host.len() == 0 ==> teams::chosen_endpoint(None, host)
            == "engage.cloudflareclient.com:2408"@,
{
}

/// An account gives a `wg0.conf` exactly where both keys and both addresses are there;
/// where one is not, that is said.
pub proof fn lemma_account_lacks(a: WgAccount)
    ensures
        teams::account_lacks(a) is None <==> {
            &&& a.private_key@.len() > 0
            &&& a.config.peers@.len() > 0
            &&& a.config.peers@[0].public_key@.len() > 0
            &&& a.config.interface.addresses.v4@.len() > 0
            &&& a.config.interface.addresses.v6@.len() > 0
        },
        teams::account_lacks(a) == Some(AccountError::PrivateKey) <==> a.private_key@.len() == 0,
        teams::account_lacks(a) == Some(AccountError::Peer) ==> a.config.peers@.len() == 0,
        teams::account_lacks(a) == Some(AccountError::PeerPublicKey)
            ==> a.config.peers@[0].public_key@.len() == 0,
        teams::account_lacks(a) == Some(AccountError::Ipv4Address)
            ==> a.config.interface.addresses.v4@.len() == 0,
        teams::account_lacks(a) == Some(AccountError::Ipv6Address)
            ==> a.config.interface.addresses.v6@.len() == 0,
{
}

proof fn lemma_base64_size(b: Seq<u8>)
    ensures
        b64::base64_text(b).len() % 4 == 0,
    decreases b.len(),
{
    if b.len() >= 3 {
        lemma_base64_size(b.skip(3));
    }
}

/// The mark of a client is the first three bytes of its identifier in base64, whether
/// or not the equals signs at its end are written; bytes that it lacks are zero.
pub proof fn lemma_mark(bytes: Seq<u8>, id: Seq<char>, missing: nat)
    requires
        missing < 4,
        b64::base64_text(bytes) == id + Seq::new(missing, |i: int| '='),
    ensures
        teams::reserved_from(id).len() == 3,
        forall|i: int|
            0 <= i < 3 ==> #[trigger] teams::reserved_from(id)[i] == if i < bytes.len() {
                bytes[i]
            } else {
                0
            },
{
    let whole = b64::base64_text(bytes);
    b64::lemma_base64_chars(bytes);
    b64::lemma_base64_read_back(bytes);
    lemma_base64_size(bytes);
    assert forall|i: int| 0 <= i < id.len() implies '\0' <= #[trigger] id[i] <= '\u{7f}' by {
        assert(whole[i] == id[i]);
        assert(b64::is_base64_char(whole[i]));
    }
    lemma_ascii_size(id);
    assert(teams::filled_up(id) =~= whole);
}

proof fn lemma_ascii_size(s: Seq<char>)
    requires
        forall|i: int| 0 <= i < s.len() ==> '\0' <= #[trigger] s[i] <= '\u{7f}',
    ensures
        encode_utf8(s).len() == s.len(),
{
    assert(is_ascii_chars(s));
    is_ascii_chars_encode_utf8(s);
}

/// An identifier that is no base64 marks nothing.
pub proof fn lemma_no_mark(id: Seq<char>)
    requires
        b64::base64_bytes(teams::filled_up(id)) is None,
    ensures
        teams::reserved_from(id) == seq![0u8, 0, 0],
{
}

// ---------------------------------------------------------------------------
// What is kept of a registration

/// The host of an endpoint: what stands in brackets, or what stands before the first
/// colon; white space around it does not count.
pub proof fn lemma_endpoint_host(
    before: Seq<char>,
    host: Seq<char>,
    more: Seq<char>,
    after: Seq<char>,
)
    requires
        texts::is_blank(before),
        texts::is_blank(after),
        host.len() > 0,
        settings::is_bare(host),
        more.len() > 0 ==> more[0] == ':' && !texts::white_space().contains(more.last()),
    ensures
        !host.contains(']') ==> masque::host_of(
            before + (seq!['['] + host + seq![']'] + more) + after,
        ) == host,
        !host.contains(':') && host[0] != '[' ==> masque::host_of(before + (host + more) + after)
            == host,
{
    texts::lemma_white_space('[');
    texts::lemma_white_space(']');
    if !host.contains(']') {
        let t = seq!['['] + host + seq![']'] + more;
        assert(t[0] == '[');
        assert(t.last() == if more.len() > 0 {
            more.last()
        } else {
            ']'
        });
        texts::lemma_trimmed(before, t, after);
        let rest = t.skip(1);
        assert forall|k: int| 0 <= k < host.len() implies rest[k] != ']' by {
            assert(rest[k] == host[k]);
            assert(host.contains(host[k]));
        }
        assert(rest[host.len() as int] == ']');
        text::lemma_first_at_is(rest, ']', host.len() as int);
        assert(rest.take(host.len() as int) =~= host);
    }
    if !host.contains(':') && host[0] != '[' {
        let t = host + more;
        assert(t[0] == host[0]);
        assert(t.last() == if more.len() > 0 {
            more.last()
        } else {
            host.last()
        });
        texts::lemma_trimmed(before, t, after);
        assert forall|k: int| 0 <= k < host.len() implies t[k] != ':' by {
            assert(t[k] == host[k]);
            assert(host.contains(host[k]));
        }
        text::lemma_first_at_is(t, ':', host.len() as int);
        assert(t.take(host.len() as int) =~= host);
    }
}

/// A registration keeps the token of the first reply and the rest of the second; where
/// the edge is comes from the first of the peers, whatever others there are, and every
/// port that is one is kept.
pub proof fn lemma_registration(
    g: masque::Registration,
    token: Seq<char>,
    r: masque::RegResult,
    pkcs8: Seq<u8>,
    i: int,
)
    requires
        masque::registration_holds(g, token, r, pkcs8),
        r.config is Some,
        r.config->Some_0.peers@.len() > 0,
    ensures
        g.token@ == token,
        g.id@ == r.id@,
        g.account@ == r.account_id@,
        g.assigned_ipv4@ == r.config->Some_0.address_v4@,
        g.assigned_ipv6@ == r.config->Some_0.address_v6@,
        g.endpoint_v4@ == masque::host_of(r.config->Some_0.peers@[0].endpoint_v4@),
        g.endpoint_v6@ == masque::host_of(r.config->Some_0.peers@[0].endpoint_v6@),
        g.endpoint_ports@.len() == r.config->Some_0.peers@[0].ports@.len(),
        0 <= i < g.endpoint_ports@.len() && 0 <= r.config->Some_0.peers@[0].ports@[i] <= 65535
            ==> g.endpoint_ports@[i] == r.config->Some_0.peers@[0].ports@[i],
{
}

} // verus!
