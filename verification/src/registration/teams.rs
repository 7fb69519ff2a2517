//! WireGuard accounts: registration with a Teams token, and the `wg0.conf` of
//! an account.

use crate::addr;
use crate::b64;
use crate::config;
use crate::json;
use crate::keys;
use crate::system;
use crate::system::UtcTime;
use crate::text;
use vstd::prelude::*;
use vstd::utf8::*;

verus! {

/// Where a Teams account is registered.
pub const REGISTER_URL: &'static str = "https://api.cloudflareclient.com/v0a2158/reg";

pub const CF_CLIENT_VERSION: &'static str = "a-6.10-2158";

pub const USER_AGENT: &'static str = "okhttp/3.12.1";

/// A WireGuard account as the API returns it, with the private key added.
#[derive(Clone, Debug, Default, PartialEq, Eq)]
pub struct WgAccount {
    pub private_key: String,
    pub config: WgAccountConfig,
}

#[derive(Clone, Debug, Default, PartialEq, Eq)]
pub struct WgAccountConfig {
    pub client_id: String,
    pub peers: Vec<WgAccountPeer>,
    pub interface: WgAccountInterface,
}

#[derive(Clone, Debug, Default, PartialEq, Eq)]
pub struct WgAccountPeer {
    pub public_key: String,
    pub endpoint: WgAccountEndpoint,
}

#[derive(Clone, Debug, Default, PartialEq, Eq)]
pub struct WgAccountEndpoint {
    pub host: String,
}

#[derive(Clone, Debug, Default, PartialEq, Eq)]
pub struct WgAccountInterface {
    pub addresses: WgAccountAddresses,
}

#[derive(Clone, Debug, Default, PartialEq, Eq)]
pub struct WgAccountAddresses {
    pub v4: String,
    pub v6: String,
}

// ---------------------------------------------------------------------------
// The Teams token

/// The token itself: of a `com.cloudflare.warp://` link that has a `token=`,
/// what follows the last one up to an ampersand; of any other text, the text
/// without white space at its ends.
pub open spec fn token_of(raw: Seq<char>) -> Seq<char> {
    let t = text::trimmed(raw);
    let at = text::last_match(t, "token="@, t.len() as int);
    if text::begins_with(t, "com.cloudflare.warp://"@) && at >= 0 {
        let after = t.skip(at + 6);
        after.take(text::first_at(after, '&'))
    } else {
        t
    }
}

/// Takes the token out of its link.
pub fn normalize_token(raw: &str) -> (out: String)
    ensures
        out@ == token_of(raw@),
{
    let chars = text::chars_of(raw);
    let t = text::trim(chars.as_slice());
    let scheme = text::chars_of("com.cloudflare.warp://");
    if !text::has_prefix(t.as_slice(), scheme.as_slice()) {
        return text::string_of(t.as_slice());
    }
    match text::find_last(t.as_slice(), "token=") {
        None => text::string_of(t.as_slice()),
        Some(at) => {
            proof {
                reveal_strlit("token=");
            }
            let n: usize = t.len();
            let after = text::part(t.as_slice(), at + 6, n);
            assert(after@ =~= t@.skip(at + 6));
            assert(after@.skip(0) =~= after@);
            let end = text::find_char(after.as_slice(), 0, '&');
            let token = text::part(after.as_slice(), 0, end);
            assert(token@ =~= after@.take(end as int));
            text::string_of(token.as_slice())
        },
    }
}

// ---------------------------------------------------------------------------
// Chance and time in the request

/// A letter or a digit of ASCII.
pub open spec fn is_alnum(c: char) -> bool {
    'A' <= c <= 'Z' || 'a' <= c <= 'z' || '0' <= c <= '9'
}

/// `n` letters and digits.
pub open spec fn is_alnum_text(s: Seq<char>, n: int) -> bool {
    s.len() == n && forall|i: int| 0 <= i < s.len() ==> is_alnum(#[trigger] s[i])
}

/// The letter or digit for a number below 62: upper case, lower case, digits.
pub open spec fn alnum_char(i: int) -> char {
    if i < 26 {
        (0x41 + i) as char
    } else if i < 52 {
        (0x61 + i - 26) as char
    } else {
        (0x30 + i - 52) as char
    }
}

/// The 62 letters and digits.
fn charset() -> (s: &'static str)
    ensures
        s@.len() == 62,
        forall|i: int| 0 <= i < 62 ==> #[trigger] s@[i] == alnum_char(i),
{
    proof {
        reveal_strlit("ABCDEFGHIJKLMNOPQRSTUVWXYZabcdefghijklmnopqrstuvwxyz0123456789");
    }
    "ABCDEFGHIJKLMNOPQRSTUVWXYZabcdefghijklmnopqrstuvwxyz0123456789"
}

/// The letters and digits that the numbers below 62 in `picks` choose.
pub fn alnum_of(picks: &Vec<usize>) -> (out: String)
    requires
        forall|i: int| 0 <= i < picks@.len() ==> #[trigger] picks@[i] < 62,
    ensures
        out@ == Seq::new(picks@.len(), |i: int| alnum_char(picks@[i] as int)),
        is_alnum_text(out@, picks@.len() as int),
{
    let set = text::chars_of(charset());
    let mut out: Vec<char> = Vec::new();
    let mut i: usize = 0;
    let ghost whole = Seq::new(picks@.len(), |i: int| alnum_char(picks@[i] as int));
    while i < picks.len()
        invariant
            i <= picks@.len(),
            set@.len() == 62,
            forall|k: int| 0 <= k < 62 ==> #[trigger] set@[k] == alnum_char(k),
            forall|k: int| 0 <= k < picks@.len() ==> #[trigger] picks@[k] < 62,
            whole == Seq::new(picks@.len(), |i: int| alnum_char(picks@[i] as int)),
            out@ == whole.take(i as int),
        decreases picks@.len() - i,
    {
        out.push(set[picks[i]]);
        assert(out@ =~= whole.take(i + 1));
        i += 1;
    }
    assert(whole.take(i as int) =~= whole);
    assert forall|k: int| 0 <= k < whole.len() implies is_alnum(#[trigger] whole[k]) by {
        assert(picks@[k] < 62);
    }
    text::string_of(out.as_slice())
}

/// `len` letters and digits, each drawn by chance.
pub fn random_alnum(len: usize) -> (out: String)
    ensures
        is_alnum_text(out@, len as int),
{
    let mut picks: Vec<usize> = Vec::new();
    while picks.len() < len
        invariant
            picks@.len() <= len,
            forall|i: int| 0 <= i < picks@.len() ==> #[trigger] picks@[i] < 62,
        decreases len - picks@.len(),
    {
        picks.push(system::random_index(62));
    }
    alnum_of(&picks)
}

/// `n` zeros.
pub open spec fn zeros(n: int) -> Seq<char> {
    Seq::new(
        if n > 0 {
            n as nat
        } else {
            0
        },
        |i: int| '0',
    )
}

/// A number in decimal, with leading zeros up to `width` digits.
pub open spec fn padded(n: nat, width: int) -> Seq<char> {
    zeros(width - text::decimal(n).len()) + text::decimal(n)
}

/// A year of four characters or more; the sign of a negative one counts.
pub open spec fn year_text(year: int) -> Seq<char> {
    if year < 0 {
        seq!['-'] + padded((-year) as nat, 3)
    } else {
        padded(year as nat, 4)
    }
}

/// A moment as `YYYY-MM-DDThh:mm:ss.000Z`.
pub open spec fn timestamp(t: UtcTime) -> Seq<char> {
    year_text(t.year as int) + seq!['-'] + padded(t.month as nat, 2) + seq!['-'] + padded(
        t.day as nat,
        2,
    ) + seq!['T'] + padded(t.hour as nat, 2) + seq![':'] + padded(t.minute as nat, 2) + seq![':']
        + padded(t.second as nat, 2) + ".000Z"@
}

fn push_padded(out: &mut Vec<char>, n: u64, width: usize)
    requires
        width <= 8,
    ensures
        final(out)@ == old(out)@ + padded(n as nat, width as int),
{
    let mut digits: Vec<char> = Vec::new();
    text::push_decimal(&mut digits, n);
    let mut have: usize = digits.len();
    let ghost start = out@;
    let ghost missing = width - digits@.len();
    assert(out@ =~= start + zeros(0));
    while have < width
        invariant
            width <= 8,
            digits@.len() <= have,
            have <= width || have == digits@.len(),
            out@ == start + zeros(have - digits@.len()),
        decreases width - have,
    {
        out.push('0');
        have += 1;
        assert(out@ =~= start + zeros(have - digits@.len()));
    }
    text::push_chars(out, digits.as_slice());
    assert(zeros(have - digits@.len()) =~= zeros(width - digits@.len()));
    assert(out@ =~= start + padded(n as nat, width as int));
}

/// Writes a moment for the `tos` field.
pub fn tos_text(t: &UtcTime) -> (out: String)
    requires
        t.year > i32::MIN,
    ensures
        out@ == timestamp(*t),
{
    let mut out: Vec<char> = Vec::new();
    if t.year < 0 {
        out.push('-');
        push_padded(&mut out, (-t.year) as u64, 3);
    } else {
        push_padded(&mut out, t.year as u64, 4);
    }
    out.push('-');
    push_padded(&mut out, t.month as u64, 2);
    out.push('-');
    push_padded(&mut out, t.day as u64, 2);
    out.push('T');
    push_padded(&mut out, t.hour as u64, 2);
    out.push(':');
    push_padded(&mut out, t.minute as u64, 2);
    out.push(':');
    push_padded(&mut out, t.second as u64, 2);
    text::push_str(&mut out, ".000Z");
    assert(out@ =~= timestamp(*t));
    text::string_of(out.as_slice())
}

/// The present moment for the `tos` field.
pub fn current_tos() -> (out: String)
    ensures
        exists|t: UtcTime| system::in_calendar(t) && out@ == #[trigger] timestamp(t),
{
    let now = system::utc_now();
    tos_text(&now)
}

// ---------------------------------------------------------------------------
// Registration

/// The body of a registration request.
#[derive(Clone, Debug, PartialEq, Eq)]
pub struct TeamsRegisterRequest {
    pub key: String,
    pub install_id: String,
    pub fcm_token: String,
    pub tos: String,
    pub model: String,
    pub serial_number: String,
    pub locale: String,
}

/// Why no account came of it.
#[derive(Clone, Copy, Debug, PartialEq, Eq, Structural)]
pub enum TeamsError {
    MissingToken,
    TokenExpired,
    RetriesExhausted,
}

impl TeamsError {
    /// The message for the user.
    pub open spec fn text(self) -> Seq<char> {
        match self {
            TeamsError::MissingToken => "必须提供 TEAMS_TOKEN。"@,
            TeamsError::TokenExpired => "registration token 已过期，请重新获取。"@,
            TeamsError::RetriesExhausted => "Teams 注册失败，已达到最大重试次数。"@,
        }
    }

    /// The message for the user.
    pub fn message(&self) -> (s: &'static str)
        ensures
            s@ == self.text(),
    {
        match self {
            TeamsError::MissingToken => "必须提供 TEAMS_TOKEN。",
            TeamsError::TokenExpired => "registration token 已过期，请重新获取。",
            TeamsError::RetriesExhausted => "Teams 注册失败，已达到最大重试次数。",
        }
    }
}

/// Registration with a Teams token: where the account is kept, how often it is
/// tried, and the seconds between the first two tries.
#[derive(Clone, Debug, PartialEq, Eq)]
pub struct TeamsRegistrar {
    pub token: String,
    pub account_path: String,
    pub retries: u32,
    pub retry_delay: u64,
}

/// A registration under way: the keys and identifiers that every try repeats,
/// and the number of the present try.
#[derive(Clone, Debug, PartialEq, Eq)]
pub struct TeamsSession {
    pub token: String,
    pub private_key: String,
    pub public_key: String,
    pub install_id: String,
    pub fcm_token: String,
    pub retries: u32,
    pub retry_delay: u64,
    pub attempt: u32,
}

/// What a reply calls for.
#[derive(Clone, Copy, Debug, PartialEq, Eq, Structural)]
pub enum TeamsStep {
    /// The reply is an account.
    Accept,
    /// No account will come.
    Fail(TeamsError),
    /// Try again after this many seconds.
    RetryAfter(u64),
}

/// The key pair belongs together, and the identifiers have their form.
pub open spec fn session_holds(s: TeamsSession, r: TeamsRegistrar) -> bool {
    &&& s.token@ == token_of(r.token@)
    &&& exists|secret: Seq<u8>|
        secret.len() == 32 && s.private_key@ == #[trigger] b64::base64_text(secret)
            && s.public_key@ == b64::base64_text(keys::x25519_public(secret))
    &&& is_alnum_text(s.install_id@, 22)
    &&& exists|tail: Seq<char>| #[trigger]
        is_alnum_text(tail, 134) && s.fcm_token@ == s.install_id@ + ":APA91b"@ + tail
    &&& s.retries == if r.retries == 0 {
        1
    } else {
        r.retries
    }
    &&& s.retry_delay == r.retry_delay
    &&& s.attempt == 1
}

/// Seconds before the next try: the delay times the number of this try, but no
/// less than the server asks for.
pub open spec fn retry_wait(delay: u64, attempt: u32, retry_after: Option<nat>) -> nat {
    let product = delay * attempt;
    let own = if product > u64::MAX {
        u64::MAX as nat
    } else {
        product as nat
    };
    match retry_after {
        Some(asked) => if asked > own {
            asked
        } else {
            own
        },
        None => own,
    }
}

/// The seconds of a `Retry-After` header, if it is a number of seconds.
pub open spec fn seconds_asked(header: Option<Seq<char>>) -> Option<nat> {
    match header {
        Some(h) => text::parsed_up_to(text::trimmed(h), u64::MAX as nat),
        None => None,
    }
}

/// What a reply calls for: an account with status 200 ends it well; an expired
/// token or the last try ends it badly; anything else is tried again.
pub open spec fn step_for(
    attempt: u32,
    retries: u32,
    delay: u64,
    status: Option<u16>,
    retry_after: Option<Seq<char>>,
    body: Seq<char>,
    has_account: bool,
) -> TeamsStep {
    if status == Some(200u16) && has_account {
        TeamsStep::Accept
    } else if status == Some(401u16) && text::occurs_in(body, "token is expired"@) {
        TeamsStep::Fail(TeamsError::TokenExpired)
    } else if attempt >= retries {
        TeamsStep::Fail(TeamsError::RetriesExhausted)
    } else {
        TeamsStep::RetryAfter(retry_wait(delay, attempt, seconds_asked(retry_after)) as u64)
    }
}

/// The view of an optional text.
pub open spec fn text_opt(s: Option<&str>) -> Option<Seq<char>> {
    match s {
        Some(t) => Some(t@),
        None => None,
    }
}

impl TeamsRegistrar {
    /// A registration that is tried twice, with two seconds between.
    pub fn new(token: &str, account_path: &str) -> (r: Self)
        ensures
            r.token@ == token@,
            r.account_path@ == account_path@,
            r.retries == 2,
            r.retry_delay == 2,
    {
        TeamsRegistrar {
            token: token.to_owned(),
            account_path: account_path.to_owned(),
            retries: 2,
            retry_delay: 2,
        }
    }

    /// Draws the keys and identifiers for a registration. Without a token there
    /// is nothing to register with.
    pub fn start(&self) -> (r: Result<TeamsSession, TeamsError>)
        ensures
            match r {
                Ok(s) => token_of(self.token@).len() > 0 && session_holds(s, *self),
                Err(e) => token_of(self.token@).len() == 0 && e == TeamsError::MissingToken,
            },
    {
        let token = normalize_token(self.token.as_str());
        if token.as_str().unicode_len() == 0 {
            return Err(TeamsError::MissingToken);
        }
        let secret = keys::random_secret();
        let public = keys::public_key(&secret);
        let private_key = b64::encode(&secret);
        let public_key = b64::encode(&public);
        let install_id = random_alnum(22);
        let tail = random_alnum(134);
        let mut fcm: Vec<char> = Vec::new();
        text::push_str(&mut fcm, install_id.as_str());
        text::push_str(&mut fcm, ":APA91b");
        text::push_str(&mut fcm, tail.as_str());
        let fcm_token = text::string_of(fcm.as_slice());
        let retries: u32 = if self.retries == 0 {
            1
        } else {
            self.retries
        };
        proof {
            assert(fcm_token@ =~= install_id@ + ":APA91b"@ + tail@);
            assert(private_key@ == b64::base64_text(secret@));
            assert(is_alnum_text(tail@, 134));
        }
        Ok(
            TeamsSession {
                token,
                private_key,
                public_key,
                install_id,
                fcm_token,
                retries,
                retry_delay: self.retry_delay,
                attempt: 1,
            },
        )
    }
}

/// What a reply calls for, given whether its body has an account.
pub fn decide(
    attempt: u32,
    retries: u32,
    delay: u64,
    status: Option<u16>,
    retry_after: Option<&str>,
    body: &str,
    has_account: bool,
) -> (r: TeamsStep)
    ensures
        r == step_for(attempt, retries, delay, status, text_opt(retry_after), body@, has_account),
{
    if has_account {
        if let Some(200) = status {
            return TeamsStep::Accept;
        }
    }
    if let Some(401) = status {
        let chars = text::chars_of(body);
        if text::find_last(chars.as_slice(), "token is expired").is_some() {
            return TeamsStep::Fail(TeamsError::TokenExpired);
        }
    }
    if attempt >= retries {
        return TeamsStep::Fail(TeamsError::RetriesExhausted);
    }
    let own: u64 = match delay.checked_mul(attempt as u64) {
        Some(v) => v,
        None => u64::MAX,
    };
    let wait: u64 = match retry_after {
        None => own,
        Some(h) => {
            let chars = text::chars_of(h);
            let t = text::trim(chars.as_slice());
            match text::parse_up_to(t.as_slice(), u64::MAX) {
                Some(asked) => if asked > own {
                    asked
                } else {
                    own
                },
                None => own,
            }
        },
    };
    TeamsStep::RetryAfter(wait)
}

impl TeamsSession {
    /// The body of the request.
    pub fn request(&self, tos: String) -> (r: TeamsRegisterRequest)
        ensures
            r.key@ == self.public_key@,
            r.install_id@ == self.install_id@,
            r.fcm_token@ == self.fcm_token@,
            r.tos@ == tos@,
            r.model@ == "PC"@,
            r.serial_number@ == self.install_id@,
            r.locale@ == "zh_CN"@,
    {
        TeamsRegisterRequest {
            key: self.public_key.clone(),
            install_id: self.install_id.clone(),
            fcm_token: self.fcm_token.clone(),
            tos,
            model: "PC".to_owned(),
            serial_number: self.install_id.clone(),
            locale: "zh_CN".to_owned(),
        }
    }

    /// Takes a reply: its status and body, or the error in place of a body
    /// where the request got no answer. The next try has the next number.
    pub fn on_reply(&mut self, status: Option<u16>, retry_after: Option<&str>, body: &str) -> (r:
        TeamsStep)
        ensures
            r == step_for(
                old(self).attempt,
                old(self).retries,
                old(self).retry_delay,
                status,
                text_opt(retry_after),
                body@,
                json::json_member_is_null(body@, "account"@) == Some(false),
            ),
            *final(self) == (TeamsSession {
                attempt: if r is RetryAfter {
                    (old(self).attempt + 1) as u32
                } else {
                    old(self).attempt
                },
                ..*old(self)
            }),
    {
        let has_account: bool = match json::member_is_null(body, "account") {
            Some(is_null) => !is_null,
            None => false,
        };
        let step = decide(
            self.attempt,
            self.retries,
            self.retry_delay,
            status,
            retry_after,
            body,
            has_account,
        );
        if let TeamsStep::RetryAfter(_) = step {
            self.attempt = self.attempt + 1;
        }
        step
    }

    /// The account of an accepted reply, with the private key of this session.
    pub fn finish(&self, account: WgAccount) -> (r: WgAccount)
        ensures
            r.private_key@ == self.private_key@,
            r.config == account.config,
    {
        WgAccount { private_key: self.private_key.clone(), config: account.config }
    }
}

/// What a log shows of a reply: its words, at most 220 characters.
pub fn summarize(body: &str) -> (out: String)
    ensures
        out@ == text::summary(body@, 220),
{
    text::summarize(body, 220)
}

/// Every registration ends: a reply that is tried again leaves fewer tries.
pub proof fn lemma_tries_run_out(
    attempt: u32,
    retries: u32,
    delay: u64,
    status: Option<u16>,
    retry_after: Option<Seq<char>>,
    body: Seq<char>,
    has_account: bool,
)
    ensures
        step_for(attempt, retries, delay, status, retry_after, body, has_account) is RetryAfter
            ==> attempt + 1 <= retries,
{
}

/// The wait before the next try is what the server asks for or more, and it
/// grows with the number of the try.
pub proof fn lemma_wait_is_long_enough(
    attempt: u32,
    retries: u32,
    delay: u64,
    status: Option<u16>,
    retry_after: Option<Seq<char>>,
    body: Seq<char>,
    has_account: bool,
)
    ensures
        step_for(attempt, retries, delay, status, retry_after, body, has_account) matches
            TeamsStep::RetryAfter(secs) ==> {
            &&& seconds_asked(retry_after) matches Some(asked) ==> secs >= asked
            &&& secs >= delay * attempt || secs == u64::MAX
        },
{
}

// ---------------------------------------------------------------------------
// wg0.conf

/// The base64 text with equals signs up to a multiple of four bytes.
pub open spec fn filled_up(client_id: Seq<char>) -> Seq<char> {
    let n = encode_utf8(client_id).len() as int;
    client_id + Seq::new(((4 - n % 4) % 4) as nat, |i: int| '=')
}

/// The three bytes that mark a client's packets: the first bytes of its
/// identifier, zeros where it has none or is no base64.
pub open spec fn reserved_from(client_id: Seq<char>) -> Seq<u8> {
    match b64::base64_bytes(filled_up(client_id)) {
        Some(b) => Seq::new(
            3,
            |i: int|
                if i < b.len() {
                    b[i]
                } else {
                    0
                },
        ),
        None => seq![0u8, 0, 0],
    }
}

/// The three bytes that mark a client's packets.
pub fn reserved_bytes(client_id: &str) -> (r: [u8; 3])
    ensures
        r@ == reserved_from(client_id@),
{
    let mut padded: Vec<char> = text::chars_of(client_id);
    let n: usize = client_id.as_bytes().len();
    let missing: usize = (4 - n % 4) % 4;
    let mut i: usize = 0;
    assert(padded@ =~= client_id@ + Seq::new(0, |i: int| '='));
    while i < missing
        invariant
            i <= missing,
            padded@ == client_id@ + Seq::new(i as nat, |i: int| '='),
        decreases missing - i,
    {
        padded.push('=');
        i += 1;
        assert(padded@ =~= client_id@ + Seq::new(i as nat, |i: int| '='));
    }
    assert(padded@ =~= filled_up(client_id@));
    let s = text::string_of(padded.as_slice());
    let mut r: [u8; 3] = [0, 0, 0];
    if let Some(b) = b64::decode(s.as_str()) {
        if b.len() > 0 {
            r[0] = b[0];
        }
        if b.len() > 1 {
            r[1] = b[1];
        }
        if b.len() > 2 {
            r[2] = b[2];
        }
    }
    assert(r@ =~= reserved_from(client_id@));
    r
}

/// An address with a prefix length, `suffix` where it has none.
pub open spec fn with_cidr(a: Seq<char>, suffix: Seq<char>) -> Seq<char> {
    if a.contains('/') {
        a
    } else {
        a + suffix
    }
}

fn ensure_cidr(a: &str, suffix: &str) -> (out: Vec<char>)
    ensures
        out@ == with_cidr(a@, suffix@),
{
    let mut out = text::chars_of(a);
    if !text::contains_char(out.as_slice(), '/') {
        text::push_str(&mut out, suffix);
    }
    out
}

/// An IPv4 address as a network of one host.
pub fn ensure_v4_cidr(a: &str) -> (out: String)
    ensures
        out@ == with_cidr(a@, "/32"@),
{
    let out = ensure_cidr(a, "/32");
    text::string_of(out.as_slice())
}

/// An IPv6 address as a network of one host.
pub fn ensure_v6_cidr(a: &str) -> (out: String)
    ensures
        out@ == with_cidr(a@, "/128"@),
{
    let out = ensure_cidr(a, "/128");
    text::string_of(out.as_slice())
}

/// Why an account gives no `wg0.conf`.
#[derive(Clone, Copy, Debug, PartialEq, Eq, Structural)]
pub enum AccountError {
    PrivateKey,
    Peer,
    PeerPublicKey,
    Ipv4Address,
    Ipv6Address,
}

impl AccountError {
    /// The message for the user.
    pub open spec fn text(self) -> Seq<char> {
        match self {
            AccountError::PrivateKey => "WireGuard 配置缺少 PrivateKey。"@,
            AccountError::Peer => "账户信息缺少 Peer 公钥/endpoint。"@,
            AccountError::PeerPublicKey => "WireGuard 配置缺少 Peer PublicKey。"@,
            AccountError::Ipv4Address => "账户信息缺少 IPv4 地址。"@,
            AccountError::Ipv6Address => "账户信息缺少 IPv6 地址。"@,
        }
    }

    /// The message for the user.
    pub fn message(&self) -> (s: &'static str)
        ensures
            s@ == self.text(),
    {
        match self {
            AccountError::PrivateKey => "WireGuard 配置缺少 PrivateKey。",
            AccountError::Peer => "账户信息缺少 Peer 公钥/endpoint。",
            AccountError::PeerPublicKey => "WireGuard 配置缺少 Peer PublicKey。",
            AccountError::Ipv4Address => "账户信息缺少 IPv4 地址。",
            AccountError::Ipv6Address => "账户信息缺少 IPv6 地址。",
        }
    }
}

/// The first thing that an account lacks.
pub open spec fn account_lacks(a: WgAccount) -> Option<AccountError> {
    if a.private_key@.len() == 0 {
        Some(AccountError::PrivateKey)
    } else if a.config.peers@.len() == 0 {
        Some(AccountError::Peer)
    } else if a.config.peers@[0].public_key@.len() == 0 {
        Some(AccountError::PeerPublicKey)
    } else if a.config.interface.addresses.v4@.len() == 0 {
        Some(AccountError::Ipv4Address)
    } else if a.config.interface.addresses.v6@.len() == 0 {
        Some(AccountError::Ipv6Address)
    } else {
        None
    }
}

/// The endpoint of a tunnel: the one asked for, else the one of the peer, else
/// the public one.
pub open spec fn chosen_endpoint(asked: Option<Seq<char>>, host: Seq<char>) -> Seq<char> {
    if asked is Some && asked->Some_0.len() > 0 {
        asked->Some_0
    } else if host.len() > 0 {
        host
    } else {
        "engage.cloudflareclient.com:2408"@
    }
}

/// The lines of `wg0.conf`.
pub open spec fn conf_lines(
    private_key: Seq<char>,
    v4: Seq<char>,
    v6: Seq<char>,
    public_key: Seq<char>,
    endpoint: Seq<char>,
    reserved: Seq<u8>,
) -> Seq<Seq<char>> {
    seq![
        "[Interface]"@,
        "PrivateKey = "@ + private_key,
        "Address = "@ + v4,
        "Address = "@ + v6,
        Seq::empty(),
        "[Peer]"@,
        "PublicKey = "@ + public_key,
        "AllowedIPs = 0.0.0.0/0,::/0"@,
        "Endpoint = "@ + endpoint,
        "Reserved = "@ + text::decimal(reserved[0] as nat) + seq![','] + text::decimal(
            reserved[1] as nat,
        ) + seq![','] + text::decimal(reserved[2] as nat),
    ]
}

/// The lines of the `wg0.conf` of an account.
pub open spec fn account_lines(a: WgAccount, asked: Option<Seq<char>>) -> Seq<Seq<char>> {
    conf_lines(
        a.private_key@,
        with_cidr(a.config.interface.addresses.v4@, "/32"@),
        with_cidr(a.config.interface.addresses.v6@, "/128"@),
        a.config.peers@[0].public_key@,
        chosen_endpoint(asked, a.config.peers@[0].endpoint.host@),
        reserved_from(a.config.client_id@),
    )
}

fn push_line(out: &mut Vec<char>, lines: Ghost<Seq<Seq<char>>>, line: &[char])
    requires
        old(out)@ == text::joined_lines(lines@),
    ensures
        final(out)@ == text::joined_lines(lines@.push(line@)),
{
    text::push_chars(out, line);
    out.push('\n');
    proof {
        lemma_join_push(lines@, line@);
        assert(out@ =~= text::joined_lines(lines@) + line@ + seq!['\n']);
    }
}

proof fn lemma_join_push(ls: Seq<Seq<char>>, l: Seq<char>)
    ensures
        text::joined_lines(ls.push(l)) == text::joined_lines(ls) + l + seq!['\n'],
    decreases ls.len(),
{
    if ls.len() == 0 {
        assert(ls.push(l).drop_first() =~= Seq::<Seq<char>>::empty());
        assert(text::joined_lines(ls.push(l).drop_first()) == Seq::<char>::empty());
        assert(text::joined_lines(ls.push(l)) =~= l + seq!['\n']);
        assert(text::joined_lines(ls) + l + seq!['\n'] =~= l + seq!['\n']);
    } else {
        assert(ls.push(l).drop_first() =~= ls.drop_first().push(l));
        lemma_join_push(ls.drop_first(), l);
        assert(text::joined_lines(ls.push(l)) =~= ls[0] + seq!['\n'] + (text::joined_lines(
            ls.drop_first(),
        ) + l + seq!['\n']));
        assert(text::joined_lines(ls.push(l)) =~= text::joined_lines(ls) + l + seq!['\n']);
    }
}

fn setting(key: &str, value: &[char]) -> (out: Vec<char>)
    ensures
        out@ == key@ + value@,
{
    let mut out = text::chars_of(key);
    text::push_chars(&mut out, value);
    out
}

/// The text of the `wg0.conf` of an account; `endpoint_override`, where it is
/// not empty, takes the place of the account's own endpoint.
pub fn write_wg_conf(account: &WgAccount, endpoint_override: Option<&str>) -> (r: Result<
    String,
    AccountError,
>)
    ensures
        match account_lacks(*account) {
            Some(e) => r == Err::<String, AccountError>(e),
            None => r matches Ok(s) && s@ == text::joined_lines(
                account_lines(*account, text_opt(endpoint_override)),
            ),
        },
{
    if account.private_key.as_str().unicode_len() == 0 {
        return Err(AccountError::PrivateKey);
    }
    if account.config.peers.len() == 0 {
        return Err(AccountError::Peer);
    }
    let peer = &account.config.peers[0];
    if peer.public_key.as_str().unicode_len() == 0 {
        return Err(AccountError::PeerPublicKey);
    }
    let v4 = &account.config.interface.addresses.v4;
    let v6 = &account.config.interface.addresses.v6;
    if v4.as_str().unicode_len() == 0 {
        return Err(AccountError::Ipv4Address);
    }
    if v6.as_str().unicode_len() == 0 {
        return Err(AccountError::Ipv6Address);
    }
    let mut endpoint: Vec<char> = Vec::new();
    match endpoint_override {
        Some(e) => text::push_str(&mut endpoint, e),
        None => {},
    }
    if endpoint.len() == 0 {
        text::push_str(&mut endpoint, peer.endpoint.host.as_str());
    }
    if endpoint.len() == 0 {
        text::push_str(&mut endpoint, "engage.cloudflareclient.com:2408");
    }
    assert(endpoint@ =~= chosen_endpoint(text_opt(endpoint_override), peer.endpoint.host@));
    let reserved = reserved_bytes(account.config.client_id.as_str());
    let mut marks: Vec<char> = Vec::new();
    text::push_decimal(&mut marks, reserved[0] as u64);
    marks.push(',');
    text::push_decimal(&mut marks, reserved[1] as u64);
    marks.push(',');
    text::push_decimal(&mut marks, reserved[2] as u64);
    let private_key = text::chars_of(account.private_key.as_str());
    let public_key = text::chars_of(peer.public_key.as_str());
    let cidr4 = ensure_cidr(v4.as_str(), "/32");
    let cidr6 = ensure_cidr(v6.as_str(), "/128");

    let l0 = text::chars_of("[Interface]");
    let l1 = setting("PrivateKey = ", private_key.as_slice());
    let l2 = setting("Address = ", cidr4.as_slice());
    let l3 = setting("Address = ", cidr6.as_slice());
    let l4: Vec<char> = Vec::new();
    let l5 = text::chars_of("[Peer]");
    let l6 = setting("PublicKey = ", public_key.as_slice());
    let l7 = text::chars_of("AllowedIPs = 0.0.0.0/0,::/0");
    let l8 = setting("Endpoint = ", endpoint.as_slice());
    let l9 = setting("Reserved = ", marks.as_slice());

    let mut out: Vec<char> = Vec::new();
    let ghost e = Seq::<Seq<char>>::empty();
    push_line(&mut out, Ghost(e), l0.as_slice());
    push_line(&mut out, Ghost(e.push(l0@)), l1.as_slice());
    push_line(&mut out, Ghost(e.push(l0@).push(l1@)), l2.as_slice());
    push_line(&mut out, Ghost(e.push(l0@).push(l1@).push(l2@)), l3.as_slice());
    let ghost h = e.push(l0@).push(l1@).push(l2@).push(l3@);
    push_line(&mut out, Ghost(h), l4.as_slice());
    push_line(&mut out, Ghost(h.push(l4@)), l5.as_slice());
    push_line(&mut out, Ghost(h.push(l4@).push(l5@)), l6.as_slice());
    push_line(&mut out, Ghost(h.push(l4@).push(l5@).push(l6@)), l7.as_slice());
    let ghost t = h.push(l4@).push(l5@).push(l6@).push(l7@);
    push_line(&mut out, Ghost(t), l8.as_slice());
    push_line(&mut out, Ghost(t.push(l8@)), l9.as_slice());
    proof {
        let lines = account_lines(*account, text_opt(endpoint_override));
        assert(l4@ =~= Seq::<char>::empty());
        assert(l9@ =~= lines[9]);
        assert(t.push(l8@).push(l9@) =~= lines);
    }
    Ok(text::string_of(out.as_slice()))
}

/// Text that stands on one line as it is: not empty, no line feed, no white
/// space at its ends.
pub open spec fn is_clean(s: Seq<char>) -> bool {
    s.len() > 0 && !s.contains('\n') && !text::is_space(s[0]) && !text::is_space(s.last())
}

/// A setting with a clean value is read as its key and its value.
proof fn lemma_setting(head: Seq<char>, key: Seq<char>, value: Seq<char>)
    requires
        head == key + seq![' ', '=', ' '],
        key.len() > 0,
        !text::is_space(key[0]),
        !text::is_space(key.last()),
        !key.contains('='),
        is_clean(value),
    ensures
        config::setting_of(head + value) == Some((key, value)),
{
    let line = head + value;
    assert(line[0] == key[0]);
    assert(line.last() == value.last());
    text::lemma_trimmed_unchanged(line);
    let n = key.len() as int + 1;
    assert forall|k: int| 0 <= k < n implies line[k] != '=' by {
        if k < key.len() {
            assert(line[k] == key[k]);
            assert(key.contains(key[k]));
        }
    }
    text::lemma_first_at_is(line, '=', n);
    let left = line.take(n);
    let right = line.skip(n + 1);
    assert(left =~= key.push(' '));
    assert(right =~= seq![' '] + value);
    assert(left.drop_last() =~= key);
    assert(text::trim_start(left) == left);
    assert(text::is_space(' '));
    assert(text::trim_end(left) == text::trim_end(key));
    assert(right.drop_first() =~= value);
    assert(text::trim_start(right) == text::trim_start(value));
}

proof fn lemma_line_is_line(head: Seq<char>, value: Seq<char>)
    requires
        is_clean(value),
        !head.contains('\n'),
    ensures
        !(head + value).contains('\n'),
        (head + value).last() != '\r',
        (head + value).len() > 0,
{
    let line = head + value;
    assert forall|k: int| 0 <= k < line.len() implies line[k] != '\n' by {
        if k < head.len() {
            assert(head.contains(head[k]));
        } else {
            assert(value.contains(value[k - head.len()]));
        }
    }
    assert(line.last() == value.last());
    assert(text::is_space('\r'));
}

spec fn marks_text(r: Seq<u8>) -> Seq<char> {
    text::decimal(r[0] as nat) + seq![','] + text::decimal(r[1] as nat) + seq![',']
        + text::decimal(r[2] as nat)
}

proof fn lemma_mark(n: u8)
    ensures
        !text::decimal(n as nat).contains(','),
        !text::decimal(n as nat).contains('\n'),
        text::decimal(n as nat).len() > 0,
        !text::is_space(text::decimal(n as nat)[0]),
        !text::is_space(text::decimal(n as nat).last()),
        text::parsed_up_to(text::trimmed(text::decimal(n as nat)), 255) == Some(n as nat),
{
    let d = text::decimal(n as nat);
    text::lemma_decimal(n as nat);
    text::lemma_decimal_read_back(n as nat);
    assert forall|k: int| 0 <= k < d.len() implies d[k] != ',' && d[k] != '\n' by {
        assert(text::is_digit(d[k]));
    }
    assert(text::is_digit(d[0]) && text::is_digit(d[d.len() - 1]));
    text::lemma_trimmed_unchanged(d);
}

proof fn lemma_marks(r: Seq<u8>)
    requires
        r.len() == 3,
    ensures
        is_clean(marks_text(r)),
        config::reserved_of(marks_text(r)) == Ok::<Seq<u8>, config::WgConfFault>(r),
{
    let a = text::decimal(r[0] as nat);
    let b = text::decimal(r[1] as nat);
    let c = text::decimal(r[2] as nat);
    lemma_mark(r[0]);
    lemma_mark(r[1]);
    lemma_mark(r[2]);
    let s = marks_text(r);
    addr::lemma_split_one(c, ',');
    addr::lemma_split_cons(b, ',', c);
    addr::lemma_split_cons(a, ',', b + seq![','] + c);
    assert(s =~= a + seq![','] + (b + seq![','] + c));
    assert(text::split_at_char(s, ',') =~= seq![a, b, c]);
    assert(r =~= seq![r[0], r[1], r[2]]);
    assert(s[0] == a[0]);
    assert(s.last() == c.last());
    assert forall|k: int| 0 <= k < s.len() implies s[k] != '\n' by {
        let x = a.len() as int;
        let y = x + 1 + b.len();
        if k < x {
            assert(a.contains(a[k]));
        } else if k > x && k < y {
            assert(b.contains(b[k - x - 1]));
        } else if k > y {
            assert(c.contains(c[k - y - 1]));
        }
    }
}

/// The texts of a `wg0.conf` are clean, and each can be read: the keys as 32
/// bytes, the addresses as one of each family, the endpoint as an address.
pub open spec fn conf_is_readable(
    private_key: Seq<char>,
    v4: Seq<char>,
    v6: Seq<char>,
    public_key: Seq<char>,
    endpoint: Seq<char>,
) -> bool {
    &&& is_clean(private_key)
    &&& is_clean(v4)
    &&& is_clean(v6)
    &&& is_clean(public_key)
    &&& is_clean(endpoint)
    &&& config::key_bytes(private_key) is Ok
    &&& config::key_bytes(public_key) is Ok
    &&& config::address_of(v4) is Ok
    &&& config::address_of(v4)->Ok_0.len() == 4
    &&& config::address_of(v6) is Ok
    &&& config::address_of(v6)->Ok_0.len() != 4
    &&& addr::socket_parts(endpoint) is Some
}

proof fn lemma_known_settings(
    private_key: Seq<char>,
    address: Seq<char>,
    public_key: Seq<char>,
    endpoint: Seq<char>,
    reserved: Seq<u8>,
)
    requires
        is_clean(private_key),
        is_clean(address),
        is_clean(public_key),
        is_clean(endpoint),
        reserved.len() == 3,
    ensures
        config::setting_of("PrivateKey = "@ + private_key) == Some(("PrivateKey"@, private_key)),
        config::setting_of("Address = "@ + address) == Some(("Address"@, address)),
        config::setting_of("PublicKey = "@ + public_key) == Some(("PublicKey"@, public_key)),
        config::setting_of("Endpoint = "@ + endpoint) == Some(("Endpoint"@, endpoint)),
        config::setting_of("Reserved = "@ + marks_text(reserved)) == Some(
            ("Reserved"@, marks_text(reserved)),
        ),
{
    reveal_strlit("PrivateKey = ");
    reveal_strlit("PrivateKey");
    reveal_strlit("Address = ");
    reveal_strlit("Address");
    reveal_strlit("PublicKey = ");
    reveal_strlit("PublicKey");
    reveal_strlit("Endpoint = ");
    reveal_strlit("Endpoint");
    reveal_strlit("Reserved = ");
    reveal_strlit("Reserved");
    lemma_marks(reserved);
    let eq = seq![' ', '=', ' '];
    assert("PrivateKey = "@ =~= "PrivateKey"@ + eq);
    lemma_setting("PrivateKey = "@, "PrivateKey"@, private_key);
    assert("Address = "@ =~= "Address"@ + eq);
    lemma_setting("Address = "@, "Address"@, address);
    assert("PublicKey = "@ =~= "PublicKey"@ + eq);
    lemma_setting("PublicKey = "@, "PublicKey"@, public_key);
    assert("Endpoint = "@ =~= "Endpoint"@ + eq);
    lemma_setting("Endpoint = "@, "Endpoint"@, endpoint);
    assert("Reserved = "@ =~= "Reserved"@ + eq);
    lemma_setting("Reserved = "@, "Reserved"@, marks_text(reserved));
}

proof fn lemma_other_lines()
    ensures
        config::setting_of("[Interface]"@) is None,
        config::setting_of(Seq::empty()) is None,
        config::setting_of("[Peer]"@) is None,
        config::setting_of("AllowedIPs = 0.0.0.0/0,::/0"@) == Some(
            ("AllowedIPs"@, "0.0.0.0/0,::/0"@),
        ),
{
    reveal_strlit("[Interface]");
    reveal_strlit("[Peer]");
    reveal_strlit("AllowedIPs = 0.0.0.0/0,::/0");
    reveal_strlit("AllowedIPs");
    reveal_strlit("0.0.0.0/0,::/0");
    let a = "[Interface]"@;
    text::lemma_trimmed_unchanged(a);
    text::lemma_first_at_is(a, '=', a.len() as int);
    let b = "[Peer]"@;
    text::lemma_trimmed_unchanged(b);
    text::lemma_first_at_is(b, '=', b.len() as int);
    let e = Seq::<char>::empty();
    text::lemma_trimmed_unchanged(e);
    let value = "0.0.0.0/0,::/0"@;
    let key = "AllowedIPs"@;
    let head = key + seq![' ', '=', ' '];
    assert("AllowedIPs = 0.0.0.0/0,::/0"@ =~= head + value);
    lemma_setting(head, key, value);
}

proof fn lemma_conf_lines_are_lines(
    private_key: Seq<char>,
    v4: Seq<char>,
    v6: Seq<char>,
    public_key: Seq<char>,
    endpoint: Seq<char>,
    reserved: Seq<u8>,
)
    requires
        is_clean(private_key),
        is_clean(v4),
        is_clean(v6),
        is_clean(public_key),
        is_clean(endpoint),
        reserved.len() == 3,
    ensures
        text::lines_of(
            text::joined_lines(conf_lines(private_key, v4, v6, public_key, endpoint, reserved)),
        ) == conf_lines(private_key, v4, v6, public_key, endpoint, reserved),
{
    let ls = conf_lines(private_key, v4, v6, public_key, endpoint, reserved);
    reveal_strlit("[Interface]");
    reveal_strlit("[Peer]");
    reveal_strlit("AllowedIPs = 0.0.0.0/0,::/0");
    reveal_strlit("PrivateKey = ");
    reveal_strlit("Address = ");
    reveal_strlit("PublicKey = ");
    reveal_strlit("Endpoint = ");
    reveal_strlit("Reserved = ");
    lemma_marks(reserved);
    lemma_line_is_line("PrivateKey = "@, private_key);
    lemma_line_is_line("Address = "@, v4);
    lemma_line_is_line("Address = "@, v6);
    lemma_line_is_line("PublicKey = "@, public_key);
    lemma_line_is_line("Endpoint = "@, endpoint);
    lemma_line_is_line("Reserved = "@, marks_text(reserved));
    assert(ls[9] =~= "Reserved = "@ + marks_text(reserved));
    assert forall|i: int| 0 <= i < ls.len() implies !(#[trigger] ls[i]).contains('\n') by {
        if i == 0 || i == 4 || i == 5 || i == 7 {
            assert forall|k: int| 0 <= k < ls[i].len() implies ls[i][k] != '\n' by {}
        }
    }
    assert forall|i: int| 0 <= i < ls.len() && (#[trigger] ls[i]).len() > 0 implies ls[i].last()
        != '\r' by {}
    text::lemma_joined_lines(ls);
}

/// What a written `wg0.conf` says when it is read: the keys, addresses,
/// endpoint and reserved bytes that it was written from. No name is looked up.
pub proof fn lemma_conf_read_back(
    private_key: Seq<char>,
    v4: Seq<char>,
    v6: Seq<char>,
    public_key: Seq<char>,
    endpoint: Seq<char>,
    reserved: Seq<u8>,
    answers: Seq<config::Resolution>,
)
    requires
        conf_is_readable(private_key, v4, v6, public_key, endpoint),
        reserved.len() == 3,
    ensures
        config::draft_of(
            text::lines_of(
                text::joined_lines(conf_lines(private_key, v4, v6, public_key, endpoint, reserved)),
            ),
            answers,
        ) == Ok::<config::Draft, config::WgConfFault>(
            config::Draft {
                private_key: Some(config::key_bytes(private_key)->Ok_0),
                peer_public_key: Some(config::key_bytes(public_key)->Ok_0),
                endpoint: addr::socket_parts(endpoint),
                reserved,
                address_v4: Some(config::address_of(v4)->Ok_0),
                address_v6: Some(config::address_of(v6)->Ok_0),
                names: 0,
            },
        ),
{
    let ls = conf_lines(private_key, v4, v6, public_key, endpoint, reserved);
    lemma_conf_lines_are_lines(private_key, v4, v6, public_key, endpoint, reserved);
    assert(ls[9] =~= "Reserved = "@ + marks_text(reserved));
    let d0 = config::empty_draft();
    let d1 = config::Draft { private_key: Some(config::key_bytes(private_key)->Ok_0), ..d0 };
    let d2 = config::Draft { address_v4: Some(config::address_of(v4)->Ok_0), ..d1 };
    let d3 = config::Draft { address_v6: Some(config::address_of(v6)->Ok_0), ..d2 };
    let d6 = config::Draft { peer_public_key: Some(config::key_bytes(public_key)->Ok_0), ..d3 };
    let d8 = config::Draft { endpoint: addr::socket_parts(endpoint), ..d6 };
    let d9 = config::Draft { reserved, ..d8 };
    lemma_plain_lines(d0, answers);
    lemma_plain_lines(d3, answers);
    lemma_plain_lines(d6, answers);
    lemma_private_key_line(d0, private_key, answers);
    lemma_address_line(d1, v4, answers);
    lemma_address_line(d2, v6, answers);
    lemma_public_key_line(d3, public_key, answers);
    lemma_endpoint_line(d6, endpoint, answers);
    lemma_reserved_line(d8, reserved, answers);
    lemma_draft_step(ls, answers, 0, d0, d0);
    lemma_draft_step(ls, answers, 1, d0, d1);
    lemma_draft_step(ls, answers, 2, d1, d2);
    lemma_draft_step(ls, answers, 3, d2, d3);
    lemma_draft_step(ls, answers, 4, d3, d3);
    lemma_draft_step(ls, answers, 5, d3, d3);
    lemma_draft_step(ls, answers, 6, d3, d6);
    lemma_draft_step(ls, answers, 7, d6, d6);
    lemma_draft_step(ls, answers, 8, d6, d8);
    lemma_draft_step(ls, answers, 9, d8, d9);
    assert(ls.take(10) =~= ls);
}

/// The text is this IP address, perhaps with a prefix length behind a slash.
pub open spec fn spells_address(s: Seq<char>, octets: Seq<u8>) -> bool {
    exists|ip: Seq<char>, prefix: Seq<char>| #[trigger]
        is_address_with(s, ip, prefix) && addr::ip_octets(ip) == Some(octets)
}

/// The text is `ip`, or `ip` and digits behind a slash.
pub open spec fn is_address_with(s: Seq<char>, ip: Seq<char>, prefix: Seq<char>) -> bool {
    s == ip || s == ip + seq!['/'] + prefix && text::all_digits(prefix)
}

proof fn lemma_address_is_clean(s: Seq<char>, octets: Seq<u8>, suffix: Seq<char>)
    requires
        spells_address(s, octets),
        suffix.len() > 0,
        suffix[0] == '/',
        text::all_digits(suffix.skip(1)),
    ensures
        s.len() > 0,
        is_clean(with_cidr(s, suffix)),
        config::address_of(with_cidr(s, suffix)) == Ok::<Seq<u8>, config::WgConfFault>(octets),
{
    let (ip, given) = choose|ip: Seq<char>, prefix: Seq<char>| #[trigger]
        is_address_with(s, ip, prefix) && addr::ip_octets(ip) == Some(octets);
    addr::lemma_ip_chars(ip);
    assert forall|k: int| 0 <= k < ip.len() implies ip[k] != '/' && ip[k] != '\n'
        && !text::is_space(ip[k]) by {
        assert(addr::is_ip_char(ip[k]));
    }
    let slash = seq!['/'];
    let prefix = if s.contains('/') {
        given
    } else {
        suffix.skip(1)
    };
    let whole = with_cidr(s, suffix);
    if s == ip {
        assert(!s.contains('/'));
        assert(suffix =~= slash + suffix.skip(1));
        assert(whole =~= ip + slash + prefix);
    } else {
        assert(s[ip.len() as int] == '/');
        assert(s.contains('/'));
    }
    assert(whole == ip + slash + prefix);
    assert(text::all_digits(prefix));
    assert forall|k: int| 0 <= k < whole.len() implies whole[k] != '\n' && !text::is_space(
        whole[k],
    ) by {
        if k < ip.len() {
            assert(whole[k] == ip[k]);
        } else if k > ip.len() {
            assert(whole[k] == prefix[k - ip.len() - 1]);
            assert(text::is_digit(prefix[k - ip.len() - 1]));
        }
    }
    addr::lemma_split_cons(ip, '/', prefix);
    assert(text::split_at_char(whole, '/')[0] == ip);
    text::lemma_trimmed_unchanged(ip);
}

proof fn lemma_key_is_clean(key: Seq<u8>)
    requires
        key.len() == 32,
    ensures
        is_clean(b64::base64_text(key)),
        config::key_bytes(b64::base64_text(key)) == Ok::<Seq<u8>, config::WgConfFault>(key),
{
    let s = b64::base64_text(key);
    b64::lemma_base64_chars(key);
    b64::lemma_base64_read_back(key);
    assert forall|k: int| 0 <= k < s.len() implies s[k] != '\n' && !text::is_space(s[k]) by {
        assert(b64::is_base64_char(s[k]));
    }
    text::lemma_trimmed_unchanged(s);
}

proof fn lemma_endpoint_is_clean(s: Seq<char>)
    requires
        addr::socket_parts(s) is Some,
    ensures
        is_clean(s),
{
    addr::lemma_socket_chars(s);
    assert forall|k: int| 0 <= k < s.len() implies s[k] != '\n' && !text::is_space(s[k]) by {
        assert(addr::is_socket_char(s[k]));
    }
}

/// The `wg0.conf` of an account whose keys are 32 bytes in base64 and whose addresses
/// are IP addresses, with or without a prefix length, can be written for any endpoint
/// that is a socket address. Read again, it gives these keys, addresses and this
/// endpoint, and the reserved bytes of the account. No name is looked up.
pub proof fn lemma_account_read_back(
    account: WgAccount,
    endpoint: Seq<char>,
    key: Seq<u8>,
    peer: Seq<u8>,
    v4: Seq<u8>,
    v6: Seq<u8>,
    answers: Seq<config::Resolution>,
)
    requires
        key.len() == 32,
        account.private_key@ == b64::base64_text(key),
        account.config.peers@.len() > 0,
        peer.len() == 32,
        account.config.peers@[0].public_key@ == b64::base64_text(peer),
        v4.len() == 4,
        spells_address(account.config.interface.addresses.v4@, v4),
        v6.len() == 16,
        spells_address(account.config.interface.addresses.v6@, v6),
        addr::socket_parts(endpoint) is Some,
    ensures
        account_lacks(account) is None,
        ({
            let s = text::joined_lines(account_lines(account, Some(endpoint)));
            &&& config::conf_fault(s, answers) is None
            &&& forall|c: config::WgConfig| #[trigger]
                config::conf_holds(c, s, answers) ==> {
                    &&& c.private_key@ == key
                    &&& c.peer_public_key@ == peer
                    &&& Some(config::parts_of(c.endpoint)) == addr::socket_parts(endpoint)
                    &&& c.address_v4@ == v4
                    &&& c.address_v6@ == v6
                    &&& c.reserved@ == reserved_from(account.config.client_id@)
                }
        }),
{
    let a4 = account.config.interface.addresses.v4@;
    let a6 = account.config.interface.addresses.v6@;
    let reserved = reserved_from(account.config.client_id@);
    lemma_key_is_clean(key);
    lemma_key_is_clean(peer);
    lemma_endpoint_is_clean(endpoint);
    reveal_strlit("/32");
    reveal_strlit("/128");
    assert("/32"@.skip(1) =~= seq!['3', '2']);
    assert("/128"@.skip(1) =~= seq!['1', '2', '8']);
    lemma_address_is_clean(a4, v4, "/32"@);
    lemma_address_is_clean(a6, v6, "/128"@);
    lemma_conf_read_back(
        account.private_key@,
        with_cidr(a4, "/32"@),
        with_cidr(a6, "/128"@),
        account.config.peers@[0].public_key@,
        endpoint,
        reserved,
        answers,
    );
    assert(chosen_endpoint(Some(endpoint), account.config.peers@[0].endpoint.host@) == endpoint);
}

type Read = Result<config::Draft, config::WgConfFault>;

proof fn lemma_keys_differ()
    ensures
        "PrivateKey"@ != "PublicKey"@,
        "PrivateKey"@ != "Endpoint"@,
        "PrivateKey"@ != "Reserved"@,
        "PrivateKey"@ != "Address"@,
        "PublicKey"@ != "Endpoint"@,
        "PublicKey"@ != "Reserved"@,
        "PublicKey"@ != "Address"@,
        "Endpoint"@ != "Reserved"@,
        "Endpoint"@ != "Address"@,
        "Reserved"@ != "Address"@,
        "AllowedIPs"@ != "PrivateKey"@,
        "AllowedIPs"@ != "PublicKey"@,
        "AllowedIPs"@ != "Endpoint"@,
        "AllowedIPs"@ != "Reserved"@,
        "AllowedIPs"@ != "Address"@,
{
    reveal_strlit("PrivateKey");
    reveal_strlit("PublicKey");
    reveal_strlit("Endpoint");
    reveal_strlit("Reserved");
    reveal_strlit("Address");
    reveal_strlit("AllowedIPs");
    assert("PrivateKey"@.len() == 10);
    assert("PublicKey"@.len() == 9);
    assert("Endpoint"@.len() == 8);
    assert("Reserved"@.len() == 8);
    assert("Address"@.len() == 7);
    assert("AllowedIPs"@.len() == 10);
    assert("Endpoint"@[0] != "Reserved"@[0]);
    assert("AllowedIPs"@[0] != "PrivateKey"@[0]);
}

proof fn lemma_plain_lines(d: config::Draft, answers: Seq<config::Resolution>)
    ensures
        config::with_line(d, "[Interface]"@, answers) == Read::Ok(d),
        config::with_line(d, Seq::empty(), answers) == Read::Ok(d),
        config::with_line(d, "[Peer]"@, answers) == Read::Ok(d),
        config::with_line(d, "AllowedIPs = 0.0.0.0/0,::/0"@, answers) == Read::Ok(d),
{
    lemma_other_lines();
    lemma_keys_differ();
}

proof fn lemma_private_key_line(
    d: config::Draft,
    value: Seq<char>,
    answers: Seq<config::Resolution>,
)
    requires
        is_clean(value),
        config::key_bytes(value) is Ok,
    ensures
        config::with_line(d, "PrivateKey = "@ + value, answers) == Read::Ok(
            config::Draft { private_key: Some(config::key_bytes(value)->Ok_0), ..d },
        ),
{
    lemma_known_settings(value, value, value, value, seq![0u8, 0, 0]);
}

proof fn lemma_public_key_line(
    d: config::Draft,
    value: Seq<char>,
    answers: Seq<config::Resolution>,
)
    requires
        is_clean(value),
        config::key_bytes(value) is Ok,
    ensures
        config::with_line(d, "PublicKey = "@ + value, answers) == Read::Ok(
            config::Draft { peer_public_key: Some(config::key_bytes(value)->Ok_0), ..d },
        ),
{
    lemma_known_settings(value, value, value, value, seq![0u8, 0, 0]);
    lemma_keys_differ();
}

proof fn lemma_address_line(d: config::Draft, value: Seq<char>, answers: Seq<config::Resolution>)
    requires
        is_clean(value),
        config::address_of(value) is Ok,
    ensures
        config::address_of(value)->Ok_0.len() == 4 ==> config::with_line(
            d,
            "Address = "@ + value,
            answers,
        ) == Read::Ok(config::Draft { address_v4: Some(config::address_of(value)->Ok_0), ..d }),
        config::address_of(value)->Ok_0.len() != 4 ==> config::with_line(
            d,
            "Address = "@ + value,
            answers,
        ) == Read::Ok(config::Draft { address_v6: Some(config::address_of(value)->Ok_0), ..d }),
{
    lemma_known_settings(value, value, value, value, seq![0u8, 0, 0]);
    lemma_keys_differ();
}

proof fn lemma_endpoint_line(d: config::Draft, value: Seq<char>, answers: Seq<config::Resolution>)
    requires
        is_clean(value),
        addr::socket_parts(value) is Some,
    ensures
        config::with_line(d, "Endpoint = "@ + value, answers) == Read::Ok(
            config::Draft { endpoint: addr::socket_parts(value), ..d },
        ),
{
    lemma_known_settings(value, value, value, value, seq![0u8, 0, 0]);
    lemma_keys_differ();
}

proof fn lemma_reserved_line(d: config::Draft, reserved: Seq<u8>, answers: Seq<config::Resolution>)
    requires
        reserved.len() == 3,
    ensures
        config::with_line(d, "Reserved = "@ + marks_text(reserved), answers) == Read::Ok(
            config::Draft { reserved, ..d },
        ),
{
    lemma_marks(reserved);
    let value = marks_text(reserved);
    lemma_known_settings(value, value, value, value, reserved);
    lemma_keys_differ();
}

proof fn lemma_draft_step(
    ls: Seq<Seq<char>>,
    answers: Seq<config::Resolution>,
    i: int,
    before: config::Draft,
    after: config::Draft,
)
    requires
        0 <= i < ls.len(),
        config::with_line(before, ls[i], answers) == Ok::<config::Draft, config::WgConfFault>(after),
        i == 0 && before == config::empty_draft() || config::draft_of(ls.take(i), answers) == Ok::<
            config::Draft,
            config::WgConfFault,
        >(before),
    ensures
        config::draft_of(ls.take(i + 1), answers) == Ok::<config::Draft, config::WgConfFault>(
            after,
        ),
{
    assert(ls.take(i + 1).drop_last() =~= ls.take(i));
    if i == 0 {
        assert(ls.take(0) =~= Seq::empty());
    }
}

} // verus!
