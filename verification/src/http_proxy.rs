//! HTTP forward proxy: CONNECT, and plain requests in absolute form, which are
//! passed on in origin form.

use crate::http;
use crate::http::{RequestHead, RequestHeadView};
use crate::outbound;
use crate::outbound::Host;
use crate::text;
use crate::wire;
use vstd::prelude::*;
use vstd::utf8::*;

verus! {

/// A request head may take this many bytes.
pub const MAX_HEAD_SIZE: usize = 16384;

/// The answer where the target cannot be reached.
pub const BAD_GATEWAY: &'static str = "HTTP/1.1 502 Bad Gateway\r\n\r\n";

/// The answer to a CONNECT that succeeded.
pub const ESTABLISHED: &'static str = "HTTP/1.1 200 Connection Established\r\n\r\n";

/// A request, with the bytes that were read of it.
#[derive(Debug, PartialEq, Eq)]
pub struct ParsedRequest {
    pub method: String,
    pub path: String,
    pub version_1_0: bool,
    pub host_header: Option<String>,
    pub raw_head: Vec<u8>,
    pub head_len: usize,
}

/// What the bytes of a request, as far as they have come, call for.
#[derive(Debug, PartialEq, Eq)]
pub enum HeadStep {
    NeedMore,
    TooLarge,
    Malformed,
    Complete(ParsedRequest),
}

/// The text of an optional text, empty where there is none.
pub open spec fn or_empty(s: Option<Seq<char>>) -> Seq<char> {
    match s {
        Some(t) => t,
        None => Seq::empty(),
    }
}

/// The request holds what its head says.
pub open spec fn request_holds(p: ParsedRequest, h: RequestHeadView, raw: Seq<u8>) -> bool {
    &&& p.method@ == or_empty(h.0)
    &&& p.path@ == or_empty(h.1)
    &&& p.version_1_0 == (h.2 == Some(0u8))
    &&& http::string_opt(p.host_header) == match http::header_value(h.3, "host"@) {
        Some(v) => Some(text::utf8_lossy(v)),
        None => None,
    }
    &&& p.raw_head@ == raw
    &&& p.head_len == h.4
}

/// Takes the request out of its head.
pub fn request_from(head: RequestHead, raw: Vec<u8>) -> (p: ParsedRequest)
    ensures
        request_holds(p, head@, raw@),
{
    let host_header = match http::find_header(&head.headers, "host") {
        Some(v) => Some(text::lossy_text(v.as_slice())),
        None => None,
    };
    let version_1_0: bool = match head.version {
        Some(v) => v == 0,
        None => false,
    };
    let head_len: usize = head.size;
    let method = match head.method {
        Some(s) => s,
        None => String::new(),
    };
    let path = match head.path {
        Some(s) => s,
        None => String::new(),
    };
    assert(method@ =~= or_empty(head@.0));
    assert(path@ =~= or_empty(head@.1));
    ParsedRequest { method, path, version_1_0, host_header, raw_head: raw, head_len }
}

/// Reads the bytes of a request that have come so far.
pub fn read_request(raw: Vec<u8>) -> (r: HeadStep)
    ensures
        match r {
            HeadStep::TooLarge => raw@.len() > MAX_HEAD_SIZE,
            HeadStep::NeedMore => raw@.len() <= MAX_HEAD_SIZE && http::request_head(raw@) == Ok::<
                Option<RequestHeadView>,
                (),
            >(None),
            HeadStep::Malformed => raw@.len() <= MAX_HEAD_SIZE && http::request_head(
                raw@,
            ) is Err,
            HeadStep::Complete(p) => {
                &&& raw@.len() <= MAX_HEAD_SIZE
                &&& http::request_head(raw@) matches Ok(Some(h))
                &&& request_holds(p, h, raw@)
                &&& p.head_len <= p.raw_head@.len()
            },
        },
        r is TooLarge <==> raw@.len() > 16384,
{
    if raw.len() > MAX_HEAD_SIZE {
        return HeadStep::TooLarge;
    }
    match http::parse_request(raw.as_slice()) {
        Err(_) => HeadStep::Malformed,
        Ok(None) => HeadStep::NeedMore,
        Ok(Some(head)) => HeadStep::Complete(request_from(head, raw)),
    }
}

// ---------------------------------------------------------------------------
// Targets

/// The host and the port of `host:port` or `[host]:port`.
pub open spec fn host_port_of(s: Seq<char>) -> Option<(Seq<char>, u16)> {
    if s.len() > 0 && s[0] == '[' {
        let rest = s.skip(1);
        let close = text::first_at(rest, ']');
        if close + 1 < rest.len() && rest[close + 1] == ':' {
            match text::parsed_up_to(rest.skip(close + 2), 65535) {
                Some(p) => Some((rest.take(close), p as u16)),
                None => None,
            }
        } else {
            None
        }
    } else {
        let i = text::last_at(s, ':');
        if i < 0 {
            None
        } else {
            match text::parsed_up_to(s.skip(i + 1), 65535) {
                Some(p) => Some((s.take(i), p as u16)),
                None => None,
            }
        }
    }
}

fn split_chars(s: &[char]) -> (r: Option<(Vec<char>, u16)>)
    ensures
        match host_port_of(s@) {
            Some((h, p)) => r matches Some(x) && x.0@ == h && x.1 == p,
            None => r is None,
        },
{
    if s.len() > 0 && s[0] == '[' {
        let rest = text::part(s, 1, s.len());
        assert(rest@ =~= s@.skip(1));
        assert(rest@.skip(0) =~= rest@);
        let close = text::find_char(rest.as_slice(), 0, ']');
        if rest.len() - close < 2 || rest[close + 1] != ':' {
            return None;
        }
        let digits = text::part(rest.as_slice(), close + 2, rest.len());
        assert(digits@ =~= rest@.skip(close + 2));
        let host = text::part(rest.as_slice(), 0, close);
        assert(host@ =~= rest@.take(close as int));
        match text::parse_up_to(digits.as_slice(), 65535) {
            Some(p) => Some((host, p as u16)),
            None => None,
        }
    } else {
        match text::find_last_char(s, ':') {
            None => None,
            Some(i) => {
                let digits = text::part(s, i + 1, s.len());
                assert(digits@ =~= s@.skip(i + 1));
                let host = text::part(s, 0, i);
                assert(host@ =~= s@.take(i as int));
                match text::parse_up_to(digits.as_slice(), 65535) {
                    Some(p) => Some((host, p as u16)),
                    None => None,
                }
            },
        }
    }
}

/// Splits `host:port`.
pub fn split_host_port(s: &str) -> (r: Option<(String, u16)>)
    ensures
        match host_port_of(s@) {
            Some((h, p)) => r matches Some(x) && x.0@ == h && x.1 == p,
            None => r is None,
        },
{
    let chars = text::chars_of(s);
    match split_chars(chars.as_slice()) {
        Some((host, port)) => Some((text::string_of(host.as_slice()), port)),
        None => None,
    }
}

/// Where a request goes, and the path that the target is asked for.
#[derive(Debug, PartialEq, Eq)]
pub struct Target {
    pub host: String,
    pub port: u16,
    pub origin_form_path: String,
}

/// Why a request goes nowhere.
#[derive(Debug, PartialEq, Eq)]
pub enum TargetError {
    /// The target of a CONNECT is not `host:port`.
    ConnectTarget(String),
    /// A request in origin form has no `Host` header.
    MissingHost,
}

/// Host, port and origin form of a target.
pub struct TargetView {
    pub host: Seq<char>,
    pub port: u16,
    pub path: Seq<char>,
}

/// The host and the port of an authority; `port` where it names none.
pub open spec fn authority_of(s: Seq<char>, port: u16) -> (Seq<char>, u16) {
    match host_port_of(s) {
        Some(x) => x,
        None => (s, port),
    }
}

/// What follows the scheme of an absolute form, and the port of the scheme.
pub open spec fn absolute_form(path: Seq<char>) -> Option<(Seq<char>, u16)> {
    if text::begins_with(path, "http://"@) {
        Some((path.skip(7), 80u16))
    } else if text::begins_with(path, "https://"@) {
        Some((path.skip(8), 443u16))
    } else {
        None
    }
}

/// Where a request goes: a CONNECT where its path says; a request in absolute
/// form where its authority says, to the port of its scheme by default; any
/// other where its `Host` header says. Nothing where that is missing.
pub open spec fn target_of(method: Seq<char>, path: Seq<char>, host: Option<Seq<char>>) -> Option<
    TargetView,
> {
    if http::same_ignoring_case(method, "CONNECT"@) {
        match host_port_of(path) {
            Some((h, p)) => Some(TargetView { host: h, port: p, path: Seq::empty() }),
            None => None,
        }
    } else {
        match absolute_form(path) {
            Some((rest, port)) => {
                let i = text::first_at(rest, '/');
                let (h, p) = authority_of(rest.take(i), port);
                Some(
                    TargetView {
                        host: h,
                        port: p,
                        path: if i < rest.len() {
                            rest.skip(i)
                        } else {
                            seq!['/']
                        },
                    },
                )
            },
            None => match host {
                Some(header) => {
                    let (h, p) = authority_of(header, 80);
                    Some(TargetView { host: h, port: p, path })
                },
                None => None,
            },
        }
    }
}

fn split_or(s: &[char], port: u16) -> (r: (Vec<char>, u16))
    ensures
        (r.0@, r.1) == authority_of(s@, port),
{
    match split_chars(s) {
        Some(x) => x,
        None => {
            let all = text::part(s, 0, s.len());
            assert(all@ =~= s@);
            (all, port)
        },
    }
}

/// Finds out where a request goes.
pub fn parse_target(method: &str, path: &str, host_header: Option<&str>) -> (r: Result<
    Target,
    TargetError,
>)
    ensures
        match target_of(
            method@,
            path@,
            match host_header {
                Some(h) => Some(h@),
                None => None,
            },
        ) {
            Some(t) => r matches Ok(x) && x.host@ == t.host && x.port == t.port
                && x.origin_form_path@ == t.path,
            None => match r {
                Ok(_) => false,
                Err(TargetError::ConnectTarget(p)) => p@ == path@ && http::same_ignoring_case(
                    method@,
                    "CONNECT"@,
                ),
                Err(TargetError::MissingHost) => !http::same_ignoring_case(method@, "CONNECT"@),
            },
        },
{
    if http::eq_ignore_case(method, "CONNECT") {
        return match split_host_port(path) {
            Some((host, port)) => {
                let t = Target { host, port, origin_form_path: String::new() };
                assert(t.origin_form_path@ =~= Seq::<char>::empty());
                Ok(t)
            },
            None => Err(TargetError::ConnectTarget(path.to_owned())),
        };
    }
    let chars = text::chars_of(path);
    let plain = text::chars_of("http://");
    let secure = text::chars_of("https://");
    let is_plain = text::has_prefix(chars.as_slice(), plain.as_slice());
    let is_secure = text::has_prefix(chars.as_slice(), secure.as_slice());
    if is_plain || is_secure {
        proof {
            reveal_strlit("http://");
            reveal_strlit("https://");
        }
        let skip: usize = if is_plain {
            7
        } else {
            8
        };
        let scheme_port: u16 = if is_plain {
            80
        } else {
            443
        };
        let rest = text::part(chars.as_slice(), skip, chars.len());
        assert(rest@ =~= path@.skip(skip as int));
        assert(rest@.skip(0) =~= rest@);
        let i = text::find_char(rest.as_slice(), 0, '/');
        let authority = text::part(rest.as_slice(), 0, i);
        assert(authority@ =~= rest@.take(i as int));
        let mut origin = text::part(rest.as_slice(), i, rest.len());
        assert(origin@ =~= rest@.skip(i as int));
        if i >= rest.len() {
            origin.push('/');
            assert(origin@ =~= seq!['/']);
        }
        let (host, port) = split_or(authority.as_slice(), scheme_port);
        Ok(
            Target {
                host: text::string_of(host.as_slice()),
                port,
                origin_form_path: text::string_of(origin.as_slice()),
            },
        )
    } else {
        match host_header {
            None => Err(TargetError::MissingHost),
            Some(h) => {
                let header = text::chars_of(h);
                let (host, port) = split_or(header.as_slice(), 80);
                Ok(
                    Target {
                        host: text::string_of(host.as_slice()),
                        port,
                        origin_form_path: path.to_owned(),
                    },
                )
            },
        }
    }
}

impl Target {
    /// The host of the target: an address where it is a literal address.
    pub fn to_host(&self) -> (h: Host)
        ensures
            h@ == outbound::host_of_text(self.host@),
    {
        Host::parse(self.host.as_str())
    }
}

// ---------------------------------------------------------------------------
// Passing on

/// The request line in origin form.
pub open spec fn request_line(method: Seq<char>, path: Seq<char>, version_1_0: bool) -> Seq<char> {
    method + seq![' '] + path + if version_1_0 {
        " HTTP/1.0\r\n"@
    } else {
        " HTTP/1.1\r\n"@
    }
}

/// Where the headers begin: behind the first line ending, or at the end of the
/// head where there is none.
pub open spec fn headers_start(raw: Seq<u8>, head_len: int) -> int {
    let i = wire::bytes_at(raw, seq![0x0du8, 0x0a], 0);
    if i < 0 {
        head_len
    } else {
        i + 2
    }
}

/// What the target is sent first: the request line in origin form, the headers
/// as they came, and what was already read of the body. Nothing where the first
/// line ending lies behind the head.
pub fn forwarded_request(request: &ParsedRequest, origin_form_path: &str) -> (r: Option<Vec<u8>>)
    requires
        request.head_len <= request.raw_head@.len(),
    ensures
        match r {
            Some(out) => headers_start(request.raw_head@, request.head_len as int)
                <= request.head_len && out@ == encode_utf8(
                request_line(request.method@, origin_form_path@, request.version_1_0),
            ) + request.raw_head@.skip(
                headers_start(request.raw_head@, request.head_len as int),
            ),
            None => headers_start(request.raw_head@, request.head_len as int) > request.head_len,
        },
{
    let mut line = text::chars_of(request.method.as_str());
    line.push(' ');
    text::push_str(&mut line, origin_form_path);
    if request.version_1_0 {
        text::push_str(&mut line, " HTTP/1.0\r\n");
    } else {
        text::push_str(&mut line, " HTTP/1.1\r\n");
    }
    assert(line@ =~= request_line(request.method@, origin_form_path@, request.version_1_0));
    let line = text::string_of(line.as_slice());
    let mut ending: Vec<u8> = Vec::new();
    ending.push(0x0d);
    ending.push(0x0a);
    assert(ending@ =~= seq![0x0du8, 0x0a]);
    let total: usize = request.raw_head.len();
    let start: usize = match wire::find_bytes(request.raw_head.as_slice(), ending.as_slice()) {
        Some(i) => i + 2,
        None => request.head_len,
    };
    if start > request.head_len {
        return None;
    }
    let mut out: Vec<u8> = Vec::new();
    wire::push_bytes(&mut out, line.as_str().as_bytes());
    let tail = wire::bytes_of(request.raw_head.as_slice(), start, total);
    assert(tail@ =~= request.raw_head@.skip(start as int));
    wire::push_bytes(&mut out, tail.as_slice());
    assert(out@ =~= encode_utf8(
        request_line(request.method@, origin_form_path@, request.version_1_0),
    ) + request.raw_head@.skip(start as int));
    Some(out)
}

} // verus!
