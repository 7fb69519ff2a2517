//! The HTTP proxy, and the port that it shares.

use crate::http;
use crate::http_proxy;
use crate::http_proxy::TargetView;
use crate::text;
use crate::wire;
use vstd::prelude::*;
use vstd::utf8::*;

verus! {

/// The text is `CONNECT`, in letters of either case.
pub open spec fn is_connect(method: Seq<char>) -> bool {
    &&& method.len() == 7
    &&& method[0] == 'C' || method[0] == 'c'
    &&& method[1] == 'O' || method[1] == 'o'
    &&& method[2] == 'N' || method[2] == 'n'
    &&& method[3] == 'N' || method[3] == 'n'
    &&& method[4] == 'E' || method[4] == 'e'
    &&& method[5] == 'C' || method[5] == 'c'
    &&& method[6] == 'T' || method[6] == 't'
}

proof fn lemma_is_connect(method: Seq<char>)
    ensures
        http::same_ignoring_case(method, "CONNECT"@) == is_connect(method),
{
    reveal_strlit("CONNECT");
    let c = "CONNECT"@;
    if method.len() == 7 {
        assert(is_connect(method) ==> forall|i: int|
            0 <= i < 7 ==> http::lower(#[trigger] method[i]) == http::lower(c[i]));
        if http::same_ignoring_case(method, c) {
            assert(http::lower(method[0]) == 'c');
            assert(http::lower(method[1]) == 'o');
            assert(http::lower(method[2]) == 'n');
            assert(http::lower(method[3]) == 'n');
            assert(http::lower(method[4]) == 'e');
            assert(http::lower(method[5]) == 'c');
            assert(http::lower(method[6]) == 't');
        }
    }
}

/// `host:port`.
pub open spec fn with_port(host: Seq<char>, port: u16) -> Seq<char> {
    host + seq![':'] + text::decimal(port as nat)
}

/// `[host]:port`.
pub open spec fn in_brackets(host: Seq<char>, port: u16) -> Seq<char> {
    seq!['['] + host + seq![']', ':'] + text::decimal(port as nat)
}

proof fn lemma_port_digits(port: u16)
    ensures
        text::parsed_up_to(text::decimal(port as nat), 65535) == Some(port as nat),
        !text::decimal(port as nat).contains(':'),
        !text::decimal(port as nat).contains('/'),
        text::decimal(port as nat).len() > 0,
{
    let d = text::decimal(port as nat);
    text::lemma_decimal(port as nat);
    text::lemma_decimal_read_back(port as nat);
    assert forall|k: int| 0 <= k < d.len() implies d[k] != ':' && d[k] != '/' by {
        assert(text::is_digit(d[k]));
    }
}

/// Text `host:port` is split at its last colon.
pub proof fn lemma_host_port(host: Seq<char>, port: u16)
    requires
        host.len() > 0 ==> host[0] != '[',
    ensures
        http_proxy::host_port_of(with_port(host, port)) == Some((host, port)),
{
    let s = with_port(host, port);
    let d = text::decimal(port as nat);
    let n = host.len() as int;
    lemma_port_digits(port);
    text::lemma_last_at(s, ':');
    let i = text::last_at(s, ':');
    assert(s[n] == ':');
    if i > n {
        assert(s[i] == d[i - n - 1]);
        assert(d.contains(d[i - n - 1]));
    }
    assert(i == n);
    assert(s.skip(n + 1) =~= d);
    assert(s.take(n) =~= host);
    assert(s[0] != '[');
}

/// Of text `[host]:port`, the host is what stands in the brackets.
pub proof fn lemma_bracketed_host_port(host: Seq<char>, port: u16)
    requires
        !host.contains(']'),
    ensures
        http_proxy::host_port_of(in_brackets(host, port)) == Some((host, port)),
{
    let s = in_brackets(host, port);
    let d = text::decimal(port as nat);
    let rest = s.skip(1);
    let n = host.len() as int;
    lemma_port_digits(port);
    assert(rest =~= host + seq![']', ':'] + d);
    assert forall|k: int| 0 <= k < n implies rest[k] != ']' by {
        assert(rest[k] == host[k]);
        assert(host.contains(host[k]));
    }
    text::lemma_first_at_is(rest, ']', n);
    assert(rest.skip(n + 2) =~= d);
    assert(rest.take(n) =~= host);
}

/// Text without a colon names no port.
pub proof fn lemma_host_alone(host: Seq<char>)
    requires
        !host.contains(':'),
    ensures
        http_proxy::host_port_of(host) is None,
{
    text::lemma_last_at(host, ':');
    if host.len() > 0 && host[0] == '[' {
        let rest = host.skip(1);
        let close = text::first_at(rest, ']');
        text::lemma_first_at(rest, ']');
        if close + 1 < rest.len() {
            assert(rest[close + 1] == host[close + 2]);
            assert(host.contains(host[close + 2]));
        }
    } else if text::last_at(host, ':') >= 0 {
        assert(host.contains(host[text::last_at(host, ':')]));
    }
}

/// The target of a CONNECT is the host and the port of its path, and there is no path to
/// ask for. The method may be written in letters of either case.
pub proof fn lemma_connect_target(
    method: Seq<char>,
    host: Seq<char>,
    port: u16,
    header: Option<Seq<char>>,
)
    requires
        is_connect(method),
    ensures
        host.len() == 0 || host[0] != '[' ==> http_proxy::target_of(
            method,
            with_port(host, port),
            header,
        ) == Some(TargetView { host, port, path: Seq::empty() }),
        !host.contains(']') ==> http_proxy::target_of(method, in_brackets(host, port), header)
            == Some(TargetView { host, port, path: Seq::empty() }),
        !host.contains(':') ==> http_proxy::target_of(method, host, header) is None,
{
    lemma_is_connect(method);
    if host.len() == 0 || host[0] != '[' {
        lemma_host_port(host, port);
    }
    if !host.contains(']') {
        lemma_bracketed_host_port(host, port);
    }
    if !host.contains(':') {
        lemma_host_alone(host);
    }
}

proof fn lemma_absolute(secure: bool, authority: Seq<char>, path: Seq<char>)
    requires
        !authority.contains('/'),
        path.len() == 0 || path[0] == '/',
    ensures
        ({
            let scheme = if secure {
                "https://"@
            } else {
                "http://"@
            };
            let port: u16 = if secure {
                443
            } else {
                80
            };
            let rest = authority + path;
            &&& http_proxy::absolute_form(scheme + authority + path) == Some((rest, port))
            &&& text::first_at(rest, '/') == authority.len()
            &&& rest.take(authority.len() as int) == authority
            &&& rest.skip(authority.len() as int) == path
        }),
{
    reveal_strlit("http://");
    reveal_strlit("https://");
    let scheme = if secure {
        "https://"@
    } else {
        "http://"@
    };
    let s = scheme + authority + path;
    let rest = authority + path;
    assert(s.skip(scheme.len() as int) =~= rest);
    assert(s.take(scheme.len() as int) =~= scheme);
    if secure {
        assert(s[4] == 's');
        assert(s.take(7)[4] == 's');
        assert("http://"@[4] == ':');
    }
    assert forall|k: int| 0 <= k < authority.len() implies rest[k] != '/' by {
        assert(authority.contains(authority[k]));
    }
    text::lemma_first_at_is(rest, '/', authority.len() as int);
    assert(rest.take(authority.len() as int) =~= authority);
    assert(rest.skip(authority.len() as int) =~= path);
}

/// A request in absolute form that names no port goes to port 80 of its host for `http`
/// and to port 443 for `https`; the target is asked for the path, which is `/` where the
/// form has none. What the `Host` header says does not matter.
pub proof fn lemma_absolute_target(
    method: Seq<char>,
    host: Seq<char>,
    path: Seq<char>,
    header: Option<Seq<char>>,
)
    requires
        !is_connect(method),
        !host.contains(':'),
        !host.contains('/'),
        path.len() == 0 || path[0] == '/',
    ensures
        ({
            let asked = if path.len() == 0 {
                seq!['/']
            } else {
                path
            };
            &&& http_proxy::target_of(method, "http://"@ + host + path, header) == Some(
                TargetView { host, port: 80, path: asked },
            )
            &&& http_proxy::target_of(method, "https://"@ + host + path, header) == Some(
                TargetView { host, port: 443, path: asked },
            )
        }),
{
    lemma_is_connect(method);
    lemma_host_alone(host);
    lemma_absolute(false, host, path);
    lemma_absolute(true, host, path);
}

/// A request in absolute form that names a port goes to that port of its host, whatever
/// its scheme.
pub proof fn lemma_absolute_target_with_port(
    method: Seq<char>,
    host: Seq<char>,
    port: u16,
    path: Seq<char>,
    header: Option<Seq<char>>,
)
    requires
        !is_connect(method),
        !host.contains('/'),
        path.len() == 0 || path[0] == '/',
    ensures
        ({
            let asked = if path.len() == 0 {
                seq!['/']
            } else {
                path
            };
            let there = Some(TargetView { host, port, path: asked });
            let plain = with_port(host, port);
            let literal = in_brackets(host, port);
            &&& host.len() == 0 || host[0] != '[' ==> http_proxy::target_of(
                method,
                "http://"@ + plain + path,
                header,
            ) == there && http_proxy::target_of(method, "https://"@ + plain + path, header)
                == there
            &&& !host.contains(']') ==> http_proxy::target_of(
                method,
                "http://"@ + literal + path,
                header,
            ) == there && http_proxy::target_of(method, "https://"@ + literal + path, header)
                == there
        }),
{
    let plain = with_port(host, port);
    let literal = in_brackets(host, port);
    let d = text::decimal(port as nat);
    lemma_is_connect(method);
    lemma_port_digits(port);
    assert forall|k: int| 0 <= k < host.len() implies host[k] != '/' by {
        assert(host.contains(host[k]));
    }
    assert forall|k: int| 0 <= k < d.len() implies d[k] != '/' by {
        assert(d.contains(d[k]));
    }
    assert(!plain.contains('/'));
    assert(!literal.contains('/'));
    if host.len() == 0 || host[0] != '[' {
        lemma_host_port(host, port);
    }
    if !host.contains(']') {
        lemma_bracketed_host_port(host, port);
    }
    lemma_absolute(false, plain, path);
    lemma_absolute(true, plain, path);
    lemma_absolute(false, literal, path);
    lemma_absolute(true, literal, path);
}

/// A request in origin form goes where its `Host` header says, to port 80 where that
/// names none, and its path stays; without the header it goes nowhere.
pub proof fn lemma_origin_target(method: Seq<char>, path: Seq<char>, host: Seq<char>, port: u16)
    requires
        !is_connect(method),
        path.len() > 0,
        path[0] == '/',
    ensures
        http_proxy::target_of(method, path, None) is None,
        !host.contains(':') ==> http_proxy::target_of(method, path, Some(host)) == Some(
            TargetView { host, port: 80, path },
        ),
        host.len() == 0 || host[0] != '[' ==> http_proxy::target_of(
            method,
            path,
            Some(with_port(host, port)),
        ) == Some(TargetView { host, port, path }),
        !host.contains(']') ==> http_proxy::target_of(method, path, Some(in_brackets(host, port)))
            == Some(TargetView { host, port, path }),
{
    lemma_is_connect(method);
    reveal_strlit("http://");
    reveal_strlit("https://");
    assert(path.len() >= 7 ==> path.take(7)[0] == '/');
    assert(path.len() >= 8 ==> path.take(8)[0] == '/');
    assert("http://"@[0] == 'h' && "https://"@[0] == 'h');
    if !host.contains(':') {
        lemma_host_alone(host);
    }
    if host.len() == 0 || host[0] != '[' {
        lemma_host_port(host, port);
    }
    if !host.contains(']') {
        lemma_bracketed_host_port(host, port);
    }
}

/// The value of a header is that of the first one of its name, in letters of either
/// case; there is none where no header has the name.
pub proof fn lemma_header_value(h: http::HeadersView, name: Seq<char>, i: int)
    ensures
        0 <= i < h.len() && http::same_ignoring_case(h[i].0, name) && (forall|k: int|
            0 <= k < i ==> !http::same_ignoring_case(#[trigger] h[k].0, name))
            ==> http::header_value(h, name) == Some(h[i].1),
        (forall|k: int| 0 <= k < h.len() ==> !http::same_ignoring_case(#[trigger] h[k].0, name))
            ==> http::header_value(h, name) is None,
    decreases h.len(),
{
    if h.len() > 0 {
        let t = h.drop_first();
        lemma_header_value(t, name, i - 1);
        assert forall|k: int| 0 <= k < t.len() implies #[trigger] t[k] == h[k + 1] by {}
        if !http::same_ignoring_case(h[0].0, name) {
            if 0 < i < h.len() && (forall|k: int|
                0 <= k < i ==> !http::same_ignoring_case(#[trigger] h[k].0, name)) {
                assert forall|k: int| 0 <= k < i - 1 implies !http::same_ignoring_case(
                    #[trigger] t[k].0,
                    name,
                ) by {
                    assert(t[k] == h[k + 1]);
                }
            }
            if forall|k: int|
                0 <= k < h.len() ==> !http::same_ignoring_case(#[trigger] h[k].0, name) {
                assert forall|k: int| 0 <= k < t.len() implies !http::same_ignoring_case(
                    #[trigger] t[k].0,
                    name,
                ) by {
                    assert(t[k] == h[k + 1]);
                }
            }
        }
    }
}

/// Two texts are the same but for the case of letters where they have the same length
/// and each character of one is that of the other, or both are one ASCII letter.
pub proof fn lemma_same_ignoring_case(a: Seq<char>, b: Seq<char>)
    ensures
        http::same_ignoring_case(a, b) == (a.len() == b.len() && forall|i: int|
            0 <= i < a.len() ==> #[trigger] a[i] == b[i] || 'A' <= a[i] <= 'Z' && b[i] as u32
                == a[i] as u32 + 32 || 'A' <= b[i] <= 'Z' && a[i] as u32 == b[i] as u32 + 32),
{
    if a.len() == b.len() {
        assert forall|i: int| 0 <= i < a.len() implies (http::lower(#[trigger] a[i])
            == http::lower(b[i])) == (a[i] == b[i] || 'A' <= a[i] <= 'Z' && b[i] as u32 == a[i] as u32
            + 32 || 'A' <= b[i] <= 'Z' && a[i] as u32 == b[i] as u32 + 32) by {}
        if http::same_ignoring_case(a, b) {
            assert forall|i: int| 0 <= i < a.len() implies #[trigger] a[i] == b[i] || 'A' <= a[i]
                <= 'Z' && b[i] as u32 == a[i] as u32 + 32 || 'A' <= b[i] <= 'Z' && a[i] as u32
                == b[i] as u32 + 32 by {
                assert(http::lower(a[i]) == http::lower(b[i]));
            }
        }
    }
}

/// The request line in origin form.
pub proof fn lemma_request_line(method: Seq<char>, path: Seq<char>)
    ensures
        http_proxy::request_line(method, path, false) == method + seq![' '] + path
            + " HTTP/1.1\r\n"@,
        http_proxy::request_line(method, path, true) == method + seq![' '] + path
            + " HTTP/1.0\r\n"@,
{
}

/// The headers of a request begin behind its first line ending, however long its first
/// line is; what is passed on are the headers and all that was read behind them.
pub proof fn lemma_headers_start(line: Seq<u8>, rest: Seq<u8>, head_len: int)
    requires
        forall|i: int| 0 <= i < line.len() ==> #[trigger] line[i] != 13,
    ensures
        http_proxy::headers_start(line + seq![13u8, 10] + rest, head_len) == line.len() + 2,
        (line + seq![13u8, 10] + rest).skip(line.len() as int + 2) == rest,
{
    let raw = line + seq![13u8, 10] + rest;
    let mark = seq![0x0du8, 0x0a];
    assert(raw.skip(line.len() as int + 2) =~= rest);
    lemma_bytes_at_is(raw, mark, 0, line.len() as int);
}

proof fn lemma_bytes_at_is(s: Seq<u8>, p: Seq<u8>, pos: int, n: int)
    requires
        0 <= pos <= n,
        p.len() > 0,
        n + p.len() <= s.len(),
        forall|k: int| 0 <= k < p.len() ==> #[trigger] p[k] == s[n + k],
        forall|k: int| pos <= k < n ==> #[trigger] s[k] != p[0],
    ensures
        wire::bytes_at(s, p, pos) == n,
    decreases n - pos,
{
    if pos == n {
        assert(s.subrange(n, n + p.len()) =~= p);
    } else {
        if wire::bytes_match_at(s, p, pos) {
            assert(s.subrange(pos, pos + p.len())[0] == s[pos]);
        }
        lemma_bytes_at_is(s, p, pos + 1, n);
    }
}

/// The answers of the HTTP proxy.
pub proof fn lemma_proxy_answers()
    ensures
        http_proxy::ESTABLISHED@ == "HTTP/1.1 200 Connection Established\r\n\r\n"@,
        http_proxy::BAD_GATEWAY@ == "HTTP/1.1 502 Bad Gateway\r\n\r\n"@,
{
}

/// A request is what its head says: method and path, the version 1.0 only where the
/// minor version is zero, and as its host the first header of that name in any case.
pub proof fn lemma_request(
    p: http_proxy::ParsedRequest,
    method: Seq<char>,
    path: Seq<char>,
    version: Option<u8>,
    headers: http::HeadersView,
    size: nat,
    raw: Seq<u8>,
    i: int,
)
    requires
        http_proxy::request_holds(p, (Some(method), Some(path), version, headers, size), raw),
    ensures
        p.method@ == method,
        p.path@ == path,
        p.version_1_0 <==> version == Some(0u8),
        p.raw_head@ == raw,
        p.head_len == size,
        0 <= i < headers.len() && http::same_ignoring_case(headers[i].0, "host"@) && (forall|k: int|
            0 <= k < i ==> !http::same_ignoring_case(#[trigger] headers[k].0, "host"@))
            ==> http::string_opt(p.host_header) == Some(text::utf8_lossy(headers[i].1)),
        (forall|k: int|
            0 <= k < headers.len() ==> !http::same_ignoring_case(
                #[trigger] headers[k].0,
                "host"@,
            )) ==> p.host_header is None,
{
    lemma_header_value(headers, "host"@, i);
}

} // verus!
