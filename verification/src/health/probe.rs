//! The probe: a request for the trace page through the proxy, name resolution
//! within the tunnel included.

use crate::addr;
use crate::addr::SocketAddr;
use crate::text;
use vstd::prelude::*;

verus! {

/// What a probe learned: the address that the tunnel is seen with.
#[derive(Debug, PartialEq, Eq)]
pub struct ProbeOutcome {
    pub ip: Option<String>,
}

impl Default for ProbeOutcome {
    fn default() -> (o: Self)
        ensures
            o.ip is None,
    {
        ProbeOutcome { ip: None }
    }
}

/// Why a probe failed.
#[derive(Debug, PartialEq, Eq)]
pub enum ProbeError {
    Request(String),
    MissingWarpMarker(String),
}

/// Why a probe failed.
pub enum ProbeFault {
    Request(Seq<char>),
    MissingWarpMarker(Seq<char>),
}

impl View for ProbeError {
    type V = ProbeFault;

    open spec fn view(&self) -> ProbeFault {
        match self {
            ProbeError::Request(s) => ProbeFault::Request(s@),
            ProbeError::MissingWarpMarker(s) => ProbeFault::MissingWarpMarker(s@),
        }
    }
}

impl ProbeError {
    /// The error in words.
    pub fn message(&self) -> (s: String)
        ensures
            s@ == match self@ {
                ProbeFault::Request(m) => "请求失败: "@ + m,
                ProbeFault::MissingWarpMarker(m) => "响应缺少 warp 标记: "@ + m,
            },
    {
        let mut out: Vec<char> = Vec::new();
        match self {
            ProbeError::Request(m) => {
                text::push_str(&mut out, "请求失败: ");
                text::push_str(&mut out, m.as_str());
            },
            ProbeError::MissingWarpMarker(m) => {
                text::push_str(&mut out, "响应缺少 warp 标记: ");
                text::push_str(&mut out, m.as_str());
            },
        }
        text::string_of(out.as_slice())
    }
}

/// A probe through a proxy: where it listens, how many seconds an answer may
/// take, and the page that is asked for.
#[derive(Debug, PartialEq, Eq)]
pub struct SocksTraceProbe {
    pub socks_addr: SocketAddr,
    pub timeout: u64,
    pub trace_url: String,
}

impl SocksTraceProbe {
    /// A probe of the usual page.
    pub fn new(socks_addr: SocketAddr, timeout: u64) -> (p: Self)
        ensures
            p.socks_addr == socks_addr,
            p.timeout == timeout,
            p.trace_url@ == "https://cloudflare.com/cdn-cgi/trace"@,
    {
        SocksTraceProbe {
            socks_addr,
            timeout,
            trace_url: "https://cloudflare.com/cdn-cgi/trace".to_owned(),
        }
    }

    /// The proxy as a URL; names are resolved behind it.
    pub fn proxy_url(&self) -> (s: String)
        ensures
            s@ == "socks5h://"@ + addr::socket_text(
                self.socks_addr.ip@,
                self.socks_addr.port,
                self.socks_addr.scope_id,
            ),
    {
        let mut out: Vec<char> = Vec::new();
        text::push_str(&mut out, "socks5h://");
        text::push_str(&mut out, self.socks_addr.to_text().as_str());
        text::string_of(out.as_slice())
    }
}

/// What the first line that begins with `p` says after it.
pub open spec fn after_prefix(lines: Seq<Seq<char>>, p: Seq<char>) -> Option<Seq<char>>
    decreases lines.len(),
{
    if lines.len() == 0 {
        None
    } else if text::begins_with(lines[0], p) {
        Some(lines[0].skip(p.len() as int))
    } else {
        after_prefix(lines.drop_first(), p)
    }
}

/// The value of a field of the trace page.
pub open spec fn trace_field(body: Seq<char>, field: Seq<char>) -> Option<Seq<char>> {
    after_prefix(text::lines_of(body), field + seq!['='])
}

/// Finds a field of the trace page.
pub fn extract_trace_field(body: &str, field: &str) -> (r: Option<String>)
    ensures
        match r {
            Some(s) => trace_field(body@, field@) == Some(s@),
            None => trace_field(body@, field@) is None,
        },
{
    let chars = text::chars_of(body);
    let lines = text::lines(chars.as_slice());
    let mut prefix = text::chars_of(field);
    prefix.push('=');
    assert(prefix@ =~= field@ + seq!['=']);
    let ghost all = text::pieces(lines@);
    let mut i: usize = 0;
    assert(all.skip(0) =~= all);
    while i < lines.len()
        invariant
            i <= lines@.len(),
            all == text::pieces(lines@),
            prefix@ == field@ + seq!['='],
            after_prefix(all, prefix@) == after_prefix(all.skip(i as int), prefix@),
            all == text::lines_of(body@),
        decreases lines@.len() - i,
    {
        let line = &lines[i];
        assert(all.skip(i as int)[0] == line@);
        assert(all.skip(i as int).drop_first() =~= all.skip(i + 1));
        if text::has_prefix(line.as_slice(), prefix.as_slice()) {
            let value = text::part(line.as_slice(), prefix.len(), line.len());
            assert(value@ =~= line@.skip(prefix@.len() as int));
            return Some(text::string_of(value.as_slice()));
        }
        i += 1;
    }
    None
}

/// A line that tells that the request came through the tunnel.
pub open spec fn is_warp_marker(line: Seq<char>) -> bool {
    line == "warp=on"@ || line == "warp=plus"@
}

/// Some line tells that the request came through the tunnel.
pub open spec fn has_warp_marker(body: Seq<char>) -> bool {
    exists|i: int|
        0 <= i < text::lines_of(body).len() && is_warp_marker(#[trigger] text::lines_of(body)[i])
}

/// Whether some line tells that the request came through the tunnel.
pub fn warp_marked(body: &str) -> (r: bool)
    ensures
        r == has_warp_marker(body@),
{
    let chars = text::chars_of(body);
    let lines = text::lines(chars.as_slice());
    let ghost all = text::pieces(lines@);
    let mut i: usize = 0;
    while i < lines.len()
        invariant
            i <= lines@.len(),
            all == text::pieces(lines@),
            all == text::lines_of(body@),
            forall|k: int| 0 <= k < i ==> !is_warp_marker(#[trigger] all[k]),
        decreases lines@.len() - i,
    {
        assert(all[i as int] == lines@[i as int]@);
        if text::is_text(lines[i].as_slice(), "warp=on") || text::is_text(
            lines[i].as_slice(),
            "warp=plus",
        ) {
            assert(is_warp_marker(text::lines_of(body@)[i as int]));
            return true;
        }
        i += 1;
    }
    assert(all.len() == lines@.len());
    false
}

/// Judges the answer to a probe: its status, with the words that go with it, and
/// its body.
pub fn judge(success: bool, status: &str, body: &str) -> (r: Result<ProbeOutcome, ProbeError>)
    ensures
        match r {
            Ok(o) => {
                &&& success
                &&& has_warp_marker(body@)
                &&& match o.ip {
                    Some(ip) => trace_field(body@, "ip"@) == Some(ip@),
                    None => trace_field(body@, "ip"@) is None,
                }
            },
            Err(e) => if !success {
                e@ == ProbeFault::Request("HTTP "@ + status@)
            } else {
                !has_warp_marker(body@) && e@ == ProbeFault::MissingWarpMarker(
                    text::summary(body@, 180),
                )
            },
        },
{
    if !success {
        let mut out: Vec<char> = Vec::new();
        text::push_str(&mut out, "HTTP ");
        text::push_str(&mut out, status);
        return Err(ProbeError::Request(text::string_of(out.as_slice())));
    }
    if !warp_marked(body) {
        return Err(ProbeError::MissingWarpMarker(text::summarize(body, 180)));
    }
    Ok(ProbeOutcome { ip: extract_trace_field(body, "ip") })
}

} // verus!
