//! Ways out: where a connection is to go, and the two tunnels that take it there.

pub mod masque;
pub mod wireguard;

use crate::addr;
use crate::addr::IpAddr;
use crate::text;
use vstd::prelude::*;

verus! {

/// The host of a target. How a domain is resolved is up to the way out.
#[derive(Clone, Debug, PartialEq, Eq)]
pub enum Host {
    Domain(String),
    Ip(IpAddr),
}

/// `Host` with its text and octets as sequences.
pub enum HostView {
    Domain(Seq<char>),
    Ip(Seq<u8>),
}

impl View for Host {
    type V = HostView;

    open spec fn view(&self) -> HostView {
        match self {
            Host::Domain(s) => HostView::Domain(s@),
            Host::Ip(ip) => HostView::Ip(ip@),
        }
    }
}

/// The host that a text names: an address where it is a literal address, else
/// a domain.
pub open spec fn host_of_text(s: Seq<char>) -> HostView {
    match addr::ip_octets(s) {
        Some(o) => HostView::Ip(o),
        None => HostView::Domain(s),
    }
}

impl Host {
    /// Tells literal addresses from domains. The domain fields of SOCKS and the
    /// host of an HTTP request may hold either.
    pub fn parse(s: &str) -> (h: Host)
        ensures
            h@ == host_of_text(s@),
    {
        let chars = text::chars_of(s);
        match addr::parse_ip(chars.as_slice()) {
            Some(ip) => Host::Ip(ip),
            None => Host::Domain(s.to_owned()),
        }
    }

    /// A copy.
    pub fn copy(&self) -> (h: Host)
        ensures
            h@ == self@,
    {
        match self {
            Host::Domain(s) => Host::Domain(s.clone()),
            Host::Ip(ip) => Host::Ip(*ip),
        }
    }
}

/// Whether two hosts are the same.
pub fn same_host(a: &Host, b: &Host) -> (r: bool)
    ensures
        r == (a@ == b@),
{
    match (a, b) {
        (Host::Domain(x), Host::Domain(y)) => text::same_text(x.as_str(), y.as_str()),
        (Host::Ip(x), Host::Ip(y)) => addr::same_ip(x, y),
        _ => false,
    }
}

/// The text of a host, as logs show it.
pub open spec fn host_text(h: HostView) -> Seq<char> {
    match h {
        HostView::Domain(s) => s,
        HostView::Ip(o) => addr::ip_text(o),
    }
}

/// A host and a port as logs show them: `host:port`.
pub open spec fn target_text(h: HostView, port: u16) -> Seq<char> {
    host_text(h) + seq![':'] + text::decimal(port as nat)
}

/// A host and a port as logs show them.
pub fn describe(host: &Host, port: u16) -> (s: String)
    ensures
        s@ == target_text(host@, port),
{
    let mut out: Vec<char> = Vec::new();
    match host {
        Host::Domain(d) => text::push_str(&mut out, d.as_str()),
        Host::Ip(ip) => addr::push_ip(&mut out, ip),
    }
    out.push(':');
    text::push_decimal(&mut out, port as u64);
    assert(out@ =~= target_text(host@, port));
    text::string_of(out.as_slice())
}

/// The text of a literal address names that address.
pub proof fn lemma_host_of_address(o: Seq<u8>)
    requires
        o.len() == 4 || o.len() == 16,
    ensures
        host_of_text(addr::ip_text(o)) == HostView::Ip(o),
{
    addr::lemma_ip_read_back(o);
}

} // verus!
