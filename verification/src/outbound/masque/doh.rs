//! DNS over HTTPS inside the tunnel (RFC 8484): a domain is resolved over a
//! CONNECT stream to a fixed exit before the real target is asked for, because
//! the edge refuses bare domains.

use crate::addr::IpAddr;
use crate::dns;
use crate::dns::{DnsError, RecordType};
use crate::http;
use crate::http::ResponseHead;
use crate::table::TextTable;
use crate::text;
use crate::wire;
use vstd::prelude::*;
use vstd::utf8::*;

verus! {

pub const DOH_SNI: &'static str = "cloudflare-dns.com";

/// Seconds for each step of a query.
pub const QUERY_TIMEOUT: u64 = 8;

/// A response head may take this many bytes.
pub const MAX_HEAD: usize = 8192;

/// Why a query gave no address.
#[derive(Debug, PartialEq, Eq)]
pub enum DohError {
    /// A label of the domain is empty or longer than 63 bytes.
    Label(String),
    HeadTooLarge,
    BadHead,
    Status(u16),
    NoLength,
    /// The message cannot be read.
    Message(DnsError),
    NoAddress,
}

/// `DohError` with its text as a sequence.
pub enum DohFault {
    Label(Seq<char>),
    HeadTooLarge,
    BadHead,
    Status(u16),
    NoLength,
    Message(DnsError),
    NoAddress,
}

impl View for DohError {
    type V = DohFault;

    open spec fn view(&self) -> DohFault {
        match self {
            DohError::Label(s) => DohFault::Label(s@),
            DohError::HeadTooLarge => DohFault::HeadTooLarge,
            DohError::BadHead => DohFault::BadHead,
            DohError::Status(n) => DohFault::Status(*n),
            DohError::NoLength => DohFault::NoLength,
            DohError::Message(e) => DohFault::Message(*e),
            DohError::NoAddress => DohFault::NoAddress,
        }
    }
}

// ---------------------------------------------------------------------------
// The request

/// The first label that is empty or longer than 63 bytes.
pub open spec fn bad_label(ls: Seq<Seq<char>>) -> Option<Seq<char>>
    decreases ls.len(),
{
    if ls.len() == 0 {
        None
    } else if bad_label(ls.drop_last()) is Some {
        bad_label(ls.drop_last())
    } else if 1 <= encode_utf8(ls.last()).len() <= 63 {
        None
    } else {
        Some(ls.last())
    }
}

/// Writes a query for a domain with the identifier zero.
pub fn build_query(domain: &str, qtype: u16) -> (r: Result<Vec<u8>, DohError>)
    ensures
        match bad_label(dns::labels_of(domain@)) {
            Some(l) => r matches Err(e) && e@ == DohFault::Label(l),
            None => r matches Ok(b) && b@ == dns::query_bytes(0, domain@, qtype)
                && dns::labels_fit(dns::labels_of(domain@)),
        },
{
    let ls = dns::labels(domain);
    let ghost all = text::pieces(ls@);
    let mut i: usize = 0;
    assert(all.take(0) =~= Seq::empty());
    while i < ls.len()
        invariant
            i <= ls@.len(),
            all == text::pieces(ls@),
            all == dns::labels_of(domain@),
            bad_label(all.take(i as int)) is None,
            forall|k: int| 0 <= k < i ==> 1 <= encode_utf8(#[trigger] all[k]).len() <= 63,
        decreases ls@.len() - i,
    {
        let s = text::string_of(ls[i].as_slice());
        let n: usize = s.as_str().as_bytes().len();
        assert(all.take(i + 1).drop_last() =~= all.take(i as int));
        assert(all.take(i + 1).last() == ls@[i as int]@);
        assert(all[i as int] == ls@[i as int]@);
        if n < 1 || n > 63 {
            proof {
                lemma_bad_label_stays(all, i + 1);
            }
            return Err(DohError::Label(s));
        }
        i += 1;
    }
    assert(all.take(i as int) =~= all);
    Ok(dns::encode_dns_query(0, domain, qtype))
}

proof fn lemma_bad_label_stays(ls: Seq<Seq<char>>, n: int)
    requires
        0 <= n <= ls.len(),
        bad_label(ls.take(n)) is Some,
    ensures
        bad_label(ls) == bad_label(ls.take(n)),
    decreases ls.len() - n,
{
    if n < ls.len() {
        assert(ls.take(n + 1).drop_last() =~= ls.take(n));
        lemma_bad_label_stays(ls, n + 1);
    } else {
        assert(ls.take(n) =~= ls);
    }
}

proof fn lemma_bad_label(ls: Seq<Seq<char>>)
    ensures
        bad_label(ls) is None <==> dns::labels_fit(ls),
    decreases ls.len(),
{
    if ls.len() > 0 {
        let before = ls.drop_last();
        lemma_bad_label(before);
        if dns::labels_fit(ls) {
            assert forall|i: int| 0 <= i < before.len() implies 1 <= encode_utf8(
                #[trigger] before[i],
            ).len() <= 63 by {
                assert(before[i] == ls[i]);
            }
            assert(1 <= encode_utf8(ls[ls.len() - 1]).len() <= 63);
        } else if dns::labels_fit(before) {
            let i = choose|i: int|
                0 <= i < ls.len() && !(1 <= encode_utf8(#[trigger] ls[i]).len() <= 63);
            if i < ls.len() - 1 {
                assert(before[i] == ls[i]);
            }
        }
    }
}

/// A query can be written if and only if every label of the domain without the dots at
/// its end has between one and 63 bytes. It is then 18 bytes longer than the domain
/// without these dots, which do not change it, and its name ends four bytes before its
/// end.
pub proof fn lemma_query_len(domain: Seq<char>, qtype: u16)
    ensures
        bad_label(dns::labels_of(domain)) is None <==> dns::labels_fit(
            text::split_at_char(dns::without_dots(domain), '.'),
        ),
        bad_label(dns::labels_of(dns::without_dots(domain))) == bad_label(dns::labels_of(domain)),
        dns::query_bytes(0, dns::without_dots(domain), qtype) == dns::query_bytes(0, domain, qtype),
        dns::query_bytes(0, domain, qtype).len() == encode_utf8(dns::without_dots(domain)).len()
            + 18,
        bad_label(dns::labels_of(domain)) is None ==> dns::name_end(
            dns::query_bytes(0, domain, qtype),
            12,
        ) == Ok::<int, dns::DnsError>(dns::query_bytes(0, domain, qtype).len() - 4),
{
    let ls = dns::labels_of(domain);
    let before = wire::be_bytes(0, 2) + seq![0x01u8, 0x00, 0x00, 0x01, 0, 0, 0, 0, 0, 0];
    let after = wire::be_bytes(qtype as nat, 2) + seq![0x00u8, 0x01];
    let q = dns::query_bytes(0, domain, qtype);
    lemma_bad_label(ls);
    dns::lemma_without_dots_again(domain);
    dns::lemma_labels_len(dns::without_dots(domain));
    wire::lemma_be_bytes_len(0, 2);
    wire::lemma_be_bytes_len(qtype as nat, 2);
    assert(q =~= before + dns::labels_bytes(ls) + seq![0x00u8] + after);
    if bad_label(ls) is None {
        dns::lemma_name_read_back(before, ls, after);
    }
}

/// The head of the HTTP request for a body of `len` bytes.
pub open spec fn request_head_text(len: nat) -> Seq<char> {
    "POST /dns-query HTTP/1.1\r\nhost: cloudflare-dns.com\r\ncontent-type: application/dns-message\r\naccept: application/dns-message\r\ncontent-length: "@
        + text::decimal(len) + "\r\nconnection: close\r\n\r\n"@
}

/// Wraps a query in an HTTP request.
pub fn build_http_request(body: &[u8]) -> (out: Vec<u8>)
    ensures
        out@ == encode_utf8(request_head_text(body@.len())) + body@,
{
    let mut head = text::chars_of(
        "POST /dns-query HTTP/1.1\r\nhost: cloudflare-dns.com\r\ncontent-type: application/dns-message\r\naccept: application/dns-message\r\ncontent-length: ",
    );
    text::push_decimal(&mut head, body.len() as u64);
    text::push_str(&mut head, "\r\nconnection: close\r\n\r\n");
    assert(head@ =~= request_head_text(body@.len()));
    let head = text::string_of(head.as_slice());
    let mut out: Vec<u8> = Vec::new();
    wire::push_bytes(&mut out, head.as_str().as_bytes());
    wire::push_bytes(&mut out, body);
    assert(out@ =~= encode_utf8(request_head_text(body@.len())) + body@);
    out
}

// ---------------------------------------------------------------------------
// The response

/// What the bytes of a response, as far as they have come, call for.
#[derive(Debug, PartialEq, Eq)]
pub enum DohRead {
    /// The head is not complete.
    NeedHead,
    /// The body is not complete.
    NeedBody,
    Failed(DohError),
    Body(Vec<u8>),
}

/// `DohRead` in terms of sequences.
pub enum DohReadView {
    NeedHead,
    NeedBody,
    Failed(DohFault),
    Body(Seq<u8>),
}

impl View for DohRead {
    type V = DohReadView;

    open spec fn view(&self) -> DohReadView {
        match self {
            DohRead::NeedHead => DohReadView::NeedHead,
            DohRead::NeedBody => DohReadView::NeedBody,
            DohRead::Failed(e) => DohReadView::Failed(e@),
            DohRead::Body(b) => DohReadView::Body(b@),
        }
    }
}

/// The empty line behind a head.
pub open spec fn empty_line() -> Seq<u8> {
    seq![0x0du8, 0x0a, 0x0d, 0x0a]
}

/// Where the head ends; negative while it is not complete.
pub open spec fn head_end(buf: Seq<u8>) -> int {
    let i = wire::bytes_at(buf, empty_line(), 0);
    if i < 0 {
        -1
    } else {
        i + 4
    }
}

/// The number of a `content-length` header.
pub open spec fn length_of(value: Option<Seq<u8>>) -> Option<nat> {
    match value {
        Some(v) => if valid_utf8(v) {
            text::parsed_up_to(text::trimmed(decode_utf8(v)), usize::MAX as nat)
        } else {
            None
        },
        None => None,
    }
}

/// What follows from the head of a response: only status 200 with a length
/// has a body, and the body is as many of the bytes behind the head.
pub open spec fn body_by_head(
    rest: Seq<u8>,
    head: Option<(Option<u16>, http::HeadersView)>,
) -> DohReadView {
    match head {
        None => DohReadView::Failed(DohFault::BadHead),
        Some((code, headers)) => {
            let status = match code {
                Some(c) => c,
                None => 0,
            };
            if status != 200 {
                DohReadView::Failed(DohFault::Status(status))
            } else {
                match length_of(http::header_value(headers, "content-length"@)) {
                    None => DohReadView::Failed(DohFault::NoLength),
                    Some(n) => if rest.len() < n {
                        DohReadView::NeedBody
                    } else {
                        DohReadView::Body(rest.take(n as int))
                    },
                }
            }
        },
    }
}

/// What the bytes of a response call for.
pub open spec fn response_read(buf: Seq<u8>) -> DohReadView {
    let end = head_end(buf);
    if end < 0 {
        if buf.len() > MAX_HEAD {
            DohReadView::Failed(DohFault::HeadTooLarge)
        } else {
            DohReadView::NeedHead
        }
    } else {
        body_by_head(buf.skip(end), http::response_head(buf.take(end)))
    }
}

/// Takes the body by what the head says.
pub fn read_body(rest: &[u8], head: Option<ResponseHead>) -> (r: DohRead)
    ensures
        r@ == body_by_head(
            rest@,
            match head {
                Some(h) => Some((h.code, http::headers_view(h.headers@))),
                None => None,
            },
        ),
{
    let head = match head {
        None => return DohRead::Failed(DohError::BadHead),
        Some(h) => h,
    };
    let status: u16 = match head.code {
        Some(c) => c,
        None => 0,
    };
    if status != 200 {
        return DohRead::Failed(DohError::Status(status));
    }
    let value = match http::find_header(&head.headers, "content-length") {
        None => return DohRead::Failed(DohError::NoLength),
        Some(v) => v,
    };
    let bytes = wire::bytes_of(value.as_slice(), 0, value.len());
    assert(bytes@ =~= value@);
    let s = match text::utf8_text(bytes) {
        None => return DohRead::Failed(DohError::NoLength),
        Some(s) => s,
    };
    let chars = text::chars_of(s.as_str());
    let t = text::trim(chars.as_slice());
    match text::parse_up_to(t.as_slice(), usize::MAX as u64) {
        None => DohRead::Failed(DohError::NoLength),
        Some(n) => {
            if rest.len() < n as usize {
                return DohRead::NeedBody;
            }
            let body = wire::bytes_of(rest, 0, n as usize);
            assert(body@ =~= rest@.take(n as int));
            DohRead::Body(body)
        },
    }
}

/// Reads the bytes of a response that have come so far.
pub fn read_http_response(buf: &[u8]) -> (r: DohRead)
    ensures
        r@ == response_read(buf@),
{
    let mut mark: Vec<u8> = Vec::new();
    mark.push(0x0d);
    mark.push(0x0a);
    mark.push(0x0d);
    mark.push(0x0a);
    assert(mark@ =~= empty_line());
    let total: usize = buf.len();
    match wire::find_bytes(buf, mark.as_slice()) {
        None => if total > MAX_HEAD {
            DohRead::Failed(DohError::HeadTooLarge)
        } else {
            DohRead::NeedHead
        },
        Some(i) => {
            let end: usize = i + 4;
            let head = wire::bytes_of(buf, 0, end);
            let rest = wire::bytes_of(buf, end, total);
            assert(head@ =~= buf@.take(end as int));
            assert(rest@ =~= buf@.skip(end as int));
            read_body(rest.as_slice(), http::parse_response(head.as_slice()))
        },
    }
}

// ---------------------------------------------------------------------------
// The answer

/// The first address of the `n` records at `pos`, and its time to live.
pub open spec fn first_address(buf: Seq<u8>, pos: int, n: nat) -> Result<(Seq<u8>, nat), DohFault>
    decreases n,
{
    if n == 0 {
        Err(DohFault::NoAddress)
    } else {
        match dns::record_at(buf, pos) {
            Err(e) => Err(DohFault::Message(e)),
            Ok((r, end)) => match dns::record_addr(r) {
                Some(o) => Ok((o, r.ttl)),
                None => first_address(buf, end, (n - 1) as nat),
            },
        }
    }
}

/// The first address of an answer, and its time to live. What follows it is
/// not looked at.
pub open spec fn answer_of(buf: Seq<u8>) -> Result<(Seq<u8>, nat), DohFault> {
    if buf.len() < 12 {
        Err(DohFault::Message(DnsError::Short(buf.len() as usize)))
    } else {
        match dns::questions_end(buf, 12, wire::be_value(buf.subrange(4, 6))) {
            Err(e) => Err(DohFault::Message(e)),
            Ok(p) => first_address(buf, p, wire::be_value(buf.subrange(6, 8))),
        }
    }
}

/// Takes the first address out of an answer, and its time to live in seconds.
pub fn parse_answer(msg: &[u8]) -> (r: Result<(IpAddr, u32), DohError>)
    ensures
        match answer_of(msg@) {
            Ok((o, ttl)) => r matches Ok(x) && x.0@ == o && x.1 == ttl,
            Err(f) => r matches Err(e) && e@ == f,
        },
{
    if msg.len() < 12 {
        return Err(DohError::Message(DnsError::Short(msg.len())));
    }
    let qdcount = wire::read_u16(msg, 4);
    let ancount = wire::read_u16(msg, 6);
    let first = match dns::skip_questions(msg, 12, qdcount) {
        Err(e) => return Err(DohError::Message(e)),
        Ok(p) => p,
    };
    let mut pos: usize = first;
    let mut left: u16 = ancount;
    while left > 0
        invariant
            answer_of(msg@) == first_address(msg@, pos as int, left as nat),
        decreases left,
    {
        let record = match dns::read_record(msg, pos) {
            Err(e) => return Err(DohError::Message(e)),
            Ok(x) => x,
        };
        match record.addr {
            Some(ip) => return Ok((ip, record.ttl)),
            None => {},
        }
        pos = record.end;
        left -= 1;
    }
    Err(DohError::NoAddress)
}

/// An answer that repeats the question and has one address under a pointer to
/// it is read as that address and its time to live.
pub proof fn lemma_answer_read_back(
    domain: Seq<char>,
    qtype: u16,
    octets: Seq<u8>,
    ttl: u32,
    after: Seq<u8>,
)
    requires
        dns::labels_fit(dns::labels_of(domain)),
        octets.len() == 4 || octets.len() == 16,
    ensures
        ({
            let rtype = if octets.len() == 4 {
                dns::TYPE_A
            } else {
                dns::TYPE_AAAA
            };
            let msg = dns::query_bytes(0, domain, qtype).update(7, 1)
                + dns::pointer_record(12, rtype, ttl, octets) + after;
            answer_of(msg) == Ok::<(Seq<u8>, nat), DohFault>((octets, ttl as nat))
        }),
{
    let rtype = if octets.len() == 4 {
        dns::TYPE_A
    } else {
        dns::TYPE_AAAA
    };
    let q = dns::query_bytes(0, domain, qtype).update(7, 1);
    let rec = dns::pointer_record(12, rtype, ttl, octets);
    let msg = q + rec + after;
    let ls = dns::labels_of(domain);
    let id = wire::be_bytes(0, 2);
    wire::lemma_be_bytes_len(0, 2);
    wire::lemma_be_bytes_len(qtype as nat, 2);
    let head = id + seq![0x01u8, 0x00, 0x00, 0x01, 0, 1, 0, 0, 0, 0];
    let tail = wire::be_bytes(qtype as nat, 2) + seq![0x00u8, 0x01];
    assert(q =~= head + dns::labels_bytes(ls) + seq![0x00u8] + tail);
    assert(msg =~= head + dns::labels_bytes(ls) + seq![0x00u8] + (tail + rec + after));
    dns::lemma_name_read_back(head, ls, tail + rec + after);
    wire::lemma_be_value_2(msg.subrange(4, 6));
    wire::lemma_be_value_2(msg.subrange(6, 8));
    let end = q.len() as int;
    assert(dns::questions_end(msg, end, 0) == Ok::<int, DnsError>(end));
    assert(dns::questions_end(msg, 12, 1) == Ok::<int, DnsError>(end));
    dns::lemma_record_read_back(q, 12, rtype, ttl, octets, after);
}

// ---------------------------------------------------------------------------
// The cache

/// An address, and the millisecond from which it counts no longer.
#[derive(Debug, PartialEq, Eq)]
pub struct DohEntry {
    pub ip: IpAddr,
    pub expires_at: u64,
}

/// Addresses by domain.
#[derive(Debug, PartialEq, Eq)]
pub struct DohCache {
    entries: TextTable<DohEntry>,
}

/// The address of a domain at `now`.
pub open spec fn found(m: Map<Seq<char>, DohEntry>, domain: Seq<char>, now: u64) -> Option<IpAddr> {
    if m.dom().contains(domain) && m[domain].expires_at > now {
        Some(m[domain].ip)
    } else {
        None
    }
}

/// The addresses with another one that was put to them at `now`.
pub open spec fn with_address(
    m: Map<Seq<char>, DohEntry>,
    domain: Seq<char>,
    ip: IpAddr,
    ttl: nat,
    now: u64,
) -> Map<Seq<char>, DohEntry> {
    m.insert(domain, (DohEntry { ip, expires_at: (now + dns::kept_ms(ttl)) as u64 }))
}

impl DohCache {
    /// The table is in order.
    pub closed spec fn wf(&self) -> bool {
        self.entries.wf()
    }

    /// The addresses by domain.
    pub closed spec fn entries(&self) -> Map<Seq<char>, DohEntry> {
        self.entries@
    }

    /// An empty cache.
    pub fn new() -> (c: Self)
        ensures
            c.wf(),
            c.entries() == Map::<Seq<char>, DohEntry>::empty(),
    {
        DohCache { entries: TextTable::new() }
    }

    /// The address of a domain, while it counts.
    pub fn cached(&self, domain: &str, now: u64) -> (r: Option<IpAddr>)
        requires
            self.wf(),
        ensures
            r == found(self.entries(), domain@, now),
    {
        match self.entries.get(domain) {
            Some(e) => if e.expires_at > now {
                Some(e.ip)
            } else {
                None
            },
            None => None,
        }
    }

    /// Keeps the address of a domain for its time to live, within bounds.
    pub fn store(&mut self, domain: &str, ip: IpAddr, ttl: u32, now: u64)
        requires
            old(self).wf(),
            now <= u64::MAX - 300000,
        ensures
            final(self).wf(),
            final(self).entries() == with_address(
                old(self).entries(),
                domain@,
                ip,
                ttl as nat,
                now,
            ),
    {
        let entry = DohEntry { ip, expires_at: now + dns::kept_for(ttl) };
        self.entries.insert(domain, entry);
    }
}

/// An address that was kept is found again until its time is over, which is no
/// sooner than after five seconds and no later than after five minutes; what is
/// found for other domains is what it was before.
pub proof fn lemma_cache_read_back(
    m: Map<Seq<char>, DohEntry>,
    domain: Seq<char>,
    ip: IpAddr,
    ttl: nat,
    then: u64,
    asked: Seq<char>,
    now: u64,
)
    requires
        then <= u64::MAX - 300000,
    ensures
        5000 <= dns::kept_ms(ttl) <= 300000,
        found(with_address(m, domain, ip, ttl, then), asked, now) == if asked == domain {
            if now < then + dns::kept_ms(ttl) {
                Some(ip)
            } else {
                None
            }
        } else {
            found(m, asked, now)
        },
{
}

// ---------------------------------------------------------------------------
// The order of tries

/// The authority of an exit.
pub open spec fn exit_text(i: int) -> Seq<char> {
    if i == 0 {
        "162.159.36.1:443"@
    } else {
        "162.159.46.1:443"@
    }
}

/// The `n`-th try: first A records at either exit, then AAAA records.
pub fn attempt(n: usize) -> (r: Option<(RecordType, &'static str)>)
    ensures
        match r {
            Some(x) => n < 4 && x.0 == (if n < 2 {
                RecordType::A
            } else {
                RecordType::Aaaa
            }) && x.1@ == exit_text(n as int % 2),
            None => n >= 4,
        },
{
    match n {
        0 => Some((RecordType::A, "162.159.36.1:443")),
        1 => Some((RecordType::A, "162.159.46.1:443")),
        2 => Some((RecordType::Aaaa, "162.159.36.1:443")),
        3 => Some((RecordType::Aaaa, "162.159.46.1:443")),
        _ => None,
    }
}

} // verus!
