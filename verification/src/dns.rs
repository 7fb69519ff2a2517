//! DNS inside the tunnel: one question per query, answers by A and AAAA
//! records, and a cache.

use crate::addr;
use crate::addr::IpAddr;
use crate::table::TextTable;
use crate::text;
use crate::wire;
use vstd::prelude::*;
use vstd::utf8::*;

verus! {

/// The kind of address that is asked for.
#[derive(Clone, Copy, PartialEq, Eq, Hash, Debug, Structural)]
pub enum RecordType {
    A,
    Aaaa,
}

pub const TYPE_A: u16 = 1;

pub const TYPE_AAAA: u16 = 28;

/// Seconds that an answer is kept at least and at most.
pub const CACHE_MIN_TTL: u64 = 5;

pub const CACHE_MAX_TTL: u64 = 300;

/// With more answers than this, expired ones are dropped first.
pub const CACHE_LIMIT: usize = 500;

/// Milliseconds after which a query is sent again.
pub const RETRY_INTERVAL_MS: u64 = 1200;

impl RecordType {
    /// The number of the record type.
    pub open spec fn code(self) -> u16 {
        match self {
            RecordType::A => TYPE_A,
            RecordType::Aaaa => TYPE_AAAA,
        }
    }

    /// The number of the record type.
    pub fn qtype(self) -> (n: u16)
        ensures
            n == self.code(),
            self is A ==> n == 1,
            self is Aaaa ==> n == 28,
    {
        match self {
            RecordType::A => TYPE_A,
            RecordType::Aaaa => TYPE_AAAA,
        }
    }
}

// ---------------------------------------------------------------------------
// Queries

/// A name without the dots at its end.
pub open spec fn without_dots(s: Seq<char>) -> Seq<char>
    decreases s.len(),
{
    if s.len() > 0 && s.last() == '.' {
        without_dots(s.drop_last())
    } else {
        s
    }
}

/// The labels of a name.
pub open spec fn labels_of(name: Seq<char>) -> Seq<Seq<char>> {
    text::split_at_char(without_dots(name), '.')
}

/// A label: its size, of which one byte is kept, and its bytes.
pub open spec fn label_bytes(label: Seq<char>) -> Seq<u8> {
    seq![(encode_utf8(label).len() % 256) as u8] + encode_utf8(label)
}

/// Labels one after the other.
pub open spec fn labels_bytes(labels: Seq<Seq<char>>) -> Seq<u8>
    decreases labels.len(),
{
    if labels.len() == 0 {
        Seq::empty()
    } else {
        labels_bytes(labels.drop_last()) + label_bytes(labels.last())
    }
}

/// A query with one question and recursion desired.
pub open spec fn query_bytes(id: u16, name: Seq<char>, qtype: u16) -> Seq<u8> {
    wire::be_bytes(id as nat, 2) + seq![0x01u8, 0x00, 0x00, 0x01, 0, 0, 0, 0, 0, 0] + labels_bytes(
        labels_of(name),
    ) + seq![0x00u8] + wire::be_bytes(qtype as nat, 2) + seq![0x00u8, 0x01]
}

pub(crate) fn labels(name: &str) -> (out: Vec<Vec<char>>)
    ensures
        text::pieces(out@) == labels_of(name@),
{
    let chars = text::chars_of(name);
    let mut n: usize = chars.len();
    assert(chars@.take(n as int) =~= chars@);
    while n > 0 && chars[n - 1] == '.'
        invariant
            n <= chars@.len(),
            chars@ == name@,
            without_dots(name@) == without_dots(chars@.take(n as int)),
        decreases n,
    {
        assert(chars@.take(n as int).drop_last() =~= chars@.take(n - 1));
        n -= 1;
    }
    let bare = text::part(chars.as_slice(), 0, n);
    assert(bare@ =~= chars@.take(n as int));
    text::split(bare.as_slice(), '.')
}

/// Appends a label: the low byte of its size, and its bytes.
fn push_label(out: &mut Vec<u8>, label: &[char])
    ensures
        final(out)@ == old(out)@ + label_bytes(label@),
{
    let s = text::string_of(label);
    let bytes = s.as_str().as_bytes();
    out.push((bytes.len() % 256) as u8);
    wire::push_bytes(out, bytes);
    assert(out@ =~= old(out)@ + label_bytes(label@));
}

fn push_question(out: &mut Vec<u8>, labels: &Vec<Vec<char>>, qtype: u16)
    ensures
        final(out)@ == old(out)@ + labels_bytes(text::pieces(labels@)) + seq![0x00u8]
            + wire::be_bytes(qtype as nat, 2) + seq![0x00u8, 0x01],
{
    let ghost all = text::pieces(labels@);
    let ghost start = out@;
    let mut i: usize = 0;
    assert(all.take(0) =~= Seq::empty());
    while i < labels.len()
        invariant
            i <= labels@.len(),
            all == text::pieces(labels@),
            out@ == start + labels_bytes(all.take(i as int)),
        decreases labels@.len() - i,
    {
        push_label(out, labels[i].as_slice());
        assert(all.take(i + 1).drop_last() =~= all.take(i as int));
        assert(all.take(i + 1).last() == labels@[i as int]@);
        i += 1;
    }
    assert(all.take(i as int) =~= all);
    out.push(0x00);
    wire::push_u16(out, qtype);
    out.push(0x00);
    out.push(0x01);
    assert(out@ =~= start + labels_bytes(all) + seq![0x00u8] + wire::be_bytes(qtype as nat, 2)
        + seq![0x00u8, 0x01]);
}

/// Writes a query.
pub fn encode_dns_query(id: u16, name: &str, qtype: u16) -> (out: Vec<u8>)
    ensures
        out@ == query_bytes(id, name@, qtype),
{
    let mut out: Vec<u8> = Vec::new();
    wire::push_u16(&mut out, id);
    out.push(0x01);
    out.push(0x00);
    out.push(0x00);
    out.push(0x01);
    out.push(0);
    out.push(0);
    out.push(0);
    out.push(0);
    out.push(0);
    out.push(0);
    let l = labels(name);
    let ghost head = out@;
    assert(head =~= wire::be_bytes(id as nat, 2) + seq![0x01u8, 0x00, 0x00, 0x01, 0, 0, 0, 0, 0, 0]);
    push_question(&mut out, &l, qtype);
    out
}

// ---------------------------------------------------------------------------
// Messages

/// Why a message cannot be read.
#[derive(Clone, Copy, Debug, PartialEq, Eq, Structural)]
pub enum DnsError {
    Short(usize),
    /// The expected and the actual identifier.
    WrongId(u16, u16),
    NameOutside,
    PointerOutside,
    AnswerHeader,
    AnswerData,
}

/// Where the name at `pos` ends: behind a zero byte, or behind a pointer, which
/// is not followed.
pub open spec fn name_end(buf: Seq<u8>, pos: int) -> Result<int, DnsError>
    decreases
            if pos < buf.len() {
                buf.len() - pos
            } else {
                0
            },
{
    if pos >= buf.len() {
        Err(DnsError::NameOutside)
    } else if buf[pos] == 0 {
        Ok(pos + 1)
    } else if buf[pos] >= 0xc0 {
        if pos + 1 >= buf.len() {
            Err(DnsError::PointerOutside)
        } else {
            Ok(pos + 2)
        }
    } else {
        name_end(buf, pos + 1 + buf[pos])
    }
}

/// Skips the name at `pos`.
pub fn skip_name(buf: &[u8], pos: usize) -> (r: Result<usize, DnsError>)
    ensures
        match name_end(buf@, pos as int) {
            Ok(end) => r matches Ok(x) && x == end && pos < x <= buf@.len(),
            Err(e) => r == Err::<usize, DnsError>(e),
        },
{
    let mut p: usize = pos;
    while p < buf.len()
        invariant
            pos <= p,
            name_end(buf@, pos as int) == name_end(buf@, p as int),
        decreases buf@.len() - p,
    {
        let len: u8 = buf[p];
        if len == 0 {
            return Ok(p + 1);
        }
        if len >= 0xc0 {
            if buf.len() - p < 2 {
                return Err(DnsError::PointerOutside);
            }
            return Ok(p + 2);
        }
        if buf.len() - p <= len as usize {
            assert(name_end(buf@, p + 1 + len) == Err::<int, DnsError>(DnsError::NameOutside));
            return Err(DnsError::NameOutside);
        }
        p = p + 1 + len as usize;
    }
    Err(DnsError::NameOutside)
}

/// A resource record: type, time to live, data.
pub struct Record {
    pub rtype: nat,
    pub ttl: nat,
    pub data: Seq<u8>,
}

/// The record at `pos` and its end.
pub open spec fn record_at(buf: Seq<u8>, pos: int) -> Result<(Record, int), DnsError> {
    match name_end(buf, pos) {
        Err(e) => Err(e),
        Ok(p) => if p + 10 > buf.len() {
            Err(DnsError::AnswerHeader)
        } else {
            let len = wire::be_value(buf.subrange(p + 8, p + 10));
            if p + 10 + len > buf.len() {
                Err(DnsError::AnswerData)
            } else {
                Ok(
                    (
                        Record {
                            rtype: wire::be_value(buf.subrange(p, p + 2)),
                            ttl: wire::be_value(buf.subrange(p + 4, p + 8)),
                            data: buf.subrange(p + 10, p + 10 + len),
                        },
                        p + 10 + len,
                    ),
                )
            }
        },
    }
}

/// Where `n` questions that begin at `pos` end. The last one may run over the
/// end of the message.
pub open spec fn questions_end(buf: Seq<u8>, pos: int, n: nat) -> Result<int, DnsError>
    decreases n,
{
    if n == 0 {
        Ok(pos)
    } else {
        match name_end(buf, pos) {
            Err(e) => Err(e),
            Ok(p) => questions_end(buf, p + 4, (n - 1) as nat),
        }
    }
}

/// The `n` records that begin at `pos`.
pub open spec fn records_at(buf: Seq<u8>, pos: int, n: nat) -> Result<Seq<Record>, DnsError>
    decreases n,
{
    if n == 0 {
        Ok(Seq::empty())
    } else {
        match record_at(buf, pos) {
            Err(e) => Err(e),
            Ok((r, end)) => match records_at(buf, end, (n - 1) as nat) {
                Err(e) => Err(e),
                Ok(rest) => Ok(seq![r] + rest),
            },
        }
    }
}

/// The address of a record, if it is an A or an AAAA record of the right size.
pub open spec fn record_addr(r: Record) -> Option<Seq<u8>> {
    if r.rtype == TYPE_A && r.data.len() == 4 || r.rtype == TYPE_AAAA && r.data.len() == 16 {
        Some(r.data)
    } else {
        None
    }
}

/// The addresses of records, in order.
pub open spec fn addresses(rs: Seq<Record>) -> Seq<Seq<u8>>
    decreases rs.len(),
{
    if rs.len() == 0 {
        Seq::empty()
    } else {
        match record_addr(rs.last()) {
            Some(o) => addresses(rs.drop_last()).push(o),
            None => addresses(rs.drop_last()),
        }
    }
}

/// The least time to live of the records with an address; the largest number
/// where there are none.
pub open spec fn least_ttl(rs: Seq<Record>) -> nat
    decreases rs.len(),
{
    if rs.len() == 0 {
        u32::MAX as nat
    } else {
        let rest = least_ttl(rs.drop_last());
        if record_addr(rs.last()) is Some && rs.last().ttl < rest {
            rs.last().ttl
        } else {
            rest
        }
    }
}

/// What a response to the query `id` says: addresses and the least time to
/// live.
pub open spec fn response_of(buf: Seq<u8>, id: u16) -> Result<(Seq<Seq<u8>>, nat), DnsError> {
    if buf.len() < 12 {
        Err(DnsError::Short(buf.len() as usize))
    } else if wire::be_value(buf.subrange(0, 2)) != id {
        Err(DnsError::WrongId(id, wire::be_value(buf.subrange(0, 2)) as u16))
    } else {
        match questions_end(buf, 12, wire::be_value(buf.subrange(4, 6))) {
            Err(e) => Err(e),
            Ok(p) => match records_at(buf, p, wire::be_value(buf.subrange(6, 8))) {
                Err(e) => Err(e),
                Ok(rs) => Ok((addresses(rs), least_ttl(rs))),
            },
        }
    }
}

/// The octets of a list of addresses.
pub open spec fn octets_of(v: Seq<IpAddr>) -> Seq<Seq<u8>> {
    Seq::new(v.len(), |i: int| v[i]@)
}

/// A record that was read: its address, if it has one, its time to live, and
/// where it ends.
pub struct RecordRead {
    pub addr: Option<IpAddr>,
    pub ttl: u32,
    pub end: usize,
}

/// The octets of an optional address.
pub open spec fn octets_opt(a: Option<IpAddr>) -> Option<Seq<u8>> {
    match a {
        Some(ip) => Some(ip@),
        None => None,
    }
}

/// Reads the record at `pos`.
pub fn read_record(buf: &[u8], pos: usize) -> (r: Result<RecordRead, DnsError>)
    ensures
        match record_at(buf@, pos as int) {
            Ok((rec, end)) => r matches Ok(x) && octets_opt(x.addr) == record_addr(rec) && x.ttl
                == rec.ttl && x.end == end && pos < x.end <= buf@.len(),
            Err(e) => r == Err::<RecordRead, DnsError>(e),
        },
{
    let p = match skip_name(buf, pos) {
        Err(e) => return Err(e),
        Ok(p) => p,
    };
    if buf.len() - p < 10 {
        return Err(DnsError::AnswerHeader);
    }
    let rtype = wire::read_u16(buf, p);
    let ttl = wire::read_u32(buf, p + 4);
    let len: usize = wire::read_u16(buf, p + 8) as usize;
    let start: usize = p + 10;
    if buf.len() - start < len {
        return Err(DnsError::AnswerData);
    }
    let addr: Option<IpAddr> = if rtype == TYPE_A && len == 4 {
        Some(addr::ipv4_from(buf, start))
    } else if rtype == TYPE_AAAA && len == 16 {
        Some(addr::ipv6_from(buf, start))
    } else {
        None
    };
    Ok(RecordRead { addr, ttl, end: start + len })
}

/// The place behind a question, which may lie behind the end of the message.
pub open spec fn same_place(buf: Seq<u8>, p: int, q: int) -> bool {
    p == q || p >= buf.len() && q >= buf.len()
}

/// Skips `n` questions that begin at `pos`.
pub fn skip_questions(buf: &[u8], pos: usize, n: u16) -> (r: Result<usize, DnsError>)
    ensures
        match questions_end(buf@, pos as int, n as nat) {
            Ok(end) => r matches Ok(x) && same_place(buf@, x as int, end),
            Err(e) => r == Err::<usize, DnsError>(e),
        },
{
    let total: usize = buf.len();
    let mut p: usize = pos;
    let mut left: u16 = n;
    let ghost mut at: int = pos as int;
    while left > 0
        invariant
            total == buf@.len(),
            same_place(buf@, p as int, at),
            questions_end(buf@, pos as int, n as nat) == questions_end(buf@, at, left as nat),
        decreases left,
    {
        match skip_name(buf, p) {
            Err(e) => return Err(e),
            Ok(end) => {
                proof {
                    at = end + 4;
                }
                p = end.saturating_add(4);
            },
        }
        left -= 1;
    }
    Ok(p)
}

/// Reads a response to the query `expected_id`.
pub fn parse_dns_response(buf: &[u8], expected_id: u16) -> (r: Result<(Vec<IpAddr>, u32), DnsError>)
    ensures
        match response_of(buf@, expected_id) {
            Ok((addrs, ttl)) => r matches Ok(x) && octets_of(x.0@) == addrs && x.1 == ttl,
            Err(e) => r == Err::<(Vec<IpAddr>, u32), DnsError>(e),
        },
{
    if buf.len() < 12 {
        return Err(DnsError::Short(buf.len()));
    }
    let id = wire::read_u16(buf, 0);
    if id != expected_id {
        return Err(DnsError::WrongId(expected_id, id));
    }
    let qdcount = wire::read_u16(buf, 4);
    let ancount = wire::read_u16(buf, 6);
    let first = match skip_questions(buf, 12, qdcount) {
        Err(e) => return Err(e),
        Ok(p) => p,
    };
    let ghost start = questions_end(buf@, 12, qdcount as nat)->Ok_0;
    let mut pos: usize = first;
    let mut left: u16 = ancount;
    let mut addrs: Vec<IpAddr> = Vec::new();
    let mut min_ttl: u32 = u32::MAX;
    let ghost mut done = Seq::<Record>::empty();
    proof {
        assert(octets_of(addrs@) =~= addresses(done));
        lemma_records_place(buf@, start, pos as int, ancount as nat);
        if let Ok(rest) = records_at(buf@, pos as int, ancount as nat) {
            assert(done + rest =~= rest);
        }
    }
    while left > 0
        invariant
            octets_of(addrs@) == addresses(done),
            min_ttl == least_ttl(done),
            records_at(buf@, start, ancount as nat) == match records_at(
                buf@,
                pos as int,
                left as nat,
            ) {
                Ok(rest) => Ok(done + rest),
                Err(e) => Err(e),
            },
            response_of(buf@, expected_id) == match records_at(buf@, start, ancount as nat) {
                Err(e) => Err(e),
                Ok(rs) => Ok((addresses(rs), least_ttl(rs))),
            },
        decreases left,
    {
        let record = match read_record(buf, pos) {
            Err(e) => return Err(e),
            Ok(x) => x,
        };
        let ghost before = done;
        let ghost rec = record_at(buf@, pos as int)->Ok_0.0;
        proof {
            done = done.push(rec);
            assert(done.drop_last() =~= before);
            if let Ok(rest) = records_at(buf@, record.end as int, (left - 1) as nat) {
                assert(before + (seq![rec] + rest) =~= done + rest);
            }
        }
        match record.addr {
            Some(ip) => {
                let ghost had = octets_of(addrs@);
                addrs.push(ip);
                assert(octets_of(addrs@) =~= had.push(ip@));
                if record.ttl < min_ttl {
                    min_ttl = record.ttl;
                }
            },
            None => {},
        }
        pos = record.end;
        left -= 1;
    }
    assert(done + Seq::<Record>::empty() =~= done);
    Ok((addrs, min_ttl))
}

/// Behind the end of the message it does not matter where one looks.
proof fn lemma_records_place(buf: Seq<u8>, p: int, q: int, n: nat)
    requires
        same_place(buf, p, q),
    ensures
        records_at(buf, p, n) == records_at(buf, q, n),
{
}

// ---------------------------------------------------------------------------
// What is written can be read

/// The bytes of labels are those of the first and those of the others.
pub proof fn lemma_labels_cons(ls: Seq<Seq<char>>)
    requires
        ls.len() > 0,
    ensures
        labels_bytes(ls) == label_bytes(ls[0]) + labels_bytes(ls.drop_first()),
    decreases ls.len(),
{
    if ls.len() == 1 {
        assert(ls.drop_last() =~= Seq::<Seq<char>>::empty());
        assert(ls.drop_first() =~= Seq::<Seq<char>>::empty());
        assert(labels_bytes(ls.drop_last()) =~= Seq::<u8>::empty());
        assert(labels_bytes(ls.drop_first()) =~= Seq::<u8>::empty());
        assert(labels_bytes(ls) =~= label_bytes(ls[0]));
        assert(label_bytes(ls[0]) + Seq::<u8>::empty() =~= label_bytes(ls[0]));
    } else {
        let d = ls.drop_last();
        lemma_labels_cons(d);
        assert(d[0] == ls[0]);
        let t = ls.drop_first();
        assert(d.drop_first() =~= t.drop_last());
        assert(t.last() == ls.last());
        assert(labels_bytes(ls) =~= label_bytes(ls[0]) + (labels_bytes(t.drop_last())
            + label_bytes(t.last())));
    }
}

/// Every label has between one and 63 bytes.
pub open spec fn labels_fit(ls: Seq<Seq<char>>) -> bool {
    forall|i: int|
        0 <= i < ls.len() ==> 1 <= encode_utf8(#[trigger] ls[i]).len() <= 63
}

proof fn lemma_utf8_joined(a: Seq<char>, b: Seq<char>)
    ensures
        encode_utf8(a + b) == encode_utf8(a) + encode_utf8(b),
    decreases a.len(),
{
    if a.len() == 0 {
        assert(a + b =~= b);
        assert(encode_utf8(a) + encode_utf8(b) =~= encode_utf8(b));
    } else {
        let head = vstd::utf8::encode_scalar(a[0] as u32);
        lemma_utf8_joined(a.drop_first(), b);
        assert((a + b).drop_first() =~= a.drop_first() + b);
        assert(head + (encode_utf8(a.drop_first()) + encode_utf8(b)) =~= (head + encode_utf8(
            a.drop_first(),
        )) + encode_utf8(b));
    }
}

/// The pieces between the dots of a name take one byte more than the name when they
/// are written one after the other, each behind its size.
pub proof fn lemma_labels_len(name: Seq<char>)
    ensures
        labels_bytes(text::split_at_char(name, '.')).len() == encode_utf8(name).len() + 1,
    decreases name.len(),
{
    let i = text::first_at(name, '.');
    let ls = text::split_at_char(name, '.');
    text::lemma_first_at(name, '.');
    lemma_labels_cons(ls);
    if i < name.len() {
        let head = name.take(i);
        let rest = name.skip(i + 1);
        let dot = seq!['.'];
        lemma_labels_len(rest);
        assert(ls.drop_first() =~= text::split_at_char(rest, '.'));
        assert(name =~= head + (dot + rest));
        lemma_utf8_joined(head, dot + rest);
        lemma_utf8_joined(dot, rest);
        vstd::utf8::is_ascii_chars_encode_utf8(dot);
    } else {
        assert(ls.drop_first() =~= Seq::<Seq<char>>::empty());
        assert(ls[0] == name);
    }
}

/// Leaving the dots at the end of a name out again changes nothing.
pub proof fn lemma_without_dots_again(name: Seq<char>)
    ensures
        without_dots(without_dots(name)) == without_dots(name),
    decreases name.len(),
{
    if name.len() > 0 && name.last() == '.' {
        lemma_without_dots_again(name.drop_last());
    }
}

/// A name that was written ends right behind its zero byte.
pub proof fn lemma_name_read_back(before: Seq<u8>, ls: Seq<Seq<char>>, after: Seq<u8>)
    requires
        labels_fit(ls),
    ensures
        name_end(before + labels_bytes(ls) + seq![0x00u8] + after, before.len() as int) == Ok::<
            int,
            DnsError,
        >((before.len() + labels_bytes(ls).len() + 1) as int),
    decreases ls.len(),
{
    let buf = before + labels_bytes(ls) + seq![0x00u8] + after;
    let pos = before.len() as int;
    if ls.len() == 0 {
        assert(buf[pos] == 0x00);
    } else {
        lemma_labels_cons(ls);
        let first = label_bytes(ls[0]);
        let rest = ls.drop_first();
        let n = encode_utf8(ls[0]).len();
        assert(1 <= n <= 63);
        assert(first[0] == n);
        assert(buf[pos] == first[0]);
        assert forall|i: int| 0 <= i < rest.len() implies 1 <= encode_utf8(#[trigger] rest[i]).len()
            <= 63 by {
            assert(rest[i] == ls[i + 1]);
        }
        lemma_name_read_back(before + first, rest, after);
        assert(buf =~= (before + first) + labels_bytes(rest) + seq![0x00u8] + after);
        assert(name_end(buf, pos) == name_end(buf, pos + 1 + n));
    }
}

/// A record under a pointer: type, class IN, time to live, data with its size.
pub open spec fn pointer_record(target: u8, rtype: u16, ttl: u32, data: Seq<u8>) -> Seq<u8> {
    seq![0xc0u8, target] + wire::be_bytes(rtype as nat, 2) + seq![0x00u8, 0x01] + wire::be_bytes(
        ttl as nat,
        4,
    ) + wire::be_bytes(data.len(), 2) + data
}

/// A record under a pointer is read as its type, time to live and data.
pub proof fn lemma_record_read_back(
    before: Seq<u8>,
    target: u8,
    rtype: u16,
    ttl: u32,
    data: Seq<u8>,
    after: Seq<u8>,
)
    requires
        data.len() < 65536,
    ensures
        record_at(before + pointer_record(target, rtype, ttl, data) + after, before.len() as int)
            == Ok::<(Record, int), DnsError>(
            (
                Record { rtype: rtype as nat, ttl: ttl as nat, data },
                (before.len() + pointer_record(target, rtype, ttl, data).len()) as int,
            ),
        ),
{
    let rec = pointer_record(target, rtype, ttl, data);
    let buf = before + rec + after;
    let pos = before.len() as int;
    let p = pos + 2;
    wire::lemma_be_bytes_len(rtype as nat, 2);
    wire::lemma_be_bytes_len(ttl as nat, 4);
    wire::lemma_be_bytes_len(data.len(), 2);
    assert(vstd::arithmetic::power::pow(256, 2) == 65536 && vstd::arithmetic::power::pow(256, 4)
        == 0x1_0000_0000) by {
        reveal(vstd::arithmetic::power::pow);
        reveal_with_fuel(vstd::arithmetic::power::pow, 5);
    }
    wire::lemma_be_read_back(rtype as nat, 2);
    wire::lemma_be_read_back(ttl as nat, 4);
    wire::lemma_be_read_back(data.len(), 2);
    assert(buf[pos] == 0xc0);
    assert(name_end(buf, pos) == Ok::<int, DnsError>(p));
    assert(buf.subrange(p, p + 2) =~= wire::be_bytes(rtype as nat, 2));
    assert(buf.subrange(p + 4, p + 8) =~= wire::be_bytes(ttl as nat, 4));
    assert(buf.subrange(p + 8, p + 10) =~= wire::be_bytes(data.len(), 2));
    assert(buf.subrange(p + 10, p + 10 + data.len()) =~= data);
}

/// A response that repeats the question of a query and has one address under a
/// pointer to it is read as that address and its time to live.
pub proof fn lemma_response_read_back(
    id: u16,
    name: Seq<char>,
    qtype: u16,
    octets: Seq<u8>,
    ttl: u32,
    after: Seq<u8>,
)
    requires
        labels_fit(labels_of(name)),
        octets.len() == 4 || octets.len() == 16,
    ensures
        ({
            let rtype = if octets.len() == 4 {
                TYPE_A
            } else {
                TYPE_AAAA
            };
            let msg = query_bytes(id, name, qtype).update(7, 1) + pointer_record(
                12,
                rtype,
                ttl,
                octets,
            ) + after;
            response_of(msg, id) == Ok::<(Seq<Seq<u8>>, nat), DnsError>(
                (seq![octets], ttl as nat),
            )
        }),
{
    let rtype = if octets.len() == 4 {
        TYPE_A
    } else {
        TYPE_AAAA
    };
    let q = query_bytes(id, name, qtype).update(7, 1);
    let rec = pointer_record(12, rtype, ttl, octets);
    let msg = q + rec + after;
    let ls = labels_of(name);
    let i = wire::be_bytes(id as nat, 2);
    wire::lemma_be_bytes_len(id as nat, 2);
    wire::lemma_be_bytes_len(qtype as nat, 2);
    let head = i + seq![0x01u8, 0x00, 0x00, 0x01, 0, 1, 0, 0, 0, 0];
    let tail = wire::be_bytes(qtype as nat, 2) + seq![0x00u8, 0x01];
    assert(q =~= head + labels_bytes(ls) + seq![0x00u8] + tail);
    assert(msg =~= head + labels_bytes(ls) + seq![0x00u8] + (tail + rec + after));
    lemma_name_read_back(head, ls, tail + rec + after);
    assert(vstd::arithmetic::power::pow(256, 2) == 65536) by {
        reveal(vstd::arithmetic::power::pow);
        reveal_with_fuel(vstd::arithmetic::power::pow, 3);
    }
    wire::lemma_be_read_back(id as nat, 2);
    assert(msg.subrange(0, 2) =~= i);
    wire::lemma_be_value_2(msg.subrange(4, 6));
    wire::lemma_be_value_2(msg.subrange(6, 8));
    let end = q.len() as int;
    assert(questions_end(msg, end, 0) == Ok::<int, DnsError>(end));
    assert(questions_end(msg, 12, 1) == Ok::<int, DnsError>(end));
    lemma_record_read_back(q, 12, rtype, ttl, octets, after);
    let r = Record { rtype: rtype as nat, ttl: ttl as nat, data: octets };
    let record_end = (q.len() + rec.len()) as int;
    assert(records_at(msg, record_end, 0) == Ok::<Seq<Record>, DnsError>(Seq::empty()));
    assert(seq![r] + Seq::<Record>::empty() =~= seq![r]);
    assert(records_at(msg, end, 1) == Ok::<Seq<Record>, DnsError>(seq![r]));
    assert(seq![r].drop_last() =~= Seq::<Record>::empty());
    assert(addresses(Seq::<Record>::empty()) == Seq::<Seq<u8>>::empty());
    assert(addresses(seq![r]) =~= seq![octets]);
    assert(least_ttl(Seq::<Record>::empty()) == u32::MAX);
}

// ---------------------------------------------------------------------------
// The cache

/// Addresses, and the millisecond from which they count no longer.
#[derive(Debug, PartialEq, Eq)]
pub struct CacheEntry {
    pub addrs: Vec<IpAddr>,
    pub expires_at: u64,
}

/// Answers by name and record type. Names differ by more than the case of
/// ASCII letters.
#[derive(Debug, PartialEq, Eq)]
pub struct DnsCache {
    a: TextTable<CacheEntry>,
    aaaa: TextTable<CacheEntry>,
}

/// The text with ASCII letters in lower case.
pub open spec fn lower_text(s: Seq<char>) -> Seq<char> {
    Seq::new(s.len(), |i: int| crate::http::lower(s[i]))
}

/// The milliseconds that an answer is kept.
pub open spec fn kept_ms(ttl: nat) -> nat {
    if ttl < CACHE_MIN_TTL {
        (CACHE_MIN_TTL * 1000) as nat
    } else if ttl > CACHE_MAX_TTL {
        (CACHE_MAX_TTL * 1000) as nat
    } else {
        ttl * 1000
    }
}

/// The milliseconds that an answer is kept.
pub fn kept_for(ttl: u32) -> (ms: u64)
    ensures
        ms == kept_ms(ttl as nat),
        5000 <= ms <= 300000,
{
    if (ttl as u64) < CACHE_MIN_TTL {
        CACHE_MIN_TTL * 1000
    } else if ttl as u64 > CACHE_MAX_TTL {
        CACHE_MAX_TTL * 1000
    } else {
        ttl as u64 * 1000
    }
}

/// The answers that still count at `now`.
pub open spec fn live(m: Map<Seq<char>, CacheEntry>, now: u64) -> Map<Seq<char>, CacheEntry> {
    m.restrict(Set::new(|k: Seq<char>| m.dom().contains(k) && m[k].expires_at > now))
}

/// The addresses of a name at `now`.
pub open spec fn found(m: Map<Seq<char>, CacheEntry>, name: Seq<char>, now: u64) -> Option<
    Seq<IpAddr>,
> {
    let k = lower_text(name);
    if m.dom().contains(k) && m[k].expires_at > now {
        Some(m[k].addrs@)
    } else {
        None
    }
}

/// The answers that stay when another one is put to them at `now`: of a full
/// cache, those that still count.
pub open spec fn staying(m: Map<Seq<char>, CacheEntry>, full: bool, now: u64) -> Map<
    Seq<char>,
    CacheEntry,
> {
    if full {
        live(m, now)
    } else {
        m
    }
}

/// The answers with another one that was put to them at `now`.
pub open spec fn with_answer(
    m: Map<Seq<char>, CacheEntry>,
    full: bool,
    name: Seq<char>,
    addrs: Vec<IpAddr>,
    ttl: nat,
    now: u64,
) -> Map<Seq<char>, CacheEntry> {
    staying(m, full, now).insert(
        lower_text(name),
        (CacheEntry { addrs, expires_at: (now + kept_ms(ttl)) as u64 }),
    )
}

/// Writes ASCII letters in lower case.
pub fn to_lower(s: &str) -> (out: String)
    ensures
        out@ == lower_text(s@),
{
    let chars = text::chars_of(s);
    let mut out: Vec<char> = Vec::new();
    let mut i: usize = 0;
    while i < chars.len()
        invariant
            i <= chars@.len(),
            chars@ == s@,
            out@ == lower_text(s@).take(i as int),
        decreases chars@.len() - i,
    {
        let c: char = chars[i];
        if 'A' <= c && c <= 'Z' {
            out.push((c as u8 + 32) as char);
        } else {
            out.push(c);
        }
        assert(out@ =~= lower_text(s@).take(i + 1));
        i += 1;
    }
    assert(lower_text(s@).take(i as int) =~= lower_text(s@));
    text::string_of(out.as_slice())
}

fn prune(t: &mut TextTable<CacheEntry>, now: u64)
    requires
        old(t).wf(),
    ensures
        final(t).wf(),
        final(t)@ == live(old(t)@, now),
{
    let ghost all = t@;
    let mut i: usize = 0;
    while i < t.len()
        invariant
            t.wf(),
            i <= t.size(),
            forall|k: int| 0 <= k < i ==> t@.dom().contains(#[trigger] t.key(k)) && t@[t.key(k)].expires_at
                > now,
            forall|k: Seq<char>| #[trigger]
                t@.dom().contains(k) ==> all.dom().contains(k) && t@[k] == all[k],
            forall|k: Seq<char>|
                all.dom().contains(k) && all[k].expires_at > now ==> #[trigger] t@.dom().contains(k),
        decreases t.size() - i,
    {
        let (key, entry) = t.at(i);
        if entry.expires_at > now {
            i += 1;
        } else {
            let ghost before = *t;
            t.remove_at(i);
            proof {
                assert forall|k: int| 0 <= k < i implies t@.dom().contains(#[trigger] t.key(k))
                    && t@[t.key(k)].expires_at > now by {
                    assert(t.key(k) == before.key(k));
                }
            }
        }
    }
    proof {
        assert forall|k: Seq<char>| t@.dom().contains(k) implies all[k].expires_at > now by {
            t.lemma_key_position(k);
            let j = choose|j: int| 0 <= j < t.size() && #[trigger] t.key(j) == k;
            assert(t@[t.key(j)].expires_at > now);
        }
        assert(t@ =~= live(all, now));
    }
}

impl DnsCache {
    /// The tables are in order.
    pub closed spec fn wf(&self) -> bool {
        self.a.wf() && self.aaaa.wf()
    }

    /// The answers for a record type.
    pub closed spec fn answers(&self, r: RecordType) -> Map<Seq<char>, CacheEntry> {
        match r {
            RecordType::A => self.a@,
            RecordType::Aaaa => self.aaaa@,
        }
    }

    /// How many answers there are.
    pub closed spec fn size(&self) -> nat {
        self.a.size() + self.aaaa.size()
    }

    /// An empty cache.
    pub fn new() -> (c: Self)
        ensures
            c.wf(),
            c.size() == 0,
            forall|r: RecordType| #[trigger]
                c.answers(r) == Map::<Seq<char>, CacheEntry>::empty(),
    {
        DnsCache { a: TextTable::new(), aaaa: TextTable::new() }
    }

    /// The addresses of a name, while they count.
    pub fn get(&self, name: &str, record: RecordType, now: u64) -> (r: Option<Vec<IpAddr>>)
        requires
            self.wf(),
        ensures
            match found(self.answers(record), name@, now) {
                Some(addrs) => r matches Some(v) && v@ == addrs,
                None => r is None,
            },
    {
        let key = to_lower(name);
        let table = match record {
            RecordType::A => &self.a,
            RecordType::Aaaa => &self.aaaa,
        };
        match table.get(key.as_str()) {
            None => None,
            Some(entry) => if entry.expires_at > now {
                Some(copy_addrs(&entry.addrs))
            } else {
                None
            },
        }
    }

    /// Keeps the addresses of a name for its time to live, within bounds. A
    /// full cache drops what counts no longer.
    pub fn put(
        &mut self,
        name: &str,
        record: RecordType,
        addrs: Vec<IpAddr>,
        ttl: u32,
        now: u64,
    )
        requires
            old(self).wf(),
            now <= u64::MAX - 300000,
        ensures
            final(self).wf(),
            forall|r: RecordType| #[trigger]
                final(self).answers(r) == if r == record {
                    with_answer(
                        old(self).answers(r),
                        old(self).size() > CACHE_LIMIT,
                        name@,
                        addrs,
                        ttl as nat,
                        now,
                    )
                } else {
                    staying(old(self).answers(r), old(self).size() > CACHE_LIMIT, now)
                },
    {
        let na: usize = self.a.len();
        let nb: usize = self.aaaa.len();
        if na > CACHE_LIMIT || nb > CACHE_LIMIT - na {
            prune(&mut self.a, now);
            prune(&mut self.aaaa, now);
        }
        let key = to_lower(name);
        let entry = CacheEntry { addrs, expires_at: now + kept_for(ttl) };
        match record {
            RecordType::A => self.a.insert(key.as_str(), entry),
            RecordType::Aaaa => self.aaaa.insert(key.as_str(), entry),
        }
    }
}

fn copy_addrs(v: &Vec<IpAddr>) -> (out: Vec<IpAddr>)
    ensures
        out@ == v@,
{
    let mut out: Vec<IpAddr> = Vec::new();
    let mut i: usize = 0;
    while i < v.len()
        invariant
            i <= v@.len(),
            out@ == v@.take(i as int),
        decreases v@.len() - i,
    {
        out.push(v[i]);
        i += 1;
    }
    assert(v@.take(i as int) =~= v@);
    out
}

/// What was put in the cache is found there, under any case of its letters,
/// until its time is over and no longer; what is found under other names from
/// then on is what it was before.
pub proof fn lemma_cache_read_back(
    m: Map<Seq<char>, CacheEntry>,
    full: bool,
    name: Seq<char>,
    addrs: Vec<IpAddr>,
    ttl: nat,
    then: u64,
    asked: Seq<char>,
    now: u64,
)
    requires
        then <= u64::MAX - 300000,
        then <= now,
    ensures
        found(with_answer(m, full, name, addrs, ttl, then), asked, now) == if lower_text(asked)
            == lower_text(name) {
            if now < then + kept_ms(ttl) {
                Some(addrs@)
            } else {
                None
            }
        } else {
            found(m, asked, now)
        },
{
}

// ---------------------------------------------------------------------------
// Looking up

/// What a look-up does next.
#[derive(Clone, Copy, Debug, PartialEq, Eq, Structural)]
pub enum LookupStep {
    /// Wait for a datagram, for so many milliseconds.
    Wait(u64),
    /// Send the query again.
    Resend,
    TimedOut,
}

/// A query on its way: its identifier, its bytes, and the millisecond at which
/// it is given up.
#[derive(Debug, PartialEq, Eq)]
pub struct Lookup {
    pub id: u16,
    pub query: Vec<u8>,
    pub deadline: u64,
}

impl Lookup {
    /// A query with this identifier.
    pub fn with_id(id: u16, name: &str, record: RecordType, deadline: u64) -> (l: Self)
        ensures
            l.id == id,
            l.query@ == query_bytes(id, name@, record.code()),
            l.deadline == deadline,
    {
        Lookup { id, query: encode_dns_query(id, name, record.qtype()), deadline }
    }

    /// A query with an identifier by chance.
    pub fn start(name: &str, record: RecordType, deadline: u64) -> (l: Self)
        ensures
            l.query@ == query_bytes(l.id, name@, record.code()),
            l.deadline == deadline,
    {
        let id: u16 = crate::system::random_index(65536) as u16;
        Lookup::with_id(id, name, record, deadline)
    }

    /// How long to wait at `now`: the interval of repetition, but not beyond the
    /// deadline.
    pub fn wait_at(&self, now: u64) -> (s: LookupStep)
        ensures
            s == if now >= self.deadline {
                LookupStep::TimedOut
            } else if self.deadline - now < RETRY_INTERVAL_MS {
                LookupStep::Wait((self.deadline - now) as u64)
            } else {
                LookupStep::Wait(RETRY_INTERVAL_MS)
            },
            now + 1200 <= self.deadline ==> s == LookupStep::Wait(1200),
            now < self.deadline <= now + 1200 ==> s == LookupStep::Wait(
                (self.deadline - now) as u64,
            ),
    {
        if now >= self.deadline {
            LookupStep::TimedOut
        } else if self.deadline - now < RETRY_INTERVAL_MS {
            LookupStep::Wait(self.deadline - now)
        } else {
            LookupStep::Wait(RETRY_INTERVAL_MS)
        }
    }

    /// What follows a wait in which nothing came.
    pub fn on_silence(&self, now: u64) -> (s: LookupStep)
        ensures
            s == if now >= self.deadline {
                LookupStep::TimedOut
            } else {
                LookupStep::Resend
            },
    {
        if now >= self.deadline {
            LookupStep::TimedOut
        } else {
            LookupStep::Resend
        }
    }

    /// The addresses and the time to live of a datagram, if it comes from the
    /// server and answers the query with any; other datagrams are passed over.
    pub fn on_datagram(&self, from_server: bool, buf: &[u8]) -> (r: Option<(Vec<IpAddr>, u32)>)
        ensures
            match response_of(buf@, self.id) {
                Ok((addrs, ttl)) => if from_server && addrs.len() > 0 {
                    r matches Some(x) && octets_of(x.0@) == addrs && x.1 == ttl
                } else {
                    r is None
                },
                Err(_) => r is None,
            },
    {
        if !from_server {
            return None;
        }
        match parse_dns_response(buf, self.id) {
            Err(_) => None,
            Ok((addrs, ttl)) => {
                assert(octets_of(addrs@).len() == addrs@.len());
                if addrs.len() > 0 {
                    Some((addrs, ttl))
                } else {
                    None
                }
            },
        }
    }
}

} // verus!
