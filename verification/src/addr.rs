//! IP and socket addresses and their text forms.

use crate::text;
use vstd::prelude::*;

verus! {

/// An IP address by its octets.
#[derive(Clone, Copy, PartialEq, Eq, Debug)]
pub enum IpAddr {
    V4([u8; 4]),
    V6([u8; 16]),
}

impl View for IpAddr {
    type V = Seq<u8>;

    /// The octets: four of an IPv4 address, sixteen of an IPv6 address.
    open spec fn view(&self) -> Seq<u8> {
        match self {
            IpAddr::V4(o) => o@,
            IpAddr::V6(o) => o@,
        }
    }
}

impl IpAddr {
    /// Whether the address is an IPv4 address.
    pub fn is_ipv4(&self) -> (r: bool)
        ensures
            r == (self@.len() == 4),
            r == (self is V4),
    {
        match self {
            IpAddr::V4(_) => true,
            IpAddr::V6(_) => false,
        }
    }

    /// The octets in order.
    pub fn octets(&self) -> (out: Vec<u8>)
        ensures
            out@ == self@,
    {
        let mut out: Vec<u8> = Vec::new();
        match self {
            IpAddr::V4(o) => {
                let mut i: usize = 0;
                while i < 4
                    invariant
                        i <= 4,
                        out@ == o@.take(i as int),
                    decreases 4 - i,
                {
                    out.push(o[i]);
                    i += 1;
                }
                assert(o@.take(4) =~= o@);
            },
            IpAddr::V6(o) => {
                let mut i: usize = 0;
                while i < 16
                    invariant
                        i <= 16,
                        out@ == o@.take(i as int),
                    decreases 16 - i,
                {
                    out.push(o[i]);
                    i += 1;
                }
                assert(o@.take(16) =~= o@);
            },
        }
        out
    }
}

/// The IPv4 address with the octets `s[pos..pos + 4]`.
pub fn ipv4_from(s: &[u8], pos: usize) -> (ip: IpAddr)
    requires
        pos + 4 <= s@.len(),
    ensures
        ip is V4,
        ip@ == s@.subrange(pos as int, pos + 4),
{
    let o: [u8; 4] = [s[pos], s[pos + 1], s[pos + 2], s[pos + 3]];
    assert(o@ =~= s@.subrange(pos as int, pos + 4));
    IpAddr::V4(o)
}

/// The IPv6 address with the octets `s[pos..pos + 16]`.
pub fn ipv6_from(s: &[u8], pos: usize) -> (ip: IpAddr)
    requires
        pos + 16 <= s@.len(),
    ensures
        ip is V6,
        ip@ == s@.subrange(pos as int, pos + 16),
{
    let o: [u8; 16] = [
        s[pos],
        s[pos + 1],
        s[pos + 2],
        s[pos + 3],
        s[pos + 4],
        s[pos + 5],
        s[pos + 6],
        s[pos + 7],
        s[pos + 8],
        s[pos + 9],
        s[pos + 10],
        s[pos + 11],
        s[pos + 12],
        s[pos + 13],
        s[pos + 14],
        s[pos + 15],
    ];
    assert(o@ =~= s@.subrange(pos as int, pos + 16));
    IpAddr::V6(o)
}

/// Whether two addresses are the same.
pub fn same_ip(a: &IpAddr, b: &IpAddr) -> (r: bool)
    ensures
        r == (a@ == b@),
{
    let x = a.octets();
    let y = b.octets();
    crate::wire::same_bytes(x.as_slice(), y.as_slice())
}

/// A socket address; the scope of an IPv4 address is zero.
#[derive(Clone, Copy, PartialEq, Eq, Debug)]
pub struct SocketAddr {
    pub ip: IpAddr,
    pub port: u16,
    pub scope_id: u32,
}

impl SocketAddr {
    /// The address of `port` on `ip`, without a scope.
    pub fn new(ip: IpAddr, port: u16) -> (a: Self)
        ensures
            a.ip == ip,
            a.port == port,
            a.scope_id == 0,
    {
        SocketAddr { ip, port, scope_id: 0 }
    }
}

/// Two socket addresses are the same.
pub open spec fn equal_addrs(a: SocketAddr, b: SocketAddr) -> bool {
    a.ip@ == b.ip@ && a.port == b.port && a.scope_id == b.scope_id
}

/// Whether two socket addresses are the same.
pub fn same_addr(a: &SocketAddr, b: &SocketAddr) -> (r: bool)
    ensures
        r == equal_addrs(*a, *b),
{
    same_ip(&a.ip, &b.ip) && a.port == b.port && a.scope_id == b.scope_id
}

// ---------------------------------------------------------------------------
// IPv4 text

/// The octet that `s` spells: one to three digits, no leading zero, at most 255.
pub open spec fn octet_of(s: Seq<char>) -> Option<u8> {
    if 1 <= s.len() <= 3 && text::all_digits(s) && (s.len() == 1 || s[0] != '0')
        && text::digits_value(s) <= 255 {
        Some(text::digits_value(s) as u8)
    } else {
        None
    }
}

/// The octets of a dotted IPv4 address.
pub open spec fn ipv4_octets(s: Seq<char>) -> Option<Seq<u8>> {
    let p = text::split_at_char(s, '.');
    if p.len() == 4 && octet_of(p[0]) is Some && octet_of(p[1]) is Some && octet_of(p[2]) is Some
        && octet_of(p[3]) is Some {
        Some(
            seq![
                octet_of(p[0])->Some_0,
                octet_of(p[1])->Some_0,
                octet_of(p[2])->Some_0,
                octet_of(p[3])->Some_0,
            ],
        )
    } else {
        None
    }
}

/// The dotted form of an IPv4 address.
pub open spec fn ipv4_text(o: Seq<u8>) -> Seq<char> {
    text::decimal(o[0] as nat) + seq!['.'] + text::decimal(o[1] as nat) + seq!['.']
        + text::decimal(o[2] as nat) + seq!['.'] + text::decimal(o[3] as nat)
}

fn parse_octet(s: &[char]) -> (r: Option<u8>)
    ensures
        r == octet_of(s@),
{
    if s.len() < 1 || s.len() > 3 {
        return None;
    }
    if s[0] == '+' || (s.len() > 1 && s[0] == '0') {
        return None;
    }
    match text::parse_up_to(s, 255) {
        Some(v) => Some(v as u8),
        None => None,
    }
}

/// Reads a dotted IPv4 address.
pub fn parse_ipv4(s: &[char]) -> (r: Option<IpAddr>)
    ensures
        match ipv4_octets(s@) {
            Some(o) => r matches Some(ip) && ip is V4 && ip@ == o,
            None => r is None,
        },
{
    let p = text::split(s, '.');
    if p.len() != 4 {
        return None;
    }
    assert forall|i: int| 0 <= i < 4 implies #[trigger] text::split_at_char(s@, '.')[i]
        == p@[i]@ by {
        assert(text::pieces(p@)[i] == p@[i]@);
    }
    let a = parse_octet(p[0].as_slice());
    let b = parse_octet(p[1].as_slice());
    let c = parse_octet(p[2].as_slice());
    let d = parse_octet(p[3].as_slice());
    match (a, b, c, d) {
        (Some(a), Some(b), Some(c), Some(d)) => {
            let o: [u8; 4] = [a, b, c, d];
            assert(o@ =~= seq![a, b, c, d]);
            Some(IpAddr::V4(o))
        },
        _ => None,
    }
}

fn push_ipv4(out: &mut Vec<char>, o: &[u8])
    requires
        o@.len() == 4,
    ensures
        final(out)@ == old(out)@ + ipv4_text(o@),
{
    text::push_decimal(out, o[0] as u64);
    out.push('.');
    text::push_decimal(out, o[1] as u64);
    out.push('.');
    text::push_decimal(out, o[2] as u64);
    out.push('.');
    text::push_decimal(out, o[3] as u64);
    assert(out@ =~= old(out)@ + ipv4_text(o@));
}

proof fn lemma_octet_read_back(o: u8)
    ensures
        octet_of(text::decimal(o as nat)) == Some(o),
        !text::decimal(o as nat).contains('.'),
{
    text::lemma_decimal(o as nat);
    reveal_with_fuel(text::decimal, 4);
}

/// Splitting what a separator joins gives the first part and the pieces of the
/// rest.
pub proof fn lemma_split_cons(a: Seq<char>, c: char, rest: Seq<char>)
    requires
        !a.contains(c),
    ensures
        text::split_at_char(a + seq![c] + rest, c) == seq![a] + text::split_at_char(rest, c),
{
    let s = a + seq![c] + rest;
    assert forall|k: int| 0 <= k < a.len() implies s[k] != c by {
        assert(s[k] == a[k]);
        assert(a.contains(a[k]));
    }
    text::lemma_first_at_is(s, c, a.len() as int);
    assert(s.take(a.len() as int) =~= a);
    assert(s.skip(a.len() as int + 1) =~= rest);
}

/// Text without the separator is its only piece.
pub proof fn lemma_split_one(a: Seq<char>, c: char)
    requires
        !a.contains(c),
    ensures
        text::split_at_char(a, c) == seq![a],
{
    text::lemma_first_at(a, c);
}

/// The dotted form of an IPv4 address reads back as the address.
pub proof fn lemma_ipv4_read_back(o: Seq<u8>)
    requires
        o.len() == 4,
    ensures
        ipv4_octets(ipv4_text(o)) == Some(o),
{
    let a = text::decimal(o[0] as nat);
    let b = text::decimal(o[1] as nat);
    let c = text::decimal(o[2] as nat);
    let d = text::decimal(o[3] as nat);
    lemma_octet_read_back(o[0]);
    lemma_octet_read_back(o[1]);
    lemma_octet_read_back(o[2]);
    lemma_octet_read_back(o[3]);
    let dot = seq!['.'];
    lemma_split_one(d, '.');
    lemma_split_cons(c, '.', d);
    lemma_split_cons(b, '.', c + dot + d);
    lemma_split_cons(a, '.', b + dot + (c + dot + d));
    assert(ipv4_text(o) =~= a + dot + (b + dot + (c + dot + d)));
    assert(text::split_at_char(ipv4_text(o), '.') =~= seq![a, b, c, d]);
    assert(o =~= seq![o[0], o[1], o[2], o[3]]);
}

// ---------------------------------------------------------------------------
// IPv6 text

/// `c` is a hexadecimal digit of either case.
pub open spec fn is_hex(c: char) -> bool {
    '0' <= c <= '9' || 'a' <= c <= 'f' || 'A' <= c <= 'F'
}

/// What a hexadecimal digit counts.
pub open spec fn hex_digit(c: char) -> nat {
    if '0' <= c <= '9' {
        (c as nat - 0x30) as nat
    } else if 'a' <= c <= 'f' {
        (c as nat - 0x61 + 10) as nat
    } else {
        (c as nat - 0x41 + 10) as nat
    }
}

/// The number that hexadecimal digits spell.
pub open spec fn hex_value(s: Seq<char>) -> nat
    decreases s.len(),
{
    if s.len() == 0 {
        0
    } else {
        hex_value(s.drop_last()) * 16 + hex_digit(s.last())
    }
}

/// Every character of `s` is a hexadecimal digit.
pub open spec fn all_hex(s: Seq<char>) -> bool {
    forall|i: int| 0 <= i < s.len() ==> is_hex(#[trigger] s[i])
}

/// The group that `s` spells: one to four hexadecimal digits.
pub open spec fn group_of(s: Seq<char>) -> Option<u16> {
    if 1 <= s.len() <= 4 && all_hex(s) {
        Some(hex_value(s) as u16)
    } else {
        None
    }
}

/// The groups of the pieces between colons; where `dotted` is set, the last
/// piece may be an IPv4 address, which counts as two groups.
pub open spec fn piece_groups(p: Seq<Seq<char>>, dotted: bool) -> Option<Seq<u16>>
    decreases p.len(),
{
    if p.len() == 0 {
        Some(Seq::empty())
    } else if p.len() == 1 && dotted && ipv4_octets(p[0]) is Some {
        let o = ipv4_octets(p[0])->Some_0;
        Some(seq![(o[0] * 256 + o[1]) as u16, (o[2] * 256 + o[3]) as u16])
    } else {
        match (group_of(p[0]), piece_groups(p.drop_first(), dotted)) {
            (Some(g), Some(rest)) => Some(seq![g] + rest),
            _ => None,
        }
    }
}

/// The groups of one side of an IPv6 address; an empty side has none.
pub open spec fn groups_of(s: Seq<char>, dotted: bool) -> Option<Seq<u16>> {
    if s.len() == 0 {
        Some(Seq::empty())
    } else {
        piece_groups(text::split_at_char(s, ':'), dotted)
    }
}

/// Where two colons in a row first occur in `s`; the length of `s` if nowhere.
pub open spec fn double_colon(s: Seq<char>) -> int
    decreases s.len(),
{
    if s.len() < 2 {
        s.len() as int
    } else if s[0] == ':' && s[1] == ':' {
        0
    } else {
        1 + double_colon(s.drop_first())
    }
}

/// `n` zero groups.
pub open spec fn zero_groups(n: int) -> Seq<u16> {
    Seq::new(n as nat, |i: int| 0u16)
}

/// The eight groups of an IPv6 address: written out, or with `::` for one or
/// more zero groups.
pub open spec fn ipv6_groups(s: Seq<char>) -> Option<Seq<u16>> {
    let i = double_colon(s);
    if i >= s.len() {
        match groups_of(s, true) {
            Some(g) => if g.len() == 8 {
                Some(g)
            } else {
                None
            },
            None => None,
        }
    } else {
        match (groups_of(s.take(i), false), groups_of(s.skip(i + 2), true)) {
            (Some(head), Some(tail)) => if head.len() + tail.len() <= 7 {
                Some(head + zero_groups(8 - head.len() - tail.len()) + tail)
            } else {
                None
            },
            _ => None,
        }
    }
}

/// Two octets per group, the high one first.
pub open spec fn group_octets(g: Seq<u16>) -> Seq<u8> {
    Seq::new(
        2 * g.len(),
        |i: int|
            if i % 2 == 0 {
                (g[i / 2] / 256) as u8
            } else {
                (g[i / 2] % 256) as u8
            },
    )
}

/// The octets of the IP address that `s` spells, in either form.
pub open spec fn ip_octets(s: Seq<char>) -> Option<Seq<u8>> {
    match ipv4_octets(s) {
        Some(o) => Some(o),
        None => match ipv6_groups(s) {
            Some(g) => Some(group_octets(g)),
            None => None,
        },
    }
}

fn hex_of(c: char) -> (r: Option<u32>)
    ensures
        match r {
            Some(v) => is_hex(c) && v == hex_digit(c) && v < 16,
            None => !is_hex(c),
        },
{
    if '0' <= c && c <= '9' {
        Some(c as u32 - 0x30)
    } else if 'a' <= c && c <= 'f' {
        Some(c as u32 - 0x61 + 10)
    } else if 'A' <= c && c <= 'F' {
        Some(c as u32 - 0x41 + 10)
    } else {
        None
    }
}

fn parse_group(s: &[char]) -> (r: Option<u16>)
    ensures
        r == group_of(s@),
{
    if s.len() < 1 || s.len() > 4 {
        return None;
    }
    let mut value: u32 = 0;
    let mut bound: u32 = 1;
    let mut i: usize = 0;
    assert(s@.take(0) =~= Seq::empty());
    while i < s.len()
        invariant
            i <= s@.len() <= 4,
            1 <= s@.len(),
            forall|k: int| 0 <= k < i ==> is_hex(#[trigger] s@[k]),
            value == hex_value(s@.take(i as int)),
            value < bound,
            bound == if i == 0 {
                1u32
            } else if i == 1 {
                16
            } else if i == 2 {
                256
            } else if i == 3 {
                4096
            } else {
                65536
            },
        decreases s@.len() - i,
    {
        match hex_of(s[i]) {
            None => {
                assert(!is_hex(s@[i as int]));
                return None;
            },
            Some(v) => {
                assert(s@.take(i + 1).drop_last() =~= s@.take(i as int));
                value = value * 16 + v;
                bound = bound * 16;
            },
        }
        i += 1;
    }
    assert(s@.take(i as int) =~= s@);
    Some(value as u16)
}

fn parse_pieces(p: &Vec<Vec<char>>, dotted: bool) -> (r: Option<Vec<u16>>)
    ensures
        match piece_groups(text::pieces(p@), dotted) {
            Some(g) => r matches Some(x) && x@ == g,
            None => r is None,
        },
{
    let mut out: Vec<u16> = Vec::new();
    let mut i: usize = 0;
    let ghost all = text::pieces(p@);
    assert(all.skip(0) =~= all);
    assert(piece_groups(all, dotted) matches Some(g) ==> out@ + g =~= g);
    while i < p.len()
        invariant
            i <= p@.len(),
            all == text::pieces(p@),
            piece_groups(all, dotted) == match piece_groups(all.skip(i as int), dotted) {
                Some(g) => Some(out@ + g),
                None => None,
            },
        decreases p@.len() - i,
    {
        let ghost rest = all.skip(i as int);
        assert(rest[0] == p@[i as int]@);
        assert(rest.drop_first() =~= all.skip(i + 1));
        if i + 1 == p.len() && dotted {
            if let Some(ip) = parse_ipv4(p[i].as_slice()) {
                let o = ip.octets();
                let ghost before = out@;
                out.push(o[0] as u16 * 256 + o[1] as u16);
                out.push(o[2] as u16 * 256 + o[3] as u16);
                proof {
                    let two = piece_groups(rest, dotted)->Some_0;
                    assert(out@ =~= before + two);
                }
                return Some(out);
            }
        }
        match parse_group(p[i].as_slice()) {
            None => return None,
            Some(g) => {
                let ghost before = out@;
                out.push(g);
                proof {
                    if let Some(more) = piece_groups(rest.drop_first(), dotted) {
                        assert(before + (seq![g] + more) =~= out@ + more);
                    }
                }
            },
        }
        i += 1;
    }
    assert(out@ + Seq::<u16>::empty() =~= out@);
    Some(out)
}

fn parse_groups(s: &[char], dotted: bool) -> (r: Option<Vec<u16>>)
    ensures
        match groups_of(s@, dotted) {
            Some(g) => r matches Some(x) && x@ == g,
            None => r is None,
        },
{
    if s.len() == 0 {
        return Some(Vec::new());
    }
    let p = text::split(s, ':');
    parse_pieces(&p, dotted)
}

fn find_double_colon(s: &[char]) -> (i: usize)
    ensures
        i == double_colon(s@),
        i < s@.len() ==> i + 2 <= s@.len(),
{
    let mut i: usize = 0;
    assert(s@.skip(0) =~= s@);
    while i < s.len()
        invariant
            i <= s@.len(),
            double_colon(s@) == i + double_colon(s@.skip(i as int)),
        decreases s@.len() - i,
    {
        let ghost rest = s@.skip(i as int);
        if s.len() - i < 2 {
            return s.len();
        }
        if s[i] == ':' && s[i + 1] == ':' {
            return i;
        }
        assert(rest.drop_first() =~= s@.skip(i + 1));
        i += 1;
    }
    i
}

fn pack_groups(g: &Vec<u16>) -> (ip: IpAddr)
    requires
        g@.len() == 8,
    ensures
        ip is V6,
        ip@ == group_octets(g@),
{
    let mut o: Vec<u8> = Vec::new();
    let mut i: usize = 0;
    while i < 8
        invariant
            i <= 8,
            g@.len() == 8,
            o@ == group_octets(g@).take(2 * i as int),
        decreases 8 - i,
    {
        o.push((g[i] / 256) as u8);
        o.push((g[i] % 256) as u8);
        assert(o@ =~= group_octets(g@).take(2 * (i + 1) as int));
        i += 1;
    }
    let ip = ipv6_from(o.as_slice(), 0);
    assert(ip@ =~= group_octets(g@));
    ip
}

/// Reads an IPv6 address.
pub fn parse_ipv6(s: &[char]) -> (r: Option<IpAddr>)
    ensures
        match ipv6_groups(s@) {
            Some(g) => r matches Some(ip) && ip is V6 && ip@ == group_octets(g),
            None => r is None,
        },
{
    let i = find_double_colon(s);
    if i >= s.len() {
        match parse_groups(s, true) {
            Some(g) => if g.len() == 8 {
                Some(pack_groups(&g))
            } else {
                None
            },
            None => None,
        }
    } else {
        let left = text::part(s, 0, i);
        let right = text::part(s, i + 2, s.len());
        assert(left@ =~= s@.take(i as int));
        assert(right@ =~= s@.skip(i + 2));
        match (parse_groups(left.as_slice(), false), parse_groups(right.as_slice(), true)) {
            (Some(head), Some(tail)) => {
                if head.len() > 7 || tail.len() > 7 - head.len() {
                    return None;
                }
                let mut g: Vec<u16> = Vec::new();
                let mut k: usize = 0;
                while k < head.len()
                    invariant
                        k <= head@.len(),
                        g@ == head@.take(k as int),
                    decreases head@.len() - k,
                {
                    g.push(head[k]);
                    k += 1;
                }
                assert(head@.take(k as int) =~= head@);
                let zeros: usize = 8 - head.len() - tail.len();
                k = 0;
                while k < zeros
                    invariant
                        k <= zeros,
                        g@ == head@ + zero_groups(k as int),
                    decreases zeros - k,
                {
                    g.push(0);
                    assert(g@ =~= head@ + zero_groups(k + 1));
                    k += 1;
                }
                k = 0;
                assert(g@ =~= head@ + zero_groups(zeros as int) + tail@.take(0));
                while k < tail.len()
                    invariant
                        k <= tail@.len(),
                        g@ == head@ + zero_groups(zeros as int) + tail@.take(k as int),
                    decreases tail@.len() - k,
                {
                    g.push(tail[k]);
                    assert(g@ =~= head@ + zero_groups(zeros as int) + tail@.take(k + 1));
                    k += 1;
                }
                assert(tail@.take(k as int) =~= tail@);
                Some(pack_groups(&g))
            },
            _ => None,
        }
    }
}

/// Reads an IP address in either form.
pub fn parse_ip(s: &[char]) -> (r: Option<IpAddr>)
    ensures
        match ip_octets(s@) {
            Some(o) => r matches Some(ip) && ip@ == o,
            None => r is None,
        },
        r matches Some(ip) ==> (ip is V4) == (ipv4_octets(s@) is Some),
{
    match parse_ipv4(s) {
        Some(ip) => Some(ip),
        None => parse_ipv6(s),
    }
}

/// The lower-case hexadecimal digit for a number below sixteen.
pub open spec fn hex_char(d: nat) -> char {
    if d < 10 {
        (0x30 + d) as char
    } else {
        (0x61 + d - 10) as char
    }
}

/// The lower-case hexadecimal digits of `n`, without leading zeros.
pub open spec fn hex_text(n: nat) -> Seq<char>
    decreases n,
{
    if n < 16 {
        seq![hex_char(n)]
    } else {
        hex_text(n / 16).push(hex_char(n % 16))
    }
}

/// Groups in hexadecimal with colons between them.
pub open spec fn groups_text(g: Seq<u16>) -> Seq<char>
    decreases g.len(),
{
    if g.len() == 0 {
        Seq::empty()
    } else if g.len() == 1 {
        hex_text(g[0] as nat)
    } else {
        hex_text(g[0] as nat) + seq![':'] + groups_text(g.drop_first())
    }
}

/// The groups of sixteen octets.
pub open spec fn octet_groups(o: Seq<u8>) -> Seq<u16> {
    Seq::new(8, |i: int| (o[2 * i] * 256 + o[2 * i + 1]) as u16)
}

/// How many zero groups stand in a row from `i` on.
pub open spec fn zero_run(g: Seq<u16>, i: int) -> int
    decreases g.len() - i,
{
    if 0 <= i < g.len() && g[i] == 0 {
        1 + zero_run(g, i + 1)
    } else {
        0
    }
}

/// The longest run of zero groups that starts before `n`, and of several the
/// first: where it starts and how long it is.
pub open spec fn longest_run(g: Seq<u16>, n: int) -> (int, int)
    decreases n,
{
    if n <= 0 {
        (0, 0)
    } else if zero_run(g, n - 1) > longest_run(g, n - 1).1 {
        (n - 1, zero_run(g, n - 1))
    } else {
        longest_run(g, n - 1)
    }
}

/// The address maps an IPv4 address.
pub open spec fn is_mapped(g: Seq<u16>) -> bool {
    g[0] == 0 && g[1] == 0 && g[2] == 0 && g[3] == 0 && g[4] == 0 && g[5] == 0xffff
}

/// The text of an IPv6 address: the longest run of two or more zero groups is
/// written `::`, and a mapped IPv4 address keeps its dotted form.
pub open spec fn ipv6_text(o: Seq<u8>) -> Seq<char> {
    let g = octet_groups(o);
    let (start, len) = longest_run(g, 8);
    if is_mapped(g) {
        seq![':', ':', 'f', 'f', 'f', 'f', ':'] + ipv4_text(o.skip(12))
    } else if len > 1 {
        groups_text(g.take(start)) + seq![':', ':'] + groups_text(g.skip(start + len))
    } else {
        groups_text(g)
    }
}

/// The text of an IP address.
pub open spec fn ip_text(o: Seq<u8>) -> Seq<char> {
    if o.len() == 4 {
        ipv4_text(o)
    } else {
        ipv6_text(o)
    }
}

fn hex_digit_char(d: u16) -> (c: char)
    requires
        d < 16,
    ensures
        c == hex_char(d as nat),
{
    match d {
        0 => '0',
        1 => '1',
        2 => '2',
        3 => '3',
        4 => '4',
        5 => '5',
        6 => '6',
        7 => '7',
        8 => '8',
        9 => '9',
        10 => 'a',
        11 => 'b',
        12 => 'c',
        13 => 'd',
        14 => 'e',
        _ => 'f',
    }
}

fn push_hex(out: &mut Vec<char>, n: u16)
    ensures
        final(out)@ == old(out)@ + hex_text(n as nat),
    decreases n,
{
    if n < 16 {
        out.push(hex_digit_char(n));
    } else {
        push_hex(out, n / 16);
        out.push(hex_digit_char(n % 16));
    }
    assert(out@ =~= old(out)@ + hex_text(n as nat));
}

fn push_groups(out: &mut Vec<char>, g: &Vec<u16>, from: usize, to: usize)
    requires
        from <= to <= g@.len(),
    ensures
        final(out)@ == old(out)@ + groups_text(g@.subrange(from as int, to as int)),
    decreases to - from,
{
    let ghost part = g@.subrange(from as int, to as int);
    if from < to {
        push_hex(out, g[from]);
        if from + 1 < to {
            out.push(':');
            push_groups(out, g, from + 1, to);
            assert(part.drop_first() =~= g@.subrange(from + 1, to as int));
        }
    }
    assert(out@ =~= old(out)@ + groups_text(part));
}

fn groups_from(o: &Vec<u8>) -> (g: Vec<u16>)
    requires
        o@.len() == 16,
    ensures
        g@ == octet_groups(o@),
{
    let mut g: Vec<u16> = Vec::new();
    let mut i: usize = 0;
    while i < 8
        invariant
            i <= 8,
            o@.len() == 16,
            g@ == octet_groups(o@).take(i as int),
        decreases 8 - i,
    {
        g.push(o[2 * i] as u16 * 256 + o[2 * i + 1] as u16);
        assert(g@ =~= octet_groups(o@).take(i + 1));
        i += 1;
    }
    assert(octet_groups(o@).take(8) =~= octet_groups(o@));
    g
}

fn run_at(g: &Vec<u16>, i: usize) -> (n: usize)
    requires
        i <= g@.len(),
    ensures
        n == zero_run(g@, i as int),
        i + n <= g@.len(),
    decreases g@.len() - i,
{
    if i < g.len() && g[i] == 0 {
        1 + run_at(g, i + 1)
    } else {
        0
    }
}

/// Appends the text of an IP address.
pub fn push_ip(out: &mut Vec<char>, ip: &IpAddr)
    ensures
        final(out)@ == old(out)@ + ip_text(ip@),
{
    let o = ip.octets();
    if ip.is_ipv4() {
        push_ipv4(out, o.as_slice());
        return;
    }
    let g = groups_from(&o);
    if g[0] == 0 && g[1] == 0 && g[2] == 0 && g[3] == 0 && g[4] == 0 && g[5] == 0xffff {
        out.push(':');
        out.push(':');
        out.push('f');
        out.push('f');
        out.push('f');
        out.push('f');
        out.push(':');
        let tail = crate::wire::bytes_of(o.as_slice(), 12, 16);
        assert(tail@ =~= o@.skip(12));
        push_ipv4(out, tail.as_slice());
        assert(out@ =~= old(out)@ + ip_text(ip@));
        return;
    }
    let mut start: usize = 0;
    let mut len: usize = 0;
    let mut n: usize = 0;
    while n < 8
        invariant
            n <= 8,
            g@.len() == 8,
            start == longest_run(g@, n as int).0,
            len == longest_run(g@, n as int).1,
            start + len <= 8,
        decreases 8 - n,
    {
        let l = run_at(&g, n);
        if l > len {
            start = n;
            len = l;
        }
        n += 1;
    }
    if len > 1 {
        push_groups(out, &g, 0, start);
        out.push(':');
        out.push(':');
        push_groups(out, &g, start + len, 8);
        assert(g@.subrange(0, start as int) =~= g@.take(start as int));
        assert(g@.subrange(start + len, 8) =~= g@.skip(start + len));
    } else {
        push_groups(out, &g, 0, 8);
        assert(g@.subrange(0, 8) =~= g@);
    }
    assert(out@ =~= old(out)@ + ip_text(ip@));
}

proof fn lemma_hex_read_back(n: nat)
    requires
        n < 65536,
    ensures
        group_of(hex_text(n)) == Some(n as u16),
        hex_value(hex_text(n)) == n,
        all_hex(hex_text(n)),
        !hex_text(n).contains(':'),
        !hex_text(n).contains('.'),
        1 <= hex_text(n).len() <= 4,
{
    lemma_hex_text(n);
    reveal_with_fuel(hex_text, 5);
    let s = hex_text(n);
    assert forall|i: int| 0 <= i < s.len() implies s[i] != ':' && s[i] != '.' by {
        assert(is_hex(s[i]));
    }
}

/// The hexadecimal digits of a number spell it.
pub proof fn lemma_hex_text(n: nat)
    ensures
        hex_value(hex_text(n)) == n,
        all_hex(hex_text(n)),
        hex_text(n).len() >= 1,
    decreases n,
{
    if n >= 16 {
        lemma_hex_text(n / 16);
        assert(hex_text(n).drop_last() =~= hex_text(n / 16));
    } else {
        assert(hex_text(n).drop_last() =~= Seq::empty());
        assert(hex_value(hex_text(n).drop_last()) == 0);
    }
}

/// No two colons in a row, and none at either end.
spec fn single_colons(s: Seq<char>) -> bool {
    &&& s.len() > 0 ==> s[0] != ':' && s.last() != ':'
    &&& forall|i: int, j: int|
        0 <= i && j == i + 1 && j < s.len() ==> !(#[trigger] s[i] == ':' && #[trigger] s[j] == ':')
}

proof fn lemma_no_double_colon(s: Seq<char>)
    requires
        single_colons(s),
    ensures
        double_colon(s) == s.len(),
{
    lemma_no_double_colon_inner(s);
}

/// Without two colons in a row there is no place for them.
pub proof fn lemma_no_double_colon_inner(s: Seq<char>)
    requires
        forall|i: int, j: int|
            0 <= i && j == i + 1 && j < s.len() ==> !(#[trigger] s[i] == ':' && #[trigger] s[j]
                == ':'),
    ensures
        double_colon(s) == s.len(),
    decreases s.len(),
{
    if s.len() >= 2 {
        let t = s.drop_first();
        assert forall|i: int, j: int| 0 <= i && j == i + 1 && j < t.len() implies !(#[trigger] t[i]
            == ':' && #[trigger] t[j] == ':') by {
            assert(t[i] == s[i + 1] && t[j] == s[j + 1]);
        }
        lemma_no_double_colon_inner(t);
    }
}

proof fn lemma_double_colon_after(a: Seq<char>, b: Seq<char>)
    requires
        single_colons(a),
    ensures
        double_colon(a + seq![':', ':'] + b) == a.len(),
    decreases a.len(),
{
    lemma_double_colon_after_inner(a, b);
}

/// Two colons in a row are found behind a text that has none.
pub proof fn lemma_double_colon_after_inner(a: Seq<char>, b: Seq<char>)
    requires
        a.len() > 0 ==> a.last() != ':',
        forall|i: int, j: int|
            0 <= i && j == i + 1 && j < a.len() ==> !(#[trigger] a[i] == ':' && #[trigger] a[j]
                == ':'),
    ensures
        double_colon(a + seq![':', ':'] + b) == a.len(),
    decreases a.len(),
{
    let s = a + seq![':', ':'] + b;
    if a.len() == 0 {
        assert(s[0] == ':' && s[1] == ':');
    } else {
        let t = a.drop_first();
        assert forall|i: int, j: int| 0 <= i && j == i + 1 && j < t.len() implies !(#[trigger] t[i]
            == ':' && #[trigger] t[j] == ':') by {
            assert(t[i] == a[i + 1] && t[j] == a[j + 1]);
        }
        if t.len() > 0 {
            assert(t.last() == a.last());
        }
        lemma_double_colon_after_inner(t, b);
        assert(s.drop_first() =~= t + seq![':', ':'] + b);
        assert(!(s[0] == ':' && s[1] == ':')) by {
            if a.len() >= 2 {
                assert(s[0] == a[0] && s[1] == a[1]);
            } else {
                assert(s[0] == a.last());
            }
        }
    }
}

proof fn lemma_groups_text(g: Seq<u16>, dotted: bool)
    ensures
        groups_of(groups_text(g), dotted) == Some(g),
        single_colons(groups_text(g)),
        g.len() > 0 ==> groups_text(g).len() > 0,
        g.len() > 0 ==> piece_groups(text::split_at_char(groups_text(g), ':'), dotted) == Some(g),
        g.len() > 0 ==> text::split_at_char(groups_text(g), ':').len() == g.len(),
    decreases g.len(),
{
    if g.len() > 0 {
        let first = hex_text(g[0] as nat);
        lemma_hex_read_back(g[0] as nat);
        lemma_split_one(first, '.');
        assert(ipv4_octets(first) is None);
        assert forall|i: int| 0 <= i < first.len() implies first[i] != ':' by {
            assert(first.contains(first[i]));
        }
        if g.len() == 1 {
            lemma_split_one(first, ':');
            let p = seq![first];
            assert(p.drop_first() =~= Seq::<Seq<char>>::empty());
            assert(piece_groups(p.drop_first(), dotted) == Some(Seq::<u16>::empty()));
            assert(seq![g[0]] + Seq::<u16>::empty() =~= g);
        } else {
            let rest = g.drop_first();
            let tail = groups_text(rest);
            lemma_groups_text(rest, dotted);
            lemma_split_cons(first, ':', tail);
            let p = text::split_at_char(groups_text(g), ':');
            assert(p =~= seq![first] + text::split_at_char(tail, ':'));
            assert(p.drop_first() =~= text::split_at_char(tail, ':'));
            assert(seq![g[0]] + rest =~= g);
            let s = groups_text(g);
            let n = first.len() as int;
            assert forall|i: int, j: int| 0 <= i && j == i + 1 && j < s.len() implies !(#[trigger] s[i]
                == ':' && #[trigger] s[j] == ':') by {
                if j < n {
                    assert(s[i] == first[i]);
                } else if j == n {
                    assert(s[i] == first[i]);
                } else if i == n {
                    assert(s[j] == tail[0]);
                } else {
                    assert(s[i] == tail[i - n - 1] && s[j] == tail[j - n - 1]);
                }
            }
            assert(s[0] == first[0]);
            assert(s.last() == tail.last());
        }
    }
}

proof fn lemma_zero_run(g: Seq<u16>, i: int)
    requires
        0 <= i <= g.len(),
    ensures
        0 <= zero_run(g, i) <= g.len() - i,
        forall|k: int| i <= k < i + zero_run(g, i) ==> g[k] == 0,
    decreases g.len() - i,
{
    if i < g.len() && g[i] == 0 {
        lemma_zero_run(g, i + 1);
    }
}

proof fn lemma_longest_run(g: Seq<u16>, n: int)
    requires
        0 <= n <= g.len(),
    ensures
        ({
            let (start, len) = longest_run(g, n);
            &&& 0 <= start
            &&& 0 <= len
            &&& start + len <= g.len()
            &&& forall|k: int| start <= k < start + len ==> g[k] == 0
        }),
    decreases n,
{
    if n > 0 {
        lemma_longest_run(g, n - 1);
        lemma_zero_run(g, n - 1);
    }
}

proof fn lemma_octets_groups(o: Seq<u8>)
    requires
        o.len() == 16,
    ensures
        group_octets(octet_groups(o)) == o,
{
    let g = octet_groups(o);
    assert forall|i: int| 0 <= i < 16 implies group_octets(g)[i] == o[i] by {
        let j = i / 2;
        assert(g[j] == (o[2 * j] * 256 + o[2 * j + 1]) as u16);
    }
    assert(group_octets(g) =~= o);
}

/// The text of an IP address reads back as the address.
pub proof fn lemma_ip_read_back(o: Seq<u8>)
    requires
        o.len() == 4 || o.len() == 16,
    ensures
        ip_octets(ip_text(o)) == Some(o),
{
    if o.len() == 4 {
        lemma_ipv4_read_back(o);
    } else {
        lemma_ipv6_read_back(o);
        lemma_ipv6_is_not_ipv4(o);
    }
}

proof fn lemma_colon_is_not_ipv4(s: Seq<char>)
    requires
        text::split_at_char(s, '.')[0].contains(':'),
    ensures
        ipv4_octets(s) is None,
{
    let first = text::split_at_char(s, '.')[0];
    let k = choose|k: int| 0 <= k < first.len() && first[k] == ':';
    assert(!text::is_digit(first[k]));
}

proof fn lemma_ipv6_is_not_ipv4(o: Seq<u8>)
    requires
        o.len() == 16,
    ensures
        ipv4_octets(ipv6_text(o)) is None,
{
    let s = ipv6_text(o);
    let g = octet_groups(o);
    text::lemma_first_at(s, '.');
    let i = text::first_at(s, '.');
    let first = text::split_at_char(s, '.')[0];
    assert(first =~= s.take(i));
    if is_mapped(g) {
        assert(s[0] == ':');
        assert(i > 0);
        assert(first[0] == ':');
        lemma_colon_is_not_ipv4(s);
    } else {
        assert(s.contains(':') && !s.contains('.')) by {
            lemma_ipv6_chars(o);
        }
        assert(first =~= s);
        lemma_colon_is_not_ipv4(s);
    }
}

proof fn lemma_groups_chars(g: Seq<u16>)
    ensures
        !groups_text(g).contains('.'),
        g.len() > 1 ==> groups_text(g).contains(':'),
    decreases g.len(),
{
    let s = groups_text(g);
    if g.len() > 0 {
        lemma_hex_read_back(g[0] as nat);
        let first = hex_text(g[0] as nat);
        if g.len() > 1 {
            let tail = groups_text(g.drop_first());
            lemma_groups_chars(g.drop_first());
            let n = first.len() as int;
            assert(s[n] == ':');
            assert forall|i: int| 0 <= i < s.len() implies s[i] != '.' by {
                if i < n {
                    assert(first.contains(first[i]));
                } else if i > n {
                    assert(tail.contains(tail[i - n - 1]));
                }
            }
        }
    }
}

proof fn lemma_ipv6_chars(o: Seq<u8>)
    requires
        o.len() == 16,
        !is_mapped(octet_groups(o)),
    ensures
        ipv6_text(o).contains(':'),
        !ipv6_text(o).contains('.'),
{
    let g = octet_groups(o);
    let s = ipv6_text(o);
    let (start, len) = longest_run(g, 8);
    lemma_longest_run(g, 8);
    if len > 1 {
        let a = groups_text(g.take(start));
        let b = groups_text(g.skip(start + len));
        lemma_groups_chars(g.take(start));
        lemma_groups_chars(g.skip(start + len));
        let n = a.len() as int;
        assert(s[n] == ':');
        assert forall|i: int| 0 <= i < s.len() implies s[i] != '.' by {
            if i < n {
                assert(a.contains(a[i]));
            } else if i >= n + 2 {
                assert(b.contains(b[i - n - 2]));
            }
        }
    } else {
        lemma_groups_chars(g);
    }
}

proof fn lemma_ipv6_read_back(o: Seq<u8>)
    requires
        o.len() == 16,
    ensures
        ipv6_groups(ipv6_text(o)) == Some(octet_groups(o)),
        group_octets(octet_groups(o)) == o,
{
    lemma_octets_groups(o);
    let g = octet_groups(o);
    let s = ipv6_text(o);
    let (start, len) = longest_run(g, 8);
    if is_mapped(g) {
        lemma_mapped_read_back(o);
    } else if len > 1 {
        lemma_longest_run(g, 8);
        let head = g.take(start);
        let tail = g.skip(start + len);
        let a = groups_text(head);
        let b = groups_text(tail);
        lemma_groups_text(head, false);
        lemma_groups_text(tail, true);
        lemma_double_colon_after(a, b);
        assert(s.take(a.len() as int) =~= a);
        assert(s.skip(a.len() as int + 2) =~= b);
        assert(head + zero_groups(8 - head.len() - tail.len()) + tail =~= g);
    } else {
        lemma_groups_text(g, true);
        lemma_no_double_colon(s);
    }
}

proof fn lemma_mapped_read_back(o: Seq<u8>)
    requires
        o.len() == 16,
        is_mapped(octet_groups(o)),
    ensures
        ipv6_groups(ipv6_text(o)) == Some(octet_groups(o)),
{
    let g = octet_groups(o);
    let s = ipv6_text(o);
    let low = o.skip(12);
    let v4 = ipv4_text(low);
    lemma_ipv4_read_back(low);
    lemma_ipv4_no_colon(low);
    let ffff = seq!['f', 'f', 'f', 'f'];
    let tail = ffff + seq![':'] + v4;
    assert(double_colon(s) == 0);
    assert(s.skip(2) =~= tail);
    assert(s.take(0) =~= Seq::empty());
    lemma_split_one(v4, ':');
    lemma_split_cons(ffff, ':', v4);
    let p = text::split_at_char(tail, ':');
    assert(p =~= seq![ffff, v4]);
    assert(p.drop_first() =~= seq![v4]);
    assert(group_of(ffff) == Some(0xffffu16)) by {
        reveal_with_fuel(hex_value, 6);
    }
    let pair = seq![(low[0] * 256 + low[1]) as u16, (low[2] * 256 + low[3]) as u16];
    assert(piece_groups(seq![v4], true) == Some(pair));
    assert(piece_groups(p, true) == Some(seq![0xffffu16] + pair));
    let t = seq![0xffffu16] + pair;
    assert(groups_of(tail, true) == Some(t));
    assert(Seq::<u16>::empty() + zero_groups(5) + t =~= g);
}

proof fn lemma_ipv4_no_colon(o: Seq<u8>)
    requires
        o.len() == 4,
    ensures
        !ipv4_text(o).contains(':'),
{
    text::lemma_decimal(o[0] as nat);
    text::lemma_decimal(o[1] as nat);
    text::lemma_decimal(o[2] as nat);
    text::lemma_decimal(o[3] as nat);
    let a = text::decimal(o[0] as nat);
    let b = text::decimal(o[1] as nat);
    let c = text::decimal(o[2] as nat);
    let d = text::decimal(o[3] as nat);
    let s = ipv4_text(o);
    assert forall|i: int| 0 <= i < s.len() implies s[i] != ':' by {
        let x = a.len() as int;
        let y = x + 1 + b.len();
        let z = y + 1 + c.len();
        if i < x {
            assert(text::is_digit(a[i]));
        } else if i > x && i < y {
            assert(text::is_digit(b[i - x - 1]));
        } else if i > y && i < z {
            assert(text::is_digit(c[i - y - 1]));
        } else if i > z {
            assert(text::is_digit(d[i - z - 1]));
        }
    }
}

// ---------------------------------------------------------------------------
// Socket addresses

/// The number that plain digits spell, at least one and at most `max`.
pub open spec fn digits_up_to(s: Seq<char>, max: nat) -> Option<nat> {
    if s.len() > 0 && text::all_digits(s) && text::digits_value(s) <= max {
        Some(text::digits_value(s))
    } else {
        None
    }
}

/// What a socket address says: `ip:port` for IPv4, `[ip]:port` or
/// `[ip%scope]:port` for IPv6.
pub open spec fn socket_parts(s: Seq<char>) -> Option<(Seq<u8>, u16, u32)> {
    if s.len() > 0 && s[0] == '[' {
        let close = text::first_at(s, ']');
        let inner = s.subrange(1, close);
        let percent = text::first_at(inner, '%');
        let scope = if percent < inner.len() {
            digits_up_to(inner.skip(percent + 1), u32::MAX as nat)
        } else {
            Some(0)
        };
        if close + 1 < s.len() && s[close + 1] == ':' {
            match (
                ipv6_groups(inner.take(percent)),
                scope,
                digits_up_to(s.skip(close + 2), 65535),
            ) {
                (Some(g), Some(scope), Some(port)) => Some(
                    (group_octets(g), port as u16, scope as u32),
                ),
                _ => None,
            }
        } else {
            None
        }
    } else {
        let colon = text::first_at(s, ':');
        if colon < s.len() {
            match (ipv4_octets(s.take(colon)), digits_up_to(s.skip(colon + 1), 65535)) {
                (Some(o), Some(port)) => Some((o, port as u16, 0u32)),
                _ => None,
            }
        } else {
            None
        }
    }
}

/// The text of a socket address.
pub open spec fn socket_text(o: Seq<u8>, port: u16, scope: u32) -> Seq<char> {
    if o.len() == 4 {
        ipv4_text(o) + seq![':'] + text::decimal(port as nat)
    } else if scope == 0 {
        seq!['['] + ipv6_text(o) + seq![']', ':'] + text::decimal(port as nat)
    } else {
        seq!['['] + ipv6_text(o) + seq!['%'] + text::decimal(scope as nat) + seq![']', ':']
            + text::decimal(port as nat)
    }
}

fn parse_digits(s: &[char], max: u64) -> (r: Option<u64>)
    ensures
        match digits_up_to(s@, max as nat) {
            Some(n) => r matches Some(v) && v == n,
            None => r is None,
        },
        r matches Some(v) ==> v <= max,
{
    if s.len() > 0 && s[0] == '+' {
        assert(!text::is_digit(s@[0]));
        return None;
    }
    text::parse_up_to(s, max)
}

/// Reads a socket address.
pub fn parse_socket_addr(s: &[char]) -> (r: Option<SocketAddr>)
    ensures
        match socket_parts(s@) {
            Some((o, port, scope)) => r matches Some(a) && a.ip@ == o && a.port == port
                && a.scope_id == scope,
            None => r is None,
        },
{
    assert(s@.skip(0) =~= s@);
    if s.len() > 0 && s[0] == '[' {
        let close = text::find_char(s, 0, ']');
        if s.len() - close < 2 || s[close + 1] != ':' {
            return None;
        }
        let inner = text::part(s, 1, close);
        assert(inner@.skip(0) =~= inner@);
        let percent = text::find_char(inner.as_slice(), 0, '%');
        let ip_part = text::part(inner.as_slice(), 0, percent);
        assert(ip_part@ =~= inner@.take(percent as int));
        let ip = match parse_ipv6(ip_part.as_slice()) {
            None => return None,
            Some(ip) => ip,
        };
        let scope: u64 = if percent < inner.len() {
            let digits = text::part(inner.as_slice(), percent + 1, inner.len());
            assert(digits@ =~= inner@.skip(percent + 1));
            match parse_digits(digits.as_slice(), u32::MAX as u64) {
                None => return None,
                Some(v) => v,
            }
        } else {
            0
        };
        let digits = text::part(s, close + 2, s.len());
        assert(digits@ =~= s@.skip(close + 2));
        match parse_digits(digits.as_slice(), 65535) {
            None => None,
            Some(port) => Some(SocketAddr { ip, port: port as u16, scope_id: scope as u32 }),
        }
    } else {
        let colon = text::find_char(s, 0, ':');
        if colon >= s.len() {
            return None;
        }
        let ip_part = text::part(s, 0, colon);
        assert(ip_part@ =~= s@.take(colon as int));
        let digits = text::part(s, colon + 1, s.len());
        assert(digits@ =~= s@.skip(colon + 1));
        match (parse_ipv4(ip_part.as_slice()), parse_digits(digits.as_slice(), 65535)) {
            (Some(ip), Some(port)) => Some(SocketAddr { ip, port: port as u16, scope_id: 0 }),
            _ => None,
        }
    }
}

impl SocketAddr {
    /// The text of the address.
    pub fn to_text(&self) -> (out: String)
        ensures
            out@ == socket_text(self.ip@, self.port, self.scope_id),
    {
        let mut out: Vec<char> = Vec::new();
        if self.ip.is_ipv4() {
            push_ip(&mut out, &self.ip);
            out.push(':');
        } else {
            out.push('[');
            push_ip(&mut out, &self.ip);
            if self.scope_id != 0 {
                out.push('%');
                text::push_decimal(&mut out, self.scope_id as u64);
            }
            out.push(']');
            out.push(':');
        }
        text::push_decimal(&mut out, self.port as u64);
        assert(out@ =~= socket_text(self.ip@, self.port, self.scope_id));
        text::string_of(out.as_slice())
    }
}

proof fn lemma_ipv6_text_chars(o: Seq<u8>)
    requires
        o.len() == 16,
    ensures
        forall|i: int|
            0 <= i < ipv6_text(o).len() ==> is_hex(#[trigger] ipv6_text(o)[i]) || ipv6_text(o)[i]
                == ':' || ipv6_text(o)[i] == '.',
{
    let g = octet_groups(o);
    let s = ipv6_text(o);
    let (start, len) = longest_run(g, 8);
    if is_mapped(g) {
        let v4 = ipv4_text(o.skip(12));
        lemma_ipv4_chars(o.skip(12));
        assert forall|i: int| 0 <= i < s.len() implies is_hex(#[trigger] s[i]) || s[i] == ':'
            || s[i] == '.' by {
            if i >= 7 {
                assert(s[i] == v4[i - 7]);
            }
        }
    } else if len > 1 {
        lemma_longest_run(g, 8);
        let a = groups_text(g.take(start));
        let b = groups_text(g.skip(start + len));
        lemma_groups_hex(g.take(start));
        lemma_groups_hex(g.skip(start + len));
        assert forall|i: int| 0 <= i < s.len() implies is_hex(#[trigger] s[i]) || s[i] == ':'
            || s[i] == '.' by {
            if i < a.len() {
                assert(s[i] == a[i]);
            } else if i >= a.len() + 2 {
                assert(s[i] == b[i - a.len() - 2]);
            }
        }
    } else {
        lemma_groups_hex(g);
    }
}

proof fn lemma_ipv4_chars(o: Seq<u8>)
    requires
        o.len() == 4,
    ensures
        forall|i: int|
            0 <= i < ipv4_text(o).len() ==> is_hex(#[trigger] ipv4_text(o)[i]) || ipv4_text(o)[i]
                == '.',
{
    text::lemma_decimal(o[0] as nat);
    text::lemma_decimal(o[1] as nat);
    text::lemma_decimal(o[2] as nat);
    text::lemma_decimal(o[3] as nat);
    let a = text::decimal(o[0] as nat);
    let b = text::decimal(o[1] as nat);
    let c = text::decimal(o[2] as nat);
    let d = text::decimal(o[3] as nat);
    let s = ipv4_text(o);
    assert forall|i: int| 0 <= i < s.len() implies is_hex(#[trigger] s[i]) || s[i] == '.' by {
        let x = a.len() as int;
        let y = x + 1 + b.len();
        let z = y + 1 + c.len();
        if i < x {
            assert(text::is_digit(a[i]));
        } else if i > x && i < y {
            assert(text::is_digit(b[i - x - 1]));
        } else if i > y && i < z {
            assert(text::is_digit(c[i - y - 1]));
        } else if i > z {
            assert(text::is_digit(d[i - z - 1]));
        }
    }
}

proof fn lemma_groups_hex(g: Seq<u16>)
    ensures
        forall|i: int|
            0 <= i < groups_text(g).len() ==> is_hex(#[trigger] groups_text(g)[i])
                || groups_text(g)[i] == ':',
    decreases g.len(),
{
    let s = groups_text(g);
    if g.len() > 0 {
        let first = hex_text(g[0] as nat);
        lemma_hex_read_back(g[0] as nat);
        if g.len() > 1 {
            let tail = groups_text(g.drop_first());
            lemma_groups_hex(g.drop_first());
            let n = first.len() as int;
            assert forall|i: int| 0 <= i < s.len() implies is_hex(#[trigger] s[i]) || s[i]
                == ':' by {
                if i < n {
                    assert(s[i] == first[i]);
                } else if i > n {
                    assert(s[i] == tail[i - n - 1]);
                }
            }
        }
    }
}

proof fn lemma_socket_v4_read_back(o: Seq<u8>, port: u16)
    requires
        o.len() == 4,
    ensures
        socket_parts(socket_text(o, port, 0)) == Some((o, port, 0u32)),
{
    let s = socket_text(o, port, 0);
    let p = text::decimal(port as nat);
    let ip = ipv4_text(o);
    text::lemma_decimal(port as nat);
    lemma_ipv4_read_back(o);
    lemma_ipv4_no_colon(o);
    assert forall|k: int| 0 <= k < ip.len() implies s[k] != ':' by {
        assert(ip.contains(ip[k]));
        assert(s[k] == ip[k]);
    }
    text::lemma_first_at_is(s, ':', ip.len() as int);
    assert(s.take(ip.len() as int) =~= ip);
    assert(s.skip(ip.len() as int + 1) =~= p);
    assert(s[0] != '[') by {
        text::lemma_decimal(o[0] as nat);
        let first = text::decimal(o[0] as nat);
        assert(s[0] == first[0]);
        assert(text::is_digit(first[0]));
    }
}

/// What stands between the brackets of an IPv6 socket address.
spec fn bracketed(o: Seq<u8>, scope: u32) -> Seq<char> {
    if scope == 0 {
        ipv6_text(o)
    } else {
        ipv6_text(o) + seq!['%'] + text::decimal(scope as nat)
    }
}

proof fn lemma_bracketed_chars(o: Seq<u8>, scope: u32)
    requires
        o.len() == 16,
    ensures
        forall|k: int| 0 <= k < bracketed(o, scope).len() ==> #[trigger] bracketed(o, scope)[k] != ']',
        text::first_at(bracketed(o, scope), '%') == ipv6_text(o).len(),
        bracketed(o, scope).take(ipv6_text(o).len() as int) == ipv6_text(o),
        scope != 0 ==> bracketed(o, scope).skip(ipv6_text(o).len() as int + 1) == text::decimal(
            scope as nat,
        ),
{
    let ip = ipv6_text(o);
    let q = text::decimal(scope as nat);
    let inner = bracketed(o, scope);
    lemma_ipv6_text_chars(o);
    text::lemma_decimal(scope as nat);
    assert forall|k: int| 0 <= k < inner.len() implies #[trigger] inner[k] != ']' by {
        if k < ip.len() {
            assert(inner[k] == ip[k]);
        } else if k > ip.len() {
            assert(inner[k] == q[k - 1 - ip.len()]);
            assert(text::is_digit(q[k - 1 - ip.len()]));
        }
    }
    assert forall|k: int| 0 <= k < ip.len() implies inner[k] != '%' by {
        assert(inner[k] == ip[k]);
    }
    text::lemma_first_at_is(inner, '%', ip.len() as int);
    assert(inner.take(ip.len() as int) =~= ip);
    if scope != 0 {
        assert(inner.skip(ip.len() as int + 1) =~= q);
    }
}

proof fn lemma_socket_v6_read_back(o: Seq<u8>, port: u16, scope: u32)
    requires
        o.len() == 16,
    ensures
        socket_parts(socket_text(o, port, scope)) == Some((o, port, scope)),
{
    let s = socket_text(o, port, scope);
    let p = text::decimal(port as nat);
    let inner = bracketed(o, scope);
    text::lemma_decimal(port as nat);
    text::lemma_decimal(scope as nat);
    lemma_ipv6_read_back(o);
    lemma_bracketed_chars(o, scope);
    assert(s =~= seq!['['] + inner + seq![']', ':'] + p);
    let close = inner.len() as int + 1;
    assert forall|k: int| 0 <= k < close implies s[k] != ']' by {
        if 0 < k {
            assert(s[k] == inner[k - 1]);
        }
    }
    text::lemma_first_at_is(s, ']', close);
    assert(s.subrange(1, close) =~= inner);
    assert(s.skip(close + 2) =~= p);
}

/// The text of a socket address reads back as the address.
pub proof fn lemma_socket_read_back(o: Seq<u8>, port: u16, scope: u32)
    requires
        o.len() == 4 && scope == 0 || o.len() == 16,
    ensures
        socket_parts(socket_text(o, port, scope)) == Some((o, port, scope)),
{
    if o.len() == 4 {
        lemma_socket_v4_read_back(o, port);
    } else {
        lemma_socket_v6_read_back(o, port, scope);
    }
}

// ---------------------------------------------------------------------------
// The characters of addresses

/// A character of an IP address in either form.
pub open spec fn is_ip_char(c: char) -> bool {
    is_hex(c) || c == ':' || c == '.'
}

/// A character of a socket address.
pub open spec fn is_socket_char(c: char) -> bool {
    is_ip_char(c) || c == '[' || c == ']' || c == '%'
}

spec fn all_ip_chars(s: Seq<char>) -> bool {
    forall|i: int| 0 <= i < s.len() ==> is_ip_char(#[trigger] s[i])
}

proof fn lemma_pieces_make_ip_chars(s: Seq<char>, c: char)
    requires
        is_ip_char(c),
        forall|k: int|
            0 <= k < text::split_at_char(s, c).len() ==> all_ip_chars(
                #[trigger] text::split_at_char(s, c)[k],
            ),
    ensures
        all_ip_chars(s),
    decreases s.len(),
{
    let p = text::split_at_char(s, c);
    let i = text::first_at(s, c);
    text::lemma_first_at(s, c);
    if i < s.len() {
        let rest = s.skip(i + 1);
        assert forall|k: int| 0 <= k < text::split_at_char(rest, c).len() implies all_ip_chars(
            #[trigger] text::split_at_char(rest, c)[k],
        ) by {
            assert(p[k + 1] == text::split_at_char(rest, c)[k]);
        }
        lemma_pieces_make_ip_chars(rest, c);
        assert(p[0] == s.take(i));
        assert forall|k: int| 0 <= k < s.len() implies is_ip_char(#[trigger] s[k]) by {
            if k < i {
                assert(s[k] == p[0][k]);
            } else if k > i {
                assert(s[k] == rest[k - i - 1]);
            }
        }
    } else {
        assert(p[0] == s);
    }
}

proof fn lemma_ipv4_has_ip_chars(s: Seq<char>)
    requires
        ipv4_octets(s) is Some,
    ensures
        all_ip_chars(s),
        s.len() > 0,
{
    let p = text::split_at_char(s, '.');
    assert forall|k: int| 0 <= k < p.len() implies all_ip_chars(#[trigger] p[k]) by {
        assert(octet_of(p[k]) is Some);
        assert forall|i: int| 0 <= i < p[k].len() implies is_ip_char(#[trigger] p[k][i]) by {
            assert(text::is_digit(p[k][i]));
        }
    }
    lemma_pieces_make_ip_chars(s, '.');
}

proof fn lemma_pieces_have_ip_chars(p: Seq<Seq<char>>, dotted: bool)
    requires
        piece_groups(p, dotted) is Some,
    ensures
        forall|k: int| 0 <= k < p.len() ==> all_ip_chars(#[trigger] p[k]),
    decreases p.len(),
{
    if p.len() == 1 && dotted && ipv4_octets(p[0]) is Some {
        lemma_ipv4_has_ip_chars(p[0]);
    } else if p.len() > 0 {
        lemma_pieces_have_ip_chars(p.drop_first(), dotted);
        assert(group_of(p[0]) is Some);
        assert forall|k: int| 0 <= k < p.len() implies all_ip_chars(#[trigger] p[k]) by {
            if k > 0 {
                assert(p[k] == p.drop_first()[k - 1]);
            }
        }
    }
}

proof fn lemma_groups_have_ip_chars(s: Seq<char>, dotted: bool)
    requires
        groups_of(s, dotted) is Some,
    ensures
        all_ip_chars(s),
{
    if s.len() > 0 {
        lemma_pieces_have_ip_chars(text::split_at_char(s, ':'), dotted);
        lemma_pieces_make_ip_chars(s, ':');
    }
}

proof fn lemma_double_colon_is_one(s: Seq<char>)
    ensures
        0 <= double_colon(s) <= s.len(),
        double_colon(s) < s.len() ==> double_colon(s) + 1 < s.len() && s[double_colon(s)] == ':'
            && s[double_colon(s) + 1] == ':',
    decreases s.len(),
{
    if s.len() >= 2 && !(s[0] == ':' && s[1] == ':') {
        lemma_double_colon_is_one(s.drop_first());
    }
}

proof fn lemma_ipv6_has_ip_chars(s: Seq<char>)
    requires
        ipv6_groups(s) is Some,
    ensures
        all_ip_chars(s),
        s.len() > 0,
{
    let i = double_colon(s);
    lemma_double_colon_is_one(s);
    if i >= s.len() {
        lemma_groups_have_ip_chars(s, true);
    } else {
        let head = s.take(i);
        let tail = s.skip(i + 2);
        lemma_groups_have_ip_chars(head, false);
        lemma_groups_have_ip_chars(tail, true);
        assert forall|k: int| 0 <= k < s.len() implies is_ip_char(#[trigger] s[k]) by {
            if k < i {
                assert(s[k] == head[k]);
            } else if k > i + 1 {
                assert(s[k] == tail[k - i - 2]);
            }
        }
    }
}

/// Text that spells an IP address is not empty and holds nothing but hexadecimal
/// digits, colons and dots.
pub proof fn lemma_ip_chars(s: Seq<char>)
    requires
        ip_octets(s) is Some,
    ensures
        s.len() > 0,
        forall|i: int| 0 <= i < s.len() ==> is_ip_char(#[trigger] s[i]),
{
    if ipv4_octets(s) is Some {
        lemma_ipv4_has_ip_chars(s);
    } else {
        lemma_ipv6_has_ip_chars(s);
    }
}

/// Text that spells a socket address is not empty and holds nothing but the
/// characters of an IP address, brackets and a percent sign.
pub proof fn lemma_socket_chars(s: Seq<char>)
    requires
        socket_parts(s) is Some,
    ensures
        s.len() > 0,
        forall|i: int| 0 <= i < s.len() ==> is_socket_char(#[trigger] s[i]),
{
    if s[0] == '[' {
        let close = text::first_at(s, ']');
        text::lemma_first_at(s, ']');
        let inner = s.subrange(1, close);
        let percent = text::first_at(inner, '%');
        text::lemma_first_at(inner, '%');
        let ip = inner.take(percent);
        let port = s.skip(close + 2);
        lemma_ipv6_has_ip_chars(ip);
        assert forall|i: int| 0 <= i < s.len() implies is_socket_char(#[trigger] s[i]) by {
            if 1 <= i < 1 + percent {
                assert(s[i] == ip[i - 1]);
            } else if 1 + percent < i < close {
                assert(s[i] == inner.skip(percent + 1)[i - percent - 2]);
            } else if i == 1 + percent && i < close {
                assert(s[i] == inner[percent]);
            } else if i > close + 1 {
                assert(s[i] == port[i - close - 2]);
            }
        }
    } else {
        let colon = text::first_at(s, ':');
        text::lemma_first_at(s, ':');
        let ip = s.take(colon);
        let port = s.skip(colon + 1);
        lemma_ipv4_has_ip_chars(ip);
        assert forall|i: int| 0 <= i < s.len() implies is_socket_char(#[trigger] s[i]) by {
            if i < colon {
                assert(s[i] == ip[i]);
            } else if i > colon {
                assert(s[i] == port[i - colon - 1]);
            }
        }
    }
}

} // verus!
