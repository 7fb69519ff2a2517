//! Addresses as text, in every form that is read, and in the one that is written.

use crate::addr;
use crate::http;
use crate::text;
use vstd::prelude::*;

verus! {

// ---------------------------------------------------------------------------
// IPv4

/// Four numbers with dots between them.
pub open spec fn dotted(a: Seq<char>, b: Seq<char>, c: Seq<char>, d: Seq<char>) -> Seq<char> {
    a + seq!['.'] + (b + seq!['.'] + (c + seq!['.'] + d))
}

/// An IPv4 address is four numbers up to 255 in decimal, without leading zeros; what has
/// a larger number, or a number with a zero in front, is none.
pub proof fn lemma_ipv4(a: nat, b: nat, c: nat, d: nat)
    ensures
        ({
            let s = dotted(text::decimal(a), text::decimal(b), text::decimal(c), text::decimal(d));
            &&& a <= 255 && b <= 255 && c <= 255 && d <= 255 ==> addr::ipv4_octets(s) == Some(
                seq![a as u8, b as u8, c as u8, d as u8],
            )
            &&& a > 255 || b > 255 || c > 255 || d > 255 ==> addr::ipv4_octets(s) is None
            &&& addr::ipv4_octets(
                dotted(
                    text::decimal(a),
                    text::decimal(b),
                    text::decimal(c),
                    seq!['0'] + text::decimal(d),
                ),
            ) is None
        }),
{
    lemma_octet(a);
    lemma_octet(b);
    lemma_octet(c);
    lemma_octet(d);
    lemma_four(text::decimal(a), text::decimal(b), text::decimal(c), text::decimal(d));
    let z = seq!['0'] + text::decimal(d);
    assert(!z.contains('.')) by {
        if z.contains('.') {
            let k = choose|k: int| 0 <= k < z.len() && z[k] == '.';
            assert(text::decimal(d).contains(text::decimal(d)[k - 1]));
        }
    }
    lemma_four(text::decimal(a), text::decimal(b), text::decimal(c), z);
    assert(z[0] == '0' && z.len() >= 2);
    assert(addr::octet_of(z) is None);
}

proof fn lemma_octet(n: nat)
    ensures
        n <= 255 ==> addr::octet_of(text::decimal(n)) == Some(n as u8),
        n > 255 ==> addr::octet_of(text::decimal(n)) is None,
        text::decimal(n).len() >= 1,
        !text::decimal(n).contains('.'),
{
    let s = text::decimal(n);
    text::lemma_decimal(n);
    assert forall|i: int| 0 <= i < s.len() implies s[i] != '.' by {
        assert(text::is_digit(s[i]));
    }
    if n <= 255 {
        reveal_with_fuel(text::decimal, 4);
    }
}

proof fn lemma_four(a: Seq<char>, b: Seq<char>, c: Seq<char>, d: Seq<char>)
    requires
        !a.contains('.'),
        !b.contains('.'),
        !c.contains('.'),
        !d.contains('.'),
    ensures
        text::split_at_char(dotted(a, b, c, d), '.') == seq![a, b, c, d],
{
    addr::lemma_split_one(d, '.');
    addr::lemma_split_cons(c, '.', d);
    addr::lemma_split_cons(b, '.', c + seq!['.'] + d);
    addr::lemma_split_cons(a, '.', b + seq!['.'] + (c + seq!['.'] + d));
    assert(text::split_at_char(dotted(a, b, c, d), '.') =~= seq![a, b, c, d]);
}

/// Three numbers are no IPv4 address, and neither are five.
pub proof fn lemma_not_four(
    a: Seq<char>,
    b: Seq<char>,
    c: Seq<char>,
    d: Seq<char>,
    e: Seq<char>,
)
    requires
        !a.contains('.'),
        !b.contains('.'),
        !c.contains('.'),
        !d.contains('.'),
        !e.contains('.'),
    ensures
        addr::ipv4_octets(b + seq!['.'] + (c + seq!['.'] + d)) is None,
        addr::ipv4_octets(a + seq!['.'] + dotted(b, c, d, e)) is None,
{
    addr::lemma_split_one(d, '.');
    addr::lemma_split_cons(c, '.', d);
    addr::lemma_split_cons(b, '.', c + seq!['.'] + d);
    lemma_four(b, c, d, e);
    addr::lemma_split_cons(a, '.', dotted(b, c, d, e));
}

// ---------------------------------------------------------------------------
// IPv6

/// The hexadecimal digits count from zero to fifteen, in either case.
pub proof fn lemma_hex_digits(i: int)
    requires
        0 <= i < 16,
    ensures
        addr::is_hex("0123456789abcdef"@[i]),
        addr::is_hex("0123456789ABCDEF"@[i]),
        addr::hex_digit("0123456789abcdef"@[i]) == i,
        addr::hex_digit("0123456789ABCDEF"@[i]) == i,
{
    reveal_strlit("0123456789abcdef");
    reveal_strlit("0123456789ABCDEF");
}

/// The case of hexadecimal digits does not count.
pub proof fn lemma_hex_case(a: Seq<char>, b: Seq<char>)
    requires
        http::same_ignoring_case(a, b),
        addr::all_hex(a),
    ensures
        addr::all_hex(b),
        addr::hex_value(a) == addr::hex_value(b),
        addr::group_of(a) == addr::group_of(b),
    decreases a.len(),
{
    assert forall|i: int| 0 <= i < b.len() implies addr::is_hex(#[trigger] b[i]) by {
        assert(http::lower(a[i]) == http::lower(b[i]));
        assert(addr::is_hex(a[i]));
    }
    if a.len() > 0 {
        let x = a.drop_last();
        let y = b.drop_last();
        assert forall|i: int| 0 <= i < x.len() implies http::lower(#[trigger] x[i]) == http::lower(
            y[i],
        ) by {
            assert(x[i] == a[i] && y[i] == b[i]);
        }
        assert forall|i: int| 0 <= i < x.len() implies addr::is_hex(#[trigger] x[i]) by {
            assert(x[i] == a[i]);
        }
        lemma_hex_case(x, y);
        let n = a.len() - 1;
        assert(http::lower(a[n]) == http::lower(b[n]));
        assert(addr::is_hex(a[n]) && addr::is_hex(b[n]));
    }
}

/// Groups as they are written: one to four hexadecimal digits each.
pub open spec fn are_groups(groups: Seq<Seq<char>>) -> bool {
    forall|i: int|
        0 <= i < groups.len() ==> 1 <= (#[trigger] groups[i]).len() <= 4 && addr::all_hex(groups[i])
}

/// Groups with colons between them.
pub open spec fn with_colons(groups: Seq<Seq<char>>) -> Seq<char>
    decreases groups.len(),
{
    if groups.len() == 0 {
        Seq::empty()
    } else if groups.len() == 1 {
        groups[0]
    } else {
        groups[0] + seq![':'] + with_colons(groups.drop_first())
    }
}

/// What groups count.
pub open spec fn values(groups: Seq<Seq<char>>) -> Seq<u16> {
    Seq::new(groups.len(), |i: int| addr::hex_value(groups[i]) as u16)
}

proof fn lemma_with_colons(groups: Seq<Seq<char>>, ip4: bool)
    requires
        are_groups(groups),
    ensures
        addr::groups_of(with_colons(groups), ip4) == Some(values(groups)),
        groups.len() > 0 ==> with_colons(groups).len() > 0 && with_colons(groups)[0] != ':'
            && with_colons(groups).last() != ':',
        groups.len() > 0 ==> text::split_at_char(with_colons(groups), ':') == groups,
        forall|i: int, j: int|
            0 <= i && j == i + 1 && j < with_colons(groups).len() ==> !(#[trigger] with_colons(
                groups,
            )[i] == ':' && #[trigger] with_colons(groups)[j] == ':'),
        !with_colons(groups).contains('.'),
    decreases groups.len(),
{
    if groups.len() > 0 {
        let first = groups[0];
        assert(1 <= groups[0].len() <= 4 && addr::all_hex(groups[0]));
        assert forall|i: int| 0 <= i < first.len() implies first[i] != ':' && first[i] != '.' by {
            assert(addr::is_hex(first[i]));
        }
        if groups.len() == 1 {
            addr::lemma_split_one(first, ':');
            assert(seq![first] =~= groups);
        } else {
            let rest = groups.drop_first();
            assert forall|i: int| 0 <= i < rest.len() implies 1 <= (#[trigger] rest[i]).len() <= 4
                && addr::all_hex(rest[i]) by {
                assert(rest[i] == groups[i + 1]);
            }
            lemma_with_colons(rest, ip4);
            let tail = with_colons(rest);
            addr::lemma_split_cons(first, ':', tail);
            assert(seq![first] + rest =~= groups);
            let s = with_colons(groups);
            let n = first.len() as int;
            assert forall|i: int, j: int|
                0 <= i && j == i + 1 && j < s.len() implies !(#[trigger] s[i] == ':'
                && #[trigger] s[j] == ':') by {
                if j <= n {
                    assert(s[i] == first[i]);
                } else if i == n {
                    assert(s[j] == tail[0]);
                } else {
                    assert(s[i] == tail[i - n - 1] && s[j] == tail[j - n - 1]);
                }
            }
            assert(s[0] == first[0] && s.last() == tail.last());
            if s.contains('.') {
                let k = choose|k: int| 0 <= k < s.len() && s[k] == '.';
                if k > n {
                    assert(tail.contains(tail[k - n - 1]));
                } else if k < n {
                    assert(s[k] == first[k]);
                }
            }
        }
        lemma_piece_groups(groups, ip4);
    } else {
        assert(values(groups) =~= Seq::empty());
    }
}

proof fn lemma_piece_groups(groups: Seq<Seq<char>>, ip4: bool)
    requires
        are_groups(groups),
    ensures
        addr::piece_groups(groups, ip4) == Some(values(groups)),
    decreases groups.len(),
{
    if groups.len() == 0 {
        assert(values(groups) =~= Seq::empty());
    } else {
        let first = groups[0];
        let rest = groups.drop_first();
        assert(1 <= groups[0].len() <= 4 && addr::all_hex(groups[0]));
        assert forall|i: int| 0 <= i < first.len() implies first[i] != '.' by {
            assert(addr::is_hex(first[i]));
        }
        addr::lemma_split_one(first, '.');
        assert(addr::ipv4_octets(first) is None);
        assert forall|i: int| 0 <= i < rest.len() implies 1 <= (#[trigger] rest[i]).len() <= 4
            && addr::all_hex(rest[i]) by {
            assert(rest[i] == groups[i + 1]);
        }
        lemma_piece_groups(rest, ip4);
        assert(values(groups) =~= seq![addr::hex_value(first) as u16] + values(rest));
    }
}

/// Eight groups are an IPv6 address; fewer without `::`, and more, are none.
pub proof fn lemma_ipv6_in_full(groups: Seq<Seq<char>>)
    requires
        are_groups(groups),
        groups.len() > 0,
    ensures
        groups.len() == 8 ==> addr::ipv6_groups(with_colons(groups)) == Some(values(groups)),
        groups.len() != 8 ==> addr::ipv6_groups(with_colons(groups)) is None,
{
    lemma_with_colons(groups, true);
    addr::lemma_no_double_colon_inner(with_colons(groups));
}

/// Two colons stand for as many zero groups as are missing from eight, at least one,
/// wherever in the address they are.
pub proof fn lemma_ipv6_shortened(head: Seq<Seq<char>>, tail: Seq<Seq<char>>)
    requires
        are_groups(head),
        are_groups(tail),
    ensures
        ({
            let s = with_colons(head) + seq![':', ':'] + with_colons(tail);
            &&& head.len() + tail.len() <= 7 ==> addr::ipv6_groups(s) == Some(
                values(head) + Seq::new((8 - head.len() - tail.len()) as nat, |i: int| 0u16)
                    + values(tail),
            )
            &&& head.len() + tail.len() > 7 ==> addr::ipv6_groups(s) is None
        }),
{
    let a = with_colons(head);
    let b = with_colons(tail);
    let s = a + seq![':', ':'] + b;
    lemma_with_colons(head, false);
    lemma_with_colons(tail, true);
    addr::lemma_double_colon_after_inner(a, b);
    assert(s.take(a.len() as int) =~= a);
    assert(s.skip(a.len() as int + 2) =~= b);
    if head.len() + tail.len() <= 7 {
        let n = 8 - head.len() - tail.len();
        assert(addr::zero_groups(n) =~= Seq::new(n as nat, |i: int| 0u16));
    }
}

/// The octets of groups: two for each, the high one first.
pub proof fn lemma_octets(groups: Seq<u16>, i: int)
    requires
        0 <= i < groups.len(),
    ensures
        addr::group_octets(groups).len() == 2 * groups.len(),
        addr::group_octets(groups)[2 * i] * 256 + addr::group_octets(groups)[2 * i + 1]
            == groups[i],
{
    let o = addr::group_octets(groups);
    assert((2 * i) / 2 == i && (2 * i) % 2 == 0);
    assert((2 * i + 1) / 2 == i && (2 * i + 1) % 2 == 1);
    assert(o[2 * i] == groups[i] / 256);
    assert(o[2 * i + 1] == groups[i] % 256);
}

/// A group is written in lower case, without leading zeros.
pub proof fn lemma_group_text(n: nat, i: int)
    ensures
        addr::hex_value(addr::hex_text(n)) == n,
        addr::hex_text(n).len() >= 1,
        n > 0 ==> addr::hex_text(n)[0] != '0',
        n == 0 ==> addr::hex_text(n) == seq!['0'],
        0 <= i < addr::hex_text(n).len() ==> '0' <= addr::hex_text(n)[i] <= '9' || 'a'
            <= addr::hex_text(n)[i] <= 'f',
    decreases n,
{
    addr::lemma_hex_text(n);
    if n >= 16 {
        addr::lemma_hex_text(n / 16);
        lemma_group_text(n / 16, i);
        assert(addr::hex_text(n)[0] == addr::hex_text(n / 16)[0]);
    }
}

proof fn lemma_run(g: Seq<u16>, i: int, n: int)
    requires
        0 <= i,
        0 <= n,
        i + n <= g.len(),
        forall|k: int| i <= k < i + n ==> g[k] == 0,
    ensures
        addr::zero_run(g, i) >= n,
        i + n < g.len() && g[i + n] != 0 || i + n == g.len() ==> addr::zero_run(g, i) == n,
    decreases n,
{
    if n > 0 {
        lemma_run(g, i + 1, n - 1);
    } else if i < g.len() && g[i] == 0 {
        lemma_run_size(g, i);
    }
}

proof fn lemma_run_size(g: Seq<u16>, i: int)
    requires
        0 <= i <= g.len(),
    ensures
        0 <= addr::zero_run(g, i) <= g.len() - i,
        forall|k: int| i <= k < i + addr::zero_run(g, i) ==> g[k] == 0,
    decreases g.len() - i,
{
    if i < g.len() && g[i] == 0 {
        lemma_run_size(g, i + 1);
    }
}

proof fn lemma_longest(g: Seq<u16>, n: int, i: int)
    requires
        0 <= i < n <= g.len(),
    ensures
        addr::longest_run(g, n).1 >= addr::zero_run(g, i),
        addr::longest_run(g, n).0 > i ==> addr::longest_run(g, n).1 > addr::zero_run(g, i),
    decreases n,
{
    if i < n - 1 {
        lemma_longest(g, n - 1, i);
    } else if n > 1 {
        lemma_longest_before(g, n - 1);
    }
}

proof fn lemma_longest_before(g: Seq<u16>, n: int)
    requires
        0 < n <= g.len(),
    ensures
        0 <= addr::longest_run(g, n).0 < n,
        addr::longest_run(g, n).1 >= 0,
        addr::longest_run(g, n).1 > 0 ==> addr::longest_run(g, n).1 == addr::zero_run(
            g,
            addr::longest_run(g, n).0,
        ),
    decreases n,
{
    lemma_run_size(g, n - 1);
    if n > 1 {
        lemma_longest_before(g, n - 1);
    } else {
        assert(addr::longest_run(g, 0) == (0int, 0int));
    }
}

/// The run of zero groups that is left out of the text of an IPv6 address is the
/// longest, and of several that are as long the first.
pub proof fn lemma_ipv6_text(a: Seq<u16>, zeros: nat, b: Seq<u16>, o: Seq<u8>)
    requires
        o.len() == 16,
        a.len() + zeros + b.len() == 8,
        addr::octet_groups(o) == a + Seq::new(zeros, |i: int| 0u16) + b,
        zeros >= 2,
        !(a.len() == 0 && zeros == 5 && b[0] == 0xffff),
        b.len() > 0 ==> b[0] != 0,
        forall|i: int| 0 <= i < a.len() ==> addr::zero_run(a + seq![1u16], i) < zeros,
        forall|i: int| 0 <= i < b.len() ==> addr::zero_run(b, i) <= zeros,
        a.len() > 0 ==> a.last() != 0,
    ensures
        addr::ipv6_text(o) == addr::groups_text(a) + seq![':', ':'] + addr::groups_text(b),
{
    let g = addr::octet_groups(o);
    let z = Seq::new(zeros, |i: int| 0u16);
    let at = a.len() as int;
    let (start, len) = addr::longest_run(g, 8);
    assert forall|k: int| at <= k < at + zeros implies g[k] == 0 by {
        assert(g[k] == z[k - at]);
    }
    if b.len() > 0 {
        assert(g[at + zeros] == b[0]);
    }
    lemma_run(g, at, zeros as int);
    lemma_longest(g, 8, at);
    lemma_longest_before(g, 8);
    lemma_run_size(g, start);
    assert(len >= zeros);
    if start < at {
        lemma_prefix_run(a, g, start);
    } else if start > at {
        if start < at + zeros {
            if start + len > at + zeros {
                assert(g[at + zeros] == 0);
            }
        } else {
            lemma_suffix_run(b, g, start);
        }
    }
    assert(start == at);
    assert(len == zeros);
    if addr::is_mapped(g) {
        if at == 0 {
            if zeros < 5 {
                assert(g[zeros as int] == b[0]);
            } else if zeros == 5 {
                assert(g[5] == b[0]);
            } else {
                assert(g[5] == 0);
            }
        } else {
            assert(g[at - 1] == a.last());
            let c = a + seq![1u16];
            assert forall|k: int| 0 <= k < 5 implies c[k] == 0 by {
                assert(c[k] == g[k]);
            }
            lemma_run(c, 0, 5);
        }
    }
    assert(!addr::is_mapped(g));
    assert(g.take(start) =~= a);
    assert(g.skip(start + len) =~= b);
}

/// An address without two zero groups in a row is written in full, and one that maps an
/// IPv4 address with that address behind `::ffff:`.
pub proof fn lemma_ipv6_text_in_full(o: Seq<u8>)
    requires
        o.len() == 16,
    ensures
        (forall|i: int, j: int|
            0 <= i && j == i + 1 && j < 8 ==> !(#[trigger] addr::octet_groups(o)[i] == 0
                && #[trigger] addr::octet_groups(o)[j] == 0)) ==> addr::ipv6_text(o)
            == addr::groups_text(addr::octet_groups(o)),
        (forall|i: int| 0 <= i < 10 ==> o[i] == 0) && o[10] == 0xff && o[11] == 0xff
            ==> addr::ipv6_text(o) == seq![':', ':', 'f', 'f', 'f', 'f', ':'] + addr::ipv4_text(
            o.skip(12),
        ),
{
    let g = addr::octet_groups(o);
    if forall|i: int, j: int|
        0 <= i && j == i + 1 && j < 8 ==> !(#[trigger] g[i] == 0 && #[trigger] g[j] == 0) {
        lemma_longest_before(g, 8);
        let (start, len) = addr::longest_run(g, 8);
        lemma_run_size(g, start);
        if len > 1 {
            assert(g[start] == 0 && g[start + 1] == 0);
        }
        if addr::is_mapped(g) {
            assert(g[0] == 0 && g[1] == 0);
        }
    }
    if (forall|i: int| 0 <= i < 10 ==> o[i] == 0) && o[10] == 0xff && o[11] == 0xff {
        assert(g[0] == 0 && g[1] == 0 && g[2] == 0 && g[3] == 0 && g[4] == 0);
        assert(g[5] == 0xffff);
    }
}

proof fn lemma_prefix_run(a: Seq<u16>, g: Seq<u16>, i: int)
    requires
        0 <= i < a.len() <= g.len(),
        forall|k: int| 0 <= k < a.len() ==> g[k] == a[k],
        a.last() != 0,
    ensures
        addr::zero_run(g, i) == addr::zero_run(a + seq![1u16], i),
    decreases a.len() - i,
{
    let c = a + seq![1u16];
    assert(c[i] == a[i] && g[i] == a[i]);
    if g[i] == 0 {
        lemma_prefix_run(a, g, i + 1);
    }
}

proof fn lemma_suffix_run(b: Seq<u16>, g: Seq<u16>, i: int)
    requires
        0 <= g.len() - b.len() <= i <= g.len(),
        forall|k: int| 0 <= k < b.len() ==> b[k] == #[trigger] g[k + g.len() - b.len()],
    ensures
        addr::zero_run(g, i) == addr::zero_run(b, i - (g.len() - b.len())),
    decreases g.len() - i,
{
    let k = i - (g.len() - b.len());
    if i < g.len() {
        assert(b[k] == g[k + g.len() - b.len()]);
        if g[i] == 0 {
            lemma_suffix_run(b, g, i + 1);
        }
    }
}

} // verus!
